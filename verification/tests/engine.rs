use catrust::aggregate::{count, distinct, max_val, min_val, sum};
use catrust::eval::{eval_query, eval_query_optimized};
use catrust::instance::Instance;
use catrust::mapping::Mapping;
use catrust::migrate::{delta, sigma};
use catrust::query::{AttributeBinding, CompOp, CqlQuery, QueryBlock, WhereClause};
use catrust::schema::{Path, Schema};
use catrust::typeside::{BaseType, Value};

fn company_schema() -> Schema {
    let mut s = Schema::new("Company");
    s.add_node("Employee");
    s.add_node("Department");
    s.add_fk("works_in", "Employee", "Department");
    s.add_attribute("emp_name", "Employee", BaseType::String);
    s.add_attribute("salary", "Employee", BaseType::Integer);
    s.add_attribute("dept_name", "Department", BaseType::String);
    s
}

fn company_instance(schema: &Schema) -> Instance {
    let mut inst = Instance::new("Data", schema);
    let d1 = inst.insert(
        "Department",
        vec![("dept_name".to_string(), Value::String("Engineering".to_string()))],
        vec![],
    );
    let d2 = inst.insert(
        "Department",
        vec![("dept_name".to_string(), Value::String("Marketing".to_string()))],
        vec![],
    );
    inst.insert(
        "Employee",
        vec![
            ("emp_name".to_string(), Value::String("Alice".to_string())),
            ("salary".to_string(), Value::Integer(90000)),
        ],
        vec![("works_in".to_string(), d1)],
    );
    inst.insert(
        "Employee",
        vec![
            ("emp_name".to_string(), Value::String("Bob".to_string())),
            ("salary".to_string(), Value::Integer(75000)),
        ],
        vec![("works_in".to_string(), d1)],
    );
    inst.insert(
        "Employee",
        vec![
            ("emp_name".to_string(), Value::String("Charlie".to_string())),
            ("salary".to_string(), Value::Integer(60000)),
        ],
        vec![("works_in".to_string(), d2)],
    );
    inst.insert(
        "Employee",
        vec![
            ("emp_name".to_string(), Value::String("Diana".to_string())),
            ("salary".to_string(), Value::Integer(85000)),
        ],
        vec![("works_in".to_string(), d2)],
    );
    inst
}

fn select_all_query() -> CqlQuery {
    let mut query = CqlQuery::new("AllEmployees", "Company");
    query.add_block(QueryBlock {
        target_entity: "Result".into(),
        from_vars: vec![("e".to_string(), "Employee".to_string())],
        where_clauses: vec![],
        attribute_bindings: vec![
            (
                "name".to_string(),
                AttributeBinding {
                    from_var: "e".into(),
                    path: vec![],
                    attribute: "emp_name".into(),
                },
            ),
            (
                "salary".to_string(),
                AttributeBinding {
                    from_var: "e".into(),
                    path: vec![],
                    attribute: "salary".into(),
                },
            ),
        ],
        fk_bindings: vec![],
    });
    query
}

#[test]
fn test_eval_simple_select_all() {
    let schema = company_schema();
    let inst = company_instance(&schema);
    let query = select_all_query();
    let result = eval_query(&query, &inst, &schema).unwrap();
    assert_eq!(result.rows_returned, 4);
    assert_eq!(count(&result, "Result"), 4);
}

#[test]
fn test_eval_filter_by_salary() {
    let schema = company_schema();
    let inst = company_instance(&schema);
    let mut query = CqlQuery::new("HighEarners", "Company");
    query.add_block(QueryBlock {
        target_entity: "Result".into(),
        from_vars: vec![("e".to_string(), "Employee".to_string())],
        where_clauses: vec![WhereClause::Comparison {
            var: "e".into(),
            path: vec!["salary".to_string()],
            op: CompOp::Gt,
            value: Value::Integer(80000),
        }],
        attribute_bindings: vec![(
            "name".to_string(),
            AttributeBinding {
                from_var: "e".into(),
                path: vec![],
                attribute: "emp_name".into(),
            },
        )],
        fk_bindings: vec![],
    });
    let result = eval_query(&query, &inst, &schema).unwrap();
    assert_eq!(result.rows_returned, 2);
}

#[test]
fn test_eval_filter_by_fk_attribute() {
    let schema = company_schema();
    let inst = company_instance(&schema);
    let mut query = CqlQuery::new("Engineers", "Company");
    query.add_block(QueryBlock {
        target_entity: "Result".into(),
        from_vars: vec![("e".to_string(), "Employee".to_string())],
        where_clauses: vec![WhereClause::Comparison {
            var: "e".into(),
            path: vec!["works_in".to_string(), "dept_name".to_string()],
            op: CompOp::Eq,
            value: Value::String("Engineering".into()),
        }],
        attribute_bindings: vec![
            (
                "name".to_string(),
                AttributeBinding {
                    from_var: "e".into(),
                    path: vec![],
                    attribute: "emp_name".into(),
                },
            ),
            (
                "dept".to_string(),
                AttributeBinding {
                    from_var: "e".into(),
                    path: vec!["works_in".to_string()],
                    attribute: "dept_name".into(),
                },
            ),
        ],
        fk_bindings: vec![],
    });
    let result = eval_query(&query, &inst, &schema).unwrap();
    assert_eq!(result.rows_returned, 2);
}

#[test]
fn test_eval_combined_filters() {
    let schema = company_schema();
    let inst = company_instance(&schema);
    let mut query = CqlQuery::new("SeniorEngineers", "Company");
    query.add_block(QueryBlock {
        target_entity: "Result".into(),
        from_vars: vec![("e".to_string(), "Employee".to_string())],
        where_clauses: vec![
            WhereClause::Comparison {
                var: "e".into(),
                path: vec!["works_in".to_string(), "dept_name".to_string()],
                op: CompOp::Eq,
                value: Value::String("Engineering".into()),
            },
            WhereClause::Comparison {
                var: "e".into(),
                path: vec!["salary".to_string()],
                op: CompOp::Gt,
                value: Value::Integer(80000),
            },
        ],
        attribute_bindings: vec![(
            "name".to_string(),
            AttributeBinding {
                from_var: "e".into(),
                path: vec![],
                attribute: "emp_name".into(),
            },
        )],
        fk_bindings: vec![],
    });
    let result = eval_query(&query, &inst, &schema).unwrap();
    assert_eq!(result.rows_returned, 1);
}

#[test]
fn test_aggregation_functions() {
    let schema = company_schema();
    let inst = company_instance(&schema);
    let mut query = CqlQuery::new("Salaries", "Company");
    query.add_block(QueryBlock {
        target_entity: "Result".into(),
        from_vars: vec![("e".to_string(), "Employee".to_string())],
        where_clauses: vec![],
        attribute_bindings: vec![(
            "salary".to_string(),
            AttributeBinding {
                from_var: "e".into(),
                path: vec![],
                attribute: "salary".into(),
            },
        )],
        fk_bindings: vec![],
    });
    let result = eval_query(&query, &inst, &schema).unwrap();
    assert_eq!(count(&result, "Result"), 4);
    assert_eq!(sum(&result, "Result", "salary"), 310000);
    assert_eq!(min_val(&result, "Result", "salary"), Some(Value::Integer(60000)));
    assert_eq!(max_val(&result, "Result", "salary"), Some(Value::Integer(90000)));
}

#[test]
fn test_distinct_values() {
    let schema = company_schema();
    let inst = company_instance(&schema);
    let mut query = CqlQuery::new("Depts", "Company");
    query.add_block(QueryBlock {
        target_entity: "Result".into(),
        from_vars: vec![("e".to_string(), "Employee".to_string())],
        where_clauses: vec![],
        attribute_bindings: vec![(
            "dept".to_string(),
            AttributeBinding {
                from_var: "e".into(),
                path: vec!["works_in".to_string()],
                attribute: "dept_name".into(),
            },
        )],
        fk_bindings: vec![],
    });
    let result = eval_query(&query, &inst, &schema).unwrap();
    let depts = distinct(&result, "Result", "dept");
    assert_eq!(depts.len(), 2);
}

#[test]
fn test_eval_with_optimization() {
    let mut schema = Schema::new("OptimCompany");
    schema.add_node("Employee");
    schema.add_node("Department");
    schema.add_fk("department", "Employee", "Department");
    schema.add_fk("manager", "Department", "Employee");
    schema.add_fk("direct_mgr", "Employee", "Employee");
    schema.add_attribute("emp_name", "Employee", BaseType::String);
    schema.add_attribute("dept_name", "Department", BaseType::String);
    schema.add_path_equation(
        Path::new("Employee", vec!["department", "manager"]),
        Path::new("Employee", vec!["direct_mgr"]),
    );

    let mut inst = Instance::new("Data", &schema);
    let d1 = inst.insert(
        "Department",
        vec![("dept_name".to_string(), Value::String("Eng".to_string()))],
        vec![],
    );
    let mgr = inst.insert(
        "Employee",
        vec![("emp_name".to_string(), Value::String("Alice".to_string()))],
        vec![("department".to_string(), d1), ("direct_mgr".to_string(), 1)],
    );
    inst.set_fk("Department", d1, "manager", mgr);
    inst.insert(
        "Employee",
        vec![("emp_name".to_string(), Value::String("Bob".to_string()))],
        vec![("department".to_string(), d1), ("direct_mgr".to_string(), mgr)],
    );

    let mut query = CqlQuery::new("FindByMgr", "OptimCompany");
    query.add_block(QueryBlock {
        target_entity: "Result".into(),
        from_vars: vec![("e".to_string(), "Employee".to_string())],
        where_clauses: vec![WhereClause::Comparison {
            var: "e".into(),
            path: vec![
                "department".to_string(),
                "manager".to_string(),
                "emp_name".to_string(),
            ],
            op: CompOp::Eq,
            value: Value::String("Alice".into()),
        }],
        attribute_bindings: vec![(
            "name".to_string(),
            AttributeBinding {
                from_var: "e".into(),
                path: vec![],
                attribute: "emp_name".into(),
            },
        )],
        fk_bindings: vec![],
    });
    let result = eval_query_optimized(&query, &inst, &schema).unwrap();
    assert!(result.rows_returned >= 1);
}

#[test]
fn test_create_query() {
    let mut query = CqlQuery::new("FindEngineers", "Company");
    let block = QueryBlock {
        target_entity: "Engineer".to_string(),
        from_vars: vec![("e".to_string(), "Employee".to_string())],
        where_clauses: vec![WhereClause::Comparison {
            var: "e".into(),
            path: vec!["department".to_string(), "dept_name".to_string()],
            op: CompOp::Eq,
            value: Value::String("Engineering".into()),
        }],
        attribute_bindings: vec![(
            "name".to_string(),
            AttributeBinding {
                from_var: "e".into(),
                path: vec![],
                attribute: "emp_name".into(),
            },
        )],
        fk_bindings: vec![],
    };
    query.add_block(block);
    assert_eq!(query.blocks.len(), 1);
    assert!(query.result_schema.has_node("Engineer"));
}

#[test]
fn test_optimize_query() {
    let mut schema = Schema::new("Company");
    schema.add_node("Employee");
    schema.add_node("Department");
    schema.add_fk("department", "Employee", "Department");
    schema.add_fk("manager", "Department", "Employee");
    schema.add_fk("direct_mgr", "Employee", "Employee");
    schema.add_attribute("emp_name", "Employee", BaseType::String);
    schema.add_attribute("dept_name", "Department", BaseType::String);
    schema.add_path_equation(
        Path::new("Employee", vec!["department", "manager"]),
        Path::new("Employee", vec!["direct_mgr"]),
    );

    let mut query = CqlQuery::new("FindManagedBy", "Company");
    query.add_block(QueryBlock {
        target_entity: "Result".to_string(),
        from_vars: vec![("e".to_string(), "Employee".to_string())],
        where_clauses: vec![WhereClause::Comparison {
            var: "e".into(),
            path: vec![
                "department".to_string(),
                "manager".to_string(),
                "emp_name".to_string(),
            ],
            op: CompOp::Eq,
            value: Value::String("Alice".into()),
        }],
        attribute_bindings: vec![(
            "name".to_string(),
            AttributeBinding {
                from_var: "e".into(),
                path: vec![],
                attribute: "emp_name".into(),
            },
        )],
        fk_bindings: vec![],
    });
    let optimized = query.optimize(&schema);
    match &optimized.blocks[0].where_clauses[0] {
        WhereClause::Comparison { path, .. } => {
            assert_eq!(path.len(), 2, "the chain should be shortened to 2 edges");
            assert_eq!(path[0], "direct_mgr");
            assert_eq!(path[1], "emp_name");
        }
        _ => panic!("unexpected clause"),
    }
}

fn old_schema() -> Schema {
    let mut s = Schema::new("Old");
    s.add_node("Person");
    s.add_node("Dept");
    s.add_fk("works_in", "Person", "Dept");
    s.add_attribute("person_name", "Person", BaseType::String);
    s.add_attribute("dept_name", "Dept", BaseType::String);
    s
}

fn new_schema() -> Schema {
    let mut s = Schema::new("New");
    s.add_node("Employee");
    s.add_node("Department");
    s.add_fk("department", "Employee", "Department");
    s.add_attribute("emp_name", "Employee", BaseType::String);
    s.add_attribute("dept_label", "Department", BaseType::String);
    s
}

fn rename_mapping() -> Mapping {
    let mut m = Mapping::new("Rename", "Old", "New");
    m.map_node("Person", "Employee");
    m.map_node("Dept", "Department");
    m.map_fk("works_in", Path::new("Employee", vec!["department"]));
    m.map_attr_direct("person_name", "emp_name");
    m.map_attr_direct("dept_name", "dept_label");
    m
}

fn old_instance(schema: &Schema) -> Instance {
    let mut inst = Instance::new("OldData", schema);
    let d1 = inst.insert(
        "Dept",
        vec![("dept_name".to_string(), Value::String("Engineering".to_string()))],
        vec![],
    );
    let d2 = inst.insert(
        "Dept",
        vec![("dept_name".to_string(), Value::String("Marketing".to_string()))],
        vec![],
    );
    inst.insert(
        "Person",
        vec![("person_name".to_string(), Value::String("Alice".to_string()))],
        vec![("works_in".to_string(), d1)],
    );
    inst.insert(
        "Person",
        vec![("person_name".to_string(), Value::String("Bob".to_string()))],
        vec![("works_in".to_string(), d2)],
    );
    inst
}

#[test]
fn test_sigma_simple_rename() {
    let s_old = old_schema();
    let s_new = new_schema();
    let m = rename_mapping();
    let inst_old = old_instance(&s_old);

    let inst_new = sigma(&m, &s_old, &s_new, &inst_old);
    assert_eq!(inst_new.entity_data("Employee").unwrap().len(), 2);
    assert_eq!(inst_new.entity_data("Department").unwrap().len(), 2);

    let emp = inst_new.entity_data("Employee").unwrap();
    let has_alice = emp.row_ids().iter().any(|&id| {
        emp.get_attr(id, "emp_name")
            .map_or(false, |v| v == Value::String("Alice".into()))
    });
    assert!(has_alice, "Alice should exist in Employee");
}

#[test]
fn test_delta_simple_rename() {
    let s_old = old_schema();
    let s_new = new_schema();
    let m = rename_mapping();

    let mut inst_new = Instance::new("NewData", &s_new);
    let d1 = inst_new.insert(
        "Department",
        vec![("dept_label".to_string(), Value::String("R&D".to_string()))],
        vec![],
    );
    inst_new.insert(
        "Employee",
        vec![("emp_name".to_string(), Value::String("Diana".to_string()))],
        vec![("department".to_string(), d1)],
    );

    let inst_old = delta(&m, &s_old, &s_new, &inst_new);
    assert_eq!(inst_old.entity_data("Person").unwrap().len(), 1);
    assert_eq!(inst_old.entity_data("Dept").unwrap().len(), 1);

    let person = inst_old.entity_data("Person").unwrap();
    let has_diana = person.row_ids().iter().any(|&id| {
        person
            .get_attr(id, "person_name")
            .map_or(false, |v| v == Value::String("Diana".into()))
    });
    assert!(has_diana, "Diana should exist in Person");
}

#[test]
fn test_cartesian_product() {
    let sets = vec![vec![1, 2], vec![10, 20]];
    let result = catrust::eval::cartesian_product(&sets);
    assert_eq!(result.len(), 4);
    assert!(result.contains(&vec![1, 10]));
    assert!(result.contains(&vec![1, 20]));
    assert!(result.contains(&vec![2, 10]));
    assert!(result.contains(&vec![2, 20]));
}

#[test]
fn test_null_comparison_semantics() {
    let schema = company_schema();
    let mut inst = Instance::new("NullData", &schema);
    let d1 = inst.insert(
        "Department",
        vec![("dept_name".to_string(), Value::Null)],
        vec![],
    );
    let _ = d1;
    let cases: [(CompOp, usize); 4] = [
        (CompOp::Eq, 0),
        (CompOp::Neq, 1),
        (CompOp::Lt, 0),
        (CompOp::Gt, 0),
    ];
    for (op, expected) in cases {
        let mut query = CqlQuery::new("NullCheck", "Company");
        query.add_block(QueryBlock {
            target_entity: "Result".into(),
            from_vars: vec![("d".to_string(), "Department".to_string())],
            where_clauses: vec![WhereClause::Comparison {
                var: "d".into(),
                path: vec!["dept_name".to_string()],
                op,
                value: Value::Integer(0),
            }],
            attribute_bindings: vec![],
            fk_bindings: vec![],
        });
        let result = eval_query(&query, &inst, &schema).unwrap();
        assert_eq!(result.rows_returned, expected, "operator behaved unexpectedly on Null");
    }
}

#[test]
fn test_sigma_then_delta_round_trip() {
    let s_old = old_schema();
    let s_new = new_schema();
    let m = rename_mapping();
    let inst_old = old_instance(&s_old);

    let pushed = sigma(&m, &s_old, &s_new, &inst_old);
    let back = delta(&m, &s_old, &s_new, &pushed);

    let person = back.entity_data("Person").unwrap();
    assert_eq!(person.len(), 2);
    let mut names: Vec<String> = person
        .row_ids()
        .iter()
        .filter_map(|&id| match person.get_attr(id, "person_name") {
            Some(Value::String(s)) => Some(s),
            _ => None,
        })
        .collect();
    names.sort();
    assert_eq!(names, vec!["Alice".to_string(), "Bob".to_string()]);
}
