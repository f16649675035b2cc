use catrust::instance::Instance;
use catrust::mapping::Mapping;
use catrust::optimize::{compose_mappings, PathOptimizer};
use catrust::schema::{Path, Schema};
use catrust::typeside::{BaseType, Typeside, Value};
use catrust::validate::{validate_instance, validate_schema};

fn company_schema() -> Schema {
    let mut s = Schema::new("Company");
    s.add_node("Employee");
    s.add_node("Department");
    s.add_fk("works_in", "Employee", "Department");
    s.add_attribute("emp_name", "Employee", BaseType::String);
    s.add_attribute("salary", "Employee", BaseType::Integer);
    s.add_attribute("dept_name", "Department", BaseType::String);
    s
}

fn company_instance(schema: &Schema) -> Instance {
    let mut inst = Instance::new("CompanyData", schema);
    let d1 = inst.insert(
        "Department",
        vec![("dept_name".to_string(), Value::String("Engineering".to_string()))],
        vec![],
    );
    let d2 = inst.insert(
        "Department",
        vec![("dept_name".to_string(), Value::String("Marketing".to_string()))],
        vec![],
    );
    inst.insert(
        "Employee",
        vec![
            ("emp_name".to_string(), Value::String("Alice".to_string())),
            ("salary".to_string(), Value::Integer(80000)),
        ],
        vec![("works_in".to_string(), d1)],
    );
    inst.insert(
        "Employee",
        vec![
            ("emp_name".to_string(), Value::String("Bob".to_string())),
            ("salary".to_string(), Value::Integer(75000)),
        ],
        vec![("works_in".to_string(), d1)],
    );
    inst.insert(
        "Employee",
        vec![
            ("emp_name".to_string(), Value::String("Charlie".to_string())),
            ("salary".to_string(), Value::Integer(90000)),
        ],
        vec![("works_in".to_string(), d2)],
    );
    inst
}

#[test]
fn test_create_schema() {
    let s = company_schema();
    assert_eq!(s.nodes.len(), 2);
    assert_eq!(s.edges.len(), 4);
}

#[test]
fn test_foreign_keys() {
    let s = company_schema();
    let fks = s.foreign_keys();
    assert_eq!(fks.len(), 1);
}

#[test]
fn test_attributes_of() {
    let s = company_schema();
    let emp_attrs = s.attributes_of("Employee");
    assert_eq!(emp_attrs.len(), 2);
}

#[test]
fn test_path_display() {
    let p = Path::new("Employee", vec!["works_in", "dept_name"]);
    assert_eq!(p.display(), "Employee.works_in.dept_name");
}

#[test]
fn test_path_compose() {
    let p1 = Path::new("Employee", vec!["works_in"]);
    let p2 = Path::new("Department", vec!["dept_name"]);
    let composed = p1.compose(&p2);
    assert_eq!(composed.edges, vec!["works_in", "dept_name"]);
}

#[test]
fn test_default_typeside() {
    let ts = Typeside::default_sql();
    assert!(ts.has_type(&BaseType::String));
    assert!(ts.has_type(&BaseType::Integer));
    assert!(ts.has_type(&BaseType::Float));
    assert!(ts.has_type(&BaseType::Boolean));
    assert!(!ts.has_type(&BaseType::Custom("Date".into())));
}

#[test]
fn test_value_types() {
    let v = Value::String("hello".into());
    assert_eq!(v.get_type(), BaseType::String);
    let v = Value::Integer(42);
    assert_eq!(v.get_type(), BaseType::Integer);
}

#[test]
fn test_add_custom_type() {
    let mut ts = Typeside::default_sql();
    ts.add_type(BaseType::Custom("Date".into()));
    assert!(ts.has_type(&BaseType::Custom("Date".into())));
}

#[test]
fn test_create_instance() {
    let schema = company_schema();
    let inst = company_instance(&schema);
    assert_eq!(inst.total_rows(), 5);
    assert_eq!(inst.entity_data("Employee").unwrap().len(), 3);
    assert_eq!(inst.entity_data("Department").unwrap().len(), 2);
}

#[test]
fn test_follow_fk() {
    let schema = company_schema();
    let inst = company_instance(&schema);
    let emp_rows = inst.entity_data("Employee").unwrap().row_ids();
    let first_emp = emp_rows[0];
    let dept_id = inst
        .entity_data("Employee")
        .unwrap()
        .get_fk(first_emp, "works_in")
        .unwrap();
    assert!(inst.entity_data("Department").unwrap().has_row(dept_id));
}

#[test]
fn test_follow_path() {
    let schema = company_schema();
    let inst = company_instance(&schema);
    let emp_rows = inst.entity_data("Employee").unwrap().row_ids();
    let first_emp = emp_rows[0];
    let result = inst.follow_path("Employee", first_emp, &vec!["works_in".to_string()], &schema);
    assert!(result.is_some());
}

#[test]
fn test_create_mapping() {
    let mut s_old = Schema::new("OldCompany");
    s_old.add_node("Person");
    s_old.add_node("Dept");
    s_old.add_fk("works_in", "Person", "Dept");
    s_old.add_attribute("person_name", "Person", BaseType::String);
    s_old.add_attribute("dept_name", "Dept", BaseType::String);

    let mut s_new = Schema::new("NewCompany");
    s_new.add_node("Employee");
    s_new.add_node("Department");
    s_new.add_fk("department", "Employee", "Department");
    s_new.add_attribute("emp_name", "Employee", BaseType::String);
    s_new.add_attribute("dept_label", "Department", BaseType::String);

    let mut m = Mapping::new("Rename", "OldCompany", "NewCompany");
    m.map_node("Person", "Employee");
    m.map_node("Dept", "Department");
    m.map_fk("works_in", Path::new("Employee", vec!["department"]));
    m.map_attr_direct("person_name", "emp_name");
    m.map_attr_direct("dept_name", "dept_label");

    assert!(m.is_complete(&s_old));
    assert!(m.validate(&s_old, &s_new).is_ok());
}

#[test]
fn test_incomplete_mapping() {
    let mut s_old = Schema::new("OldCompany");
    s_old.add_node("Person");
    s_old.add_node("Dept");
    s_old.add_fk("works_in", "Person", "Dept");
    s_old.add_attribute("person_name", "Person", BaseType::String);
    s_old.add_attribute("dept_name", "Dept", BaseType::String);

    let mut m = Mapping::new("Partial", "OldCompany", "NewCompany");
    m.map_node("Person", "Employee");

    assert!(!m.is_complete(&s_old));
}

#[test]
fn test_validate_schema_ok() {
    let mut s = Schema::new("Test");
    s.add_node("A");
    s.add_node("B");
    s.add_fk("f", "A", "B");
    assert!(validate_schema(&s).is_ok());
}

#[test]
fn test_validate_instance_ok() {
    let mut s = Schema::new("Test");
    s.add_node("A");
    s.add_node("B");
    s.add_fk("f", "A", "B");
    s.add_attribute("name", "A", BaseType::String);

    let mut inst = Instance::new("TestData", &s);
    let b1 = inst.insert("B", vec![], vec![]);
    inst.insert(
        "A",
        vec![("name".to_string(), Value::String("test".to_string()))],
        vec![("f".to_string(), b1)],
    );
    assert!(validate_instance(&inst, &s).is_ok());
}

#[test]
fn test_validate_instance_broken_fk() {
    let mut s = Schema::new("Test");
    s.add_node("A");
    s.add_node("B");
    s.add_fk("f", "A", "B");

    let mut inst = Instance::new("TestData", &s);
    inst.insert("A", vec![], vec![("f".to_string(), 999)]);
    let result = validate_instance(&inst, &s);
    assert!(result.is_err());
}

#[test]
fn test_optimizer_eliminates_join() {
    let schema = shortcut_schema();
    let optimizer = PathOptimizer::from_schema(&schema);
    let long_path = Path::new("Employee", vec!["department", "manager"]);
    let result = optimizer.optimize(&long_path);
    assert_eq!(result.optimized.edges, vec!["direct_mgr"]);
    assert_eq!(result.joins_eliminated, 1);
}

#[test]
fn test_optimizer_already_optimal() {
    let schema = shortcut_schema();
    let optimizer = PathOptimizer::from_schema(&schema);
    let short_path = Path::new("Employee", vec!["direct_mgr"]);
    let result = optimizer.optimize(&short_path);
    assert_eq!(result.joins_eliminated, 0);
    assert_eq!(result.optimized.edges, vec!["direct_mgr"]);
}

#[test]
fn test_optimizer_extended_path() {
    let schema = shortcut_schema();
    let optimizer = PathOptimizer::from_schema(&schema);
    let path = Path::new("Employee", vec!["department", "manager", "department"]);
    let result = optimizer.optimize(&path);
    assert_eq!(result.optimized.edges, vec!["direct_mgr", "department"]);
    assert_eq!(result.joins_eliminated, 1);
}

#[test]
fn test_optimizer_double_shortcut() {
    let schema = shortcut_schema();
    let optimizer = PathOptimizer::from_schema(&schema);
    let path = Path::new(
        "Employee",
        vec!["department", "manager", "department", "manager"],
    );
    let result = optimizer.optimize(&path);
    assert_eq!(result.optimized.edges, vec!["direct_mgr", "direct_mgr"]);
    assert_eq!(result.joins_eliminated, 2);
}

#[test]
fn test_analyze_schema() {
    let schema = shortcut_schema();
    let optimizer = PathOptimizer::from_schema(&schema);
    let analysis = optimizer.analyze_schema(&schema);
    assert!(!analysis.is_empty());
}

fn shortcut_schema() -> Schema {
    let mut s = Schema::new("Company");
    s.add_node("Employee");
    s.add_node("Department");
    s.add_fk("department", "Employee", "Department");
    s.add_fk("manager", "Department", "Employee");
    s.add_fk("direct_mgr", "Employee", "Employee");
    s.add_attribute("emp_name", "Employee", BaseType::String);
    s.add_attribute("dept_name", "Department", BaseType::String);
    s.add_path_equation(
        Path::new("Employee", vec!["department", "manager"]),
        Path::new("Employee", vec!["direct_mgr"]),
    );
    s
}

#[test]
fn test_compose_mappings() {
    let mut schema_s = Schema::new("S");
    schema_s.add_node("Person");
    schema_s.add_node("Dept");
    schema_s.add_fk("works_in", "Person", "Dept");
    schema_s.add_attribute("pname", "Person", BaseType::String);
    schema_s.add_attribute("dname", "Dept", BaseType::String);

    let mut schema_t = Schema::new("T");
    schema_t.add_node("Employee");
    schema_t.add_node("Department");
    schema_t.add_fk("dept", "Employee", "Department");
    schema_t.add_attribute("ename", "Employee", BaseType::String);
    schema_t.add_attribute("dlabel", "Department", BaseType::String);

    let mut schema_u = Schema::new("U");
    schema_u.add_node("Worker");
    schema_u.add_node("Unit");
    schema_u.add_fk("unit", "Worker", "Unit");
    schema_u.add_attribute("wname", "Worker", BaseType::String);
    schema_u.add_attribute("uname", "Unit", BaseType::String);

    let mut f = Mapping::new("F", "S", "T");
    f.map_node("Person", "Employee");
    f.map_node("Dept", "Department");
    f.map_fk("works_in", Path::new("Employee", vec!["dept"]));
    f.map_attr_direct("pname", "ename");
    f.map_attr_direct("dname", "dlabel");

    let mut g = Mapping::new("G", "T", "U");
    g.map_node("Employee", "Worker");
    g.map_node("Department", "Unit");
    g.map_fk("dept", Path::new("Worker", vec!["unit"]));
    g.map_attr_direct("ename", "wname");
    g.map_attr_direct("dlabel", "uname");

    let composed = compose_mappings(&f, &g, &schema_t).unwrap();
    assert_eq!(composed.node_image("Person").unwrap(), "Worker");
    assert_eq!(composed.node_image("Dept").unwrap(), "Unit");
}

#[test]
fn test_validate_instance_fk_into_missing_entity() {
    // A foreign key pointing into an entity with no table at all is a
    // dangling reference, not a pass.
    let mut s = Schema::new("S");
    s.add_node("A");
    s.add_node("B");
    s.add_fk("f", "A", "B");
    let mut ed = catrust::instance::EntityData::new();
    ed.insert(vec![], vec![("f".to_string(), 5)]);
    let inst = Instance {
        name: "partial".to_string(),
        schema_name: "S".to_string(),
        data: vec![("A".to_string(), ed)],
    };
    assert!(validate_instance(&inst, &s).is_err());
}

#[test]
fn test_validate_schema_counts_every_finding() {
    // One finding per broken reference: a foreign key with both endpoints
    // missing and an attribute with a missing source yield three.
    let mut s = Schema::new("S");
    s.add_node("Here");
    s.edges.push(catrust::schema::Edge::fk("f", "Gone", "AlsoGone"));
    s.edges.push(catrust::schema::Edge::attr(
        "a",
        "Missing",
        catrust::typeside::BaseType::Integer,
    ));
    let errs = validate_schema(&s).unwrap_err();
    assert_eq!(errs.len(), 3);
}

#[test]
fn test_distinct_is_sorted_and_deduplicated() {
    let s = company_schema();
    let inst = company_instance(&s);
    let mut q = catrust::query::CqlQuery::new("names", "Company");
    q.add_block(catrust::query::QueryBlock {
        target_entity: "Row".to_string(),
        from_vars: vec![("e".to_string(), "Employee".to_string())],
        where_clauses: vec![],
        attribute_bindings: vec![(
            "dept".to_string(),
            catrust::query::AttributeBinding {
                from_var: "e".to_string(),
                path: vec!["works_in".to_string()],
                attribute: "dept_name".to_string(),
            },
        )],
        fk_bindings: vec![],
    });
    let res = catrust::eval::eval_query(&q, &inst, &s).unwrap();
    let ds = catrust::aggregate::distinct(&res, "Row", "dept");
    assert_eq!(
        ds,
        vec![
            Value::String("Engineering".to_string()),
            Value::String("Marketing".to_string())
        ]
    );
}
