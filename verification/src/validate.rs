//! Validators: referential soundness of a schema, and semantic soundness
//! of an instance against its schema.
//!
//! Validators accumulate every finding in one pass and never stop early;
//! success is returned exactly when nothing is wrong.

use vstd::prelude::*;

use crate::instance::{EntityData, EntityDataView, Instance, InstanceView, RowId, spec_walk};
use crate::schema::{Edge, EdgeView, Path, PathView, PathEquationView, Schema, SchemaView};
use crate::text::str_eq;
use crate::typeside::{Value, ValueView};

verus! {

/// A single validation finding, described in prose.
#[derive(Debug, Clone)]
pub struct ValidationError {
    pub message: std::string::String,
}

/// Builds a finding from three message parts.
fn mk_err(a: &str, b: &str, c: &str) -> ValidationError {
    let mut m = std::string::String::new();
    m.append(a);
    m.append(b);
    m.append(c);
    ValidationError { message: m }
}

/// An edge's endpoints name declared nodes.
pub open spec fn edge_refs_ok(sv: SchemaView, e: EdgeView) -> bool {
    if e.is_fk() {
        sv.has_node(e.source()) && sv.has_node(e.fk_target())
    } else {
        sv.has_node(e.source())
    }
}

/// Every edge name in the chain is declared.
pub open spec fn path_edges_exist(sv: SchemaView, edges: Seq<Seq<char>>) -> bool {
    forall|k: int| 0 <= k < edges.len() ==> sv.has_edge(#[trigger] edges[k])
}

/// Both sides of the equation start at declared nodes and traverse
/// declared edges.
pub open spec fn equation_refs_ok(sv: SchemaView, q: PathEquationView) -> bool {
    &&& sv.has_node(q.lhs.start)
    &&& sv.has_node(q.rhs.start)
    &&& path_edges_exist(sv, q.lhs.edges)
    &&& path_edges_exist(sv, q.rhs.edges)
}

/// The schema is referentially sound: every edge and every equation
/// refers only to declared nodes and edges.
pub open spec fn schema_refs_ok(sv: SchemaView) -> bool {
    &&& forall|i: int| 0 <= i < sv.edges.len() ==> edge_refs_ok(sv, #[trigger] sv.edges[i])
    &&& forall|i: int|
        0 <= i < sv.equations.len() ==> equation_refs_ok(sv, #[trigger] sv.equations[i])
}

/// How many findings one edge contributes: one per endpoint that names
/// no declared node.
pub open spec fn edge_finding_count(sv: SchemaView, e: EdgeView) -> int {
    if e.is_fk() {
        (if sv.has_node(e.source()) {
            0int
        } else {
            1int
        }) + (if sv.has_node(e.fk_target()) {
            0int
        } else {
            1int
        })
    } else {
        if sv.has_node(e.source()) {
            0int
        } else {
            1int
        }
    }
}

/// The findings of the first `upto` edges.
pub open spec fn edges_finding_count(sv: SchemaView, upto: int) -> int
    decreases upto,
{
    if upto <= 0 {
        0
    } else {
        edges_finding_count(sv, upto - 1) + edge_finding_count(sv, sv.edges[upto - 1])
    }
}

/// The findings of the first `upto` edge names of one equation side: one
/// per name that no declared edge carries.
pub open spec fn side_finding_count(sv: SchemaView, edges: Seq<Seq<char>>, upto: int) -> int
    decreases upto,
{
    if upto <= 0 {
        0
    } else {
        side_finding_count(sv, edges, upto - 1) + (if sv.has_edge(edges[upto - 1]) {
            0int
        } else {
            1int
        })
    }
}

/// How many findings one path equation contributes: one per missing
/// start node and one per undeclared edge name on either side.
pub open spec fn equation_finding_count(sv: SchemaView, q: PathEquationView) -> int {
    (if sv.has_node(q.lhs.start) {
        0int
    } else {
        1int
    }) + (if sv.has_node(q.rhs.start) {
        0int
    } else {
        1int
    }) + side_finding_count(sv, q.lhs.edges, q.lhs.edges.len() as int) + side_finding_count(
        sv,
        q.rhs.edges,
        q.rhs.edges.len() as int,
    )
}

/// The findings of the first `upto` equations.
pub open spec fn equations_finding_count(sv: SchemaView, upto: int) -> int
    decreases upto,
{
    if upto <= 0 {
        0
    } else {
        equations_finding_count(sv, upto - 1) + equation_finding_count(
            sv,
            sv.equations[upto - 1],
        )
    }
}

/// Every referential finding of a schema: one per broken reference.
pub open spec fn schema_finding_count(sv: SchemaView) -> int {
    edges_finding_count(sv, sv.edges.len() as int) + equations_finding_count(
        sv,
        sv.equations.len() as int,
    )
}

/// Records a finding for every edge name of the chain that the schema
/// does not declare.
fn check_path_edges(
    schema: &Schema,
    side: &str,
    edges: &Vec<std::string::String>,
    errors: &mut Vec<ValidationError>,
)
    ensures
        final(errors)@.len() >= old(errors)@.len(),
        forall|j: int| 0 <= j < old(errors)@.len() ==> final(errors)@[j] == old(errors)@[j],
        final(errors)@.len() == old(errors)@.len() + side_finding_count(
            schema@,
            crate::text::names_view(edges@),
            edges@.len() as int,
        ),
        (final(errors)@.len() == old(errors)@.len()) <==> path_edges_exist(
            schema@,
            crate::text::names_view(edges@),
        ),
{
    let ghost names = crate::text::names_view(edges@);
    let mut k: usize = 0;
    while k < edges.len()
        invariant
            names == crate::text::names_view(edges@),
            0 <= k <= edges@.len(),
            errors@.len() >= old(errors)@.len(),
            forall|j: int| 0 <= j < old(errors)@.len() ==> errors@[j] == old(errors)@[j],
            errors@.len() == old(errors)@.len() + side_finding_count(schema@, names, k as int),
            (errors@.len() == old(errors)@.len()) <==> (forall|m: int|
                0 <= m < k ==> schema@.has_edge(#[trigger] names[m])),
        decreases edges@.len() - k,
    {
        let mut found = false;
        let mut e: usize = 0;
        while e < schema.edges.len()
            invariant
                names == crate::text::names_view(edges@),
                0 <= k < edges@.len(),
                0 <= e <= schema.edges@.len(),
                found ==> schema@.has_edge(names[k as int]),
                !found ==> forall|m: int|
                    0 <= m < e ==> (#[trigger] schema@.edges[m]).name() != names[k as int],
            decreases schema.edges@.len() - e,
        {
            if !found && str_eq(schema.edges[e].name(), edges[k].as_str()) {
                proof {
                    assert(schema@.edges[e as int].name() == names[k as int]);
                }
                found = true;
            }
            e += 1;
        }
        if !found {
            proof {
                assert(!schema@.has_edge(names[k as int]));
            }
            errors.push(mk_err("path equation (", side, "): an edge in the path does not exist"));
        }
        k += 1;
    }
}

/// Checks that a schema is referentially sound, accumulating one finding
/// per broken reference; returns `Ok` exactly when there are none.
pub fn validate_schema(schema: &Schema) -> (r: Result<(), Vec<ValidationError>>)
    ensures
        r is Ok <==> schema_refs_ok(schema@),
        r is Err ==> r->Err_0@.len() == schema_finding_count(schema@) && r->Err_0@.len() > 0,
{
    let mut errors: Vec<ValidationError> = Vec::new();
    let mut i: usize = 0;
    while i < schema.edges.len()
        invariant
            0 <= i <= schema.edges@.len(),
            errors@.len() == edges_finding_count(schema@, i as int),
            (errors@.len() == 0) <==> (forall|j: int|
                0 <= j < i ==> edge_refs_ok(schema@, #[trigger] schema@.edges[j])),
        decreases schema.edges@.len() - i,
    {
        let ghost ev = schema@.edges[i as int];
        match &schema.edges[i] {
            Edge::ForeignKey { name, source, target } => {
                proof {
                    assert(ev.source() == source@ && ev.fk_target() == target@);
                }
                if !schema.has_node(source.as_str()) {
                    errors.push(
                        mk_err("foreign key '", name.as_str(), "': its source node does not exist"),
                    );
                }
                if !schema.has_node(target.as_str()) {
                    errors.push(
                        mk_err("foreign key '", name.as_str(), "': its target node does not exist"),
                    );
                }
            },
            Edge::Attribute { name, source, .. } => {
                proof {
                    assert(ev.source() == source@);
                }
                if !schema.has_node(source.as_str()) {
                    errors.push(
                        mk_err("attribute '", name.as_str(), "': its source node does not exist"),
                    );
                }
            },
        }
        i += 1;
    }
    let mut q: usize = 0;
    while q < schema.path_equations.len()
        invariant
            0 <= q <= schema.path_equations@.len(),
            errors@.len() == edges_finding_count(schema@, schema@.edges.len() as int)
                + equations_finding_count(schema@, q as int),
            (errors@.len() == 0) <==> (forall|j: int|
                0 <= j < schema@.edges.len() ==> edge_refs_ok(schema@, #[trigger] schema@.edges[j]))
                && (forall|j: int|
                0 <= j < q ==> equation_refs_ok(schema@, #[trigger] schema@.equations[j])),
        decreases schema.path_equations@.len() - q,
    {
        let ghost qv = schema@.equations[q as int];
        let eq = &schema.path_equations[q];
        let ghost base = errors@.len();
        if !schema.has_node(eq.lhs.start.as_str()) {
            errors.push(
                mk_err("path equation: the start node '", eq.lhs.start.as_str(), "' does not exist"),
            );
        }
        if !schema.has_node(eq.rhs.start.as_str()) {
            errors.push(
                mk_err("path equation: the start node '", eq.rhs.start.as_str(), "' does not exist"),
            );
        }
        check_path_edges(schema, "left side", &eq.lhs.edges, &mut errors);
        check_path_edges(schema, "right side", &eq.rhs.edges, &mut errors);
        proof {
            assert((errors@.len() == base) <==> equation_refs_ok(schema@, qv));
        }
        q += 1;
    }
    if errors.len() == 0 {
        Ok(())
    } else {
        Err(errors)
    }
}

/// The outcome of evaluating one side of a path equation on one row:
/// either the row reached (when the chain is all foreign keys) or the
/// attribute value read at its end.
pub enum SideVal {
    Row(RowId),
    Val(ValueView),
}

/// The evaluation of one equation side on one row.  A side ending in a
/// declared attribute walks the foreign-key prefix and reads the
/// attribute; any other side walks all its edges as foreign keys.
pub open spec fn side_result(iv: InstanceView, sv: SchemaView, p: PathView, row: RowId) -> Option<
    SideVal,
> {
    if p.edges.len() > 0 && sv.has_edge(p.edges.last()) && sv.edge_named(
        p.edges.last(),
    ).is_attribute() {
        match spec_walk(iv, sv, p.start, row, p.edges.drop_last()) {
            Some(er) => if iv.has_entity(er.0) {
                match iv.entity(er.0).attr_value(er.1, p.edges.last()) {
                    Some(v) => Some(SideVal::Val(v)),
                    None => None,
                }
            } else {
                None
            },
            None => None,
        }
    } else {
        match spec_walk(iv, sv, p.start, row, p.edges) {
            Some(er) => Some(SideVal::Row(er.1)),
            None => None,
        }
    }
}

/// Every row of the equation's start entity satisfies the equation.
pub open spec fn equation_data_ok(iv: InstanceView, sv: SchemaView, q: PathEquationView) -> bool {
    iv.has_entity(q.lhs.start) ==> forall|ri: int|
        0 <= ri < iv.entity(q.lhs.start).rows.len() ==> side_result(
            iv,
            sv,
            q.lhs,
            (#[trigger] iv.entity(q.lhs.start).rows[ri]).id,
        ) == side_result(iv, sv, q.rhs, iv.entity(q.lhs.start).rows[ri].id)
}

/// Foreign-key soundness of one entity table: every row has a cell for
/// every foreign key leaving the entity, and the cell points at an
/// existing row of a materialized target entity.
pub open spec fn entity_fks_ok(
    iv: InstanceView,
    sv: SchemaView,
    name: Seq<char>,
    ed: EntityDataView,
) -> bool {
    forall|ri: int, ei: int|
        0 <= ri < ed.rows.len() && 0 <= ei < sv.edges.len() && (#[trigger] sv.edges[ei]).is_fk()
            && sv.edges[ei].source() == name ==> {
            let fv = ed.fk_value((#[trigger] ed.rows[ri]).id, sv.edges[ei].name());
            &&& fv is Some
            &&& iv.has_entity(sv.edges[ei].fk_target())
            &&& iv.entity(sv.edges[ei].fk_target()).has_row(fv->Some_0)
        }
}

/// The instance is semantically sound for the schema: every entity table
/// belongs to a declared node, foreign keys are total and point at
/// existing rows, and every path equation holds of every row.
pub open spec fn instance_ok(iv: InstanceView, sv: SchemaView) -> bool {
    &&& forall|i: int|
        0 <= i < iv.data.len() ==> sv.has_node((#[trigger] iv.data[i]).0) && entity_fks_ok(
            iv,
            sv,
            iv.data[i].0,
            iv.data[i].1,
        )
    &&& forall|i: int| 0 <= i < sv.equations.len() ==> equation_data_ok(iv, sv, #[trigger] sv.equations[i])
}

/// The exec twin of `SideVal`.
enum SideOutcome {
    Row(RowId),
    Val(Value),
}

/// Evaluates one equation side on one row.
fn eval_side(inst: &Instance, schema: &Schema, p: &Path, row: RowId) -> (r: Option<SideOutcome>)
    requires
        inst@.wf(),
        schema@.wf(),
    ensures
        match r {
            Some(SideOutcome::Row(id)) => side_result(inst@, schema@, p@, row) == Some(
                SideVal::Row(id),
            ),
            Some(SideOutcome::Val(v)) => side_result(inst@, schema@, p@, row) == Some(
                SideVal::Val(v@),
            ),
            None => side_result(inst@, schema@, p@, row) is None,
        },
{
    let n = p.edges.len();
    let mut attr_mode = false;
    if n > 0 {
        match schema.get_edge(p.edges[n - 1].as_str()) {
            Some(e) => {
                match e {
                    Edge::Attribute { .. } => {
                        attr_mode = true;
                    },
                    _ => {},
                }
            },
            None => {},
        }
    }
    proof {
        if n > 0 {
            assert(p@.edges.last() == p@.edges[n - 1]);
        }
    }
    if attr_mode {
        let mut prefix: Vec<std::string::String> = Vec::new();
        let mut i: usize = 0;
        while i < n - 1
            invariant
                n == p.edges@.len(),
                n > 0,
                0 <= i <= n - 1,
                prefix@.len() == i,
                forall|j: int|
                    0 <= j < i ==> crate::text::names_view(prefix@)[j]
                        == #[trigger] p@.edges[j],
            decreases n - 1 - i,
        {
            let ghost pre = prefix@;
            prefix.push(p.edges[i].clone());
            proof {
                assert(prefix@.last()@ == p@.edges[i as int]);
                assert(forall|j: int|
                    0 <= j < i ==> crate::text::names_view(prefix@)[j] == crate::text::names_view(
                        pre,
                    )[j]);
            }
            i += 1;
        }
        proof {
            assert(crate::text::names_view(prefix@) =~= p@.edges.drop_last());
        }
        match inst.walk_fks(p.start.as_str(), row, &prefix, schema) {
            Some(er) => {
                match inst.entity_data(er.0.as_str()) {
                    Some(ed) => {
                        match ed.get_attr(er.1, p.edges[n - 1].as_str()) {
                            Some(v) => Some(SideOutcome::Val(v)),
                            None => None,
                        }
                    },
                    None => None,
                }
            },
            None => None,
        }
    } else {
        match inst.walk_fks(p.start.as_str(), row, &p.edges, schema) {
            Some(er) => Some(SideOutcome::Row(er.1)),
            None => None,
        }
    }
}

/// Decides whether the two side outcomes agree.
fn sides_agree(a: &Option<SideOutcome>, b: &Option<SideOutcome>) -> (r: bool)
    ensures
        r == ({
            ||| (a is None && b is None)
            ||| (a matches Some(SideOutcome::Row(x)) && b matches Some(SideOutcome::Row(y)) && x
                == y)
            ||| (a matches Some(SideOutcome::Val(x)) && b matches Some(SideOutcome::Val(y)) && x@
                == y@)
        }),
{
    match (a, b) {
        (None, None) => true,
        (Some(SideOutcome::Row(x)), Some(SideOutcome::Row(y))) => x == y,
        (Some(SideOutcome::Val(x)), Some(SideOutcome::Val(y))) => *x == *y,
        _ => false,
    }
}

/// Checks an instance against its schema, accumulating one finding per
/// missing foreign-key cell, dangling reference, unknown entity, or
/// violated path equation; returns `Ok` exactly when there are none.
#[verifier::rlimit(100)]
#[verifier::spinoff_prover]
pub fn validate_instance(instance: &Instance, schema: &Schema) -> (r: Result<
    (),
    Vec<ValidationError>,
>)
    requires
        instance@.wf(),
        schema@.wf(),
    ensures
        r is Ok <==> instance_ok(instance@, schema@),
        r is Err ==> r->Err_0@.len() > 0,
{
    let mut errors: Vec<ValidationError> = Vec::new();
    let mut i: usize = 0;
    while i < instance.data.len()
        invariant
            instance@.wf(),
            schema@.wf(),
            0 <= i <= instance.data@.len(),
            (errors@.len() == 0) <==> (forall|j: int|
                0 <= j < i ==> schema@.has_node((#[trigger] instance@.data[j]).0)
                    && entity_fks_ok(
                    instance@,
                    schema@,
                    instance@.data[j].0,
                    instance@.data[j].1,
                )),
        decreases instance.data@.len() - i,
    {
        let ghost entname = instance@.data[i as int].0;
        let ghost edv = instance@.data[i as int].1;
        let entity_name = &instance.data[i].0;
        let ed = &instance.data[i].1;
        proof {
            assert(ed@ == edv);
            assert(instance@.data[i as int].1.wf());
        }
        if !schema.has_node(entity_name.as_str()) {
            errors.push(
                mk_err("entity '", entity_name.as_str(), "' does not exist in the schema"),
            );
            i += 1;
            continue ;
        }
        let ghost base = errors@.len();
        let mut ri: usize = 0;
        while ri < ed.rows.len()
            invariant
                instance@.wf(),
                schema@.wf(),
                0 <= i < instance.data@.len(),
                entname == instance@.data[i as int].0,
                edv == instance@.data[i as int].1,
                ed@ == edv,
                edv.wf(),
                entity_name@ == entname,
                0 <= ri <= ed.rows@.len(),
                errors@.len() >= base,
                (errors@.len() == base) <==> (forall|rj: int, ei: int|
                    0 <= rj < ri && 0 <= ei < schema@.edges.len() && (
                    #[trigger] schema@.edges[ei]).is_fk() && schema@.edges[ei].source() == entname
                        ==> {
                        let fv = edv.fk_value((#[trigger] edv.rows[rj]).id, schema@.edges[
                            ei
                        ].name());
                        &&& fv is Some
                        &&& instance@.has_entity(schema@.edges[ei].fk_target())
                        &&& instance@.entity(schema@.edges[ei].fk_target()).has_row(fv->Some_0)
                    }),
            decreases ed.rows@.len() - ri,
        {
            let row_id = ed.rows[ri].id;
            let ghost base_row = errors@.len();
            let mut ei: usize = 0;
            while ei < schema.edges.len()
                invariant
                    instance@.wf(),
                    schema@.wf(),
                    0 <= i < instance.data@.len(),
                    entname == instance@.data[i as int].0,
                    edv == instance@.data[i as int].1,
                    ed@ == edv,
                    edv.wf(),
                    entity_name@ == entname,
                    0 <= ri < ed.rows@.len(),
                    row_id == edv.rows[ri as int].id,
                    0 <= ei <= schema.edges@.len(),
                    errors@.len() >= base_row,
                    (errors@.len() == base_row) <==> (forall|ej: int|
                        0 <= ej < ei && (#[trigger] schema@.edges[ej]).is_fk() && schema@.edges[
                            ej
                        ].source() == entname ==> {
                            let fv = edv.fk_value(row_id, schema@.edges[ej].name());
                            &&& fv is Some
                            &&& instance@.has_entity(schema@.edges[ej].fk_target())
                            &&& instance@.entity(schema@.edges[ej].fk_target()).has_row(
                                fv->Some_0,
                            )
                        }),
                decreases schema.edges@.len() - ei,
            {
                let ghost ev = schema@.edges[ei as int];
                let is_our_fk = match &schema.edges[ei] {
                    Edge::ForeignKey { source, .. } => str_eq(
                        source.as_str(),
                        entity_name.as_str(),
                    ),
                    _ => false,
                };
                if is_our_fk {
                    match &schema.edges[ei] {
                        Edge::ForeignKey { name, target, .. } => {
                            match ed.get_fk(row_id, name.as_str()) {
                                None => {
                                    errors.push(
                                        mk_err(
                                            "row: foreign key '",
                                            name.as_str(),
                                            "' has no value",
                                        ),
                                    );
                                },
                                Some(t) => {
                                    match instance.entity_data(target.as_str()) {
                                        Some(ted) => {
                                            if !ted.has_row(t) {
                                                errors.push(
                                                    mk_err(
                                                        "row: foreign key '",
                                                        name.as_str(),
                                                        "' points at a row that does not exist",
                                                    ),
                                                );
                                            }
                                        },
                                        None => {
                                            errors.push(
                                                mk_err(
                                                    "row: foreign key '",
                                                    name.as_str(),
                                                    "' points into an entity that is not materialized",
                                                ),
                                            );
                                        },
                                    }
                                },
                            }
                        },
                        _ => {},
                    }
                }
                ei += 1;
            }
            proof {
                if errors@.len() == base_row {
                    assert(forall|ej: int|
                        0 <= ej < schema@.edges.len() && (#[trigger] schema@.edges[ej]).is_fk()
                            && schema@.edges[ej].source() == entname ==> {
                            let fv = edv.fk_value(edv.rows[ri as int].id, schema@.edges[
                                ej
                            ].name());
                            &&& fv is Some
                            &&& instance@.has_entity(schema@.edges[ej].fk_target())
                            &&& instance@.entity(schema@.edges[ej].fk_target()).has_row(
                                fv->Some_0,
                            )
                        });
                }
            }
            ri += 1;
        }
        i += 1;
    }
    let ghost fks_done = errors@.len();
    let mut q: usize = 0;
    while q < schema.path_equations.len()
        invariant
            instance@.wf(),
            schema@.wf(),
            0 <= q <= schema.path_equations@.len(),
            (errors@.len() == 0) ==> fks_done == 0,
            errors@.len() >= fks_done,
            (fks_done == 0) <==> (forall|j: int|
                0 <= j < instance@.data.len() ==> schema@.has_node(
                    (#[trigger] instance@.data[j]).0,
                ) && entity_fks_ok(
                    instance@,
                    schema@,
                    instance@.data[j].0,
                    instance@.data[j].1,
                )),
            (errors@.len() == fks_done) <==> (forall|j: int|
                0 <= j < q ==> equation_data_ok(instance@, schema@, #[trigger] schema@.equations[j])),
        decreases schema.path_equations@.len() - q,
    {
        let ghost qv = schema@.equations[q as int];
        let eq = &schema.path_equations[q];
        let ghost base = errors@.len();
        match instance.entity_data(eq.lhs.start.as_str()) {
            None => {
                proof {
                    assert(equation_data_ok(instance@, schema@, qv));
                }
            },
            Some(sed) => {
                let ghost sedv = instance@.entity(qv.lhs.start);
                proof {
                    assert(sed@ == sedv);
                }
                let mut ri: usize = 0;
                while ri < sed.rows.len()
                    invariant
                        instance@.wf(),
                        schema@.wf(),
                        qv == schema@.equations[q as int],
                        qv.lhs == schema.path_equations@[q as int]@.lhs,
                        qv.rhs == schema.path_equations@[q as int]@.rhs,
                        eq@ == schema.path_equations@[q as int]@,
                        instance@.has_entity(qv.lhs.start),
                        sedv == instance@.entity(qv.lhs.start),
                        sed@ == sedv,
                        0 <= ri <= sed.rows@.len(),
                        errors@.len() >= base,
                        (errors@.len() == base) <==> (forall|rj: int|
                            0 <= rj < ri ==> side_result(
                                instance@,
                                schema@,
                                qv.lhs,
                                (#[trigger] sedv.rows[rj]).id,
                            ) == side_result(instance@, schema@, qv.rhs, sedv.rows[rj].id)),
                    decreases sed.rows@.len() - ri,
                {
                    let row_id = sed.rows[ri].id;
                    proof {
                        assert(sedv.rows[ri as int].id == row_id);
                        assert(qv.lhs == eq.lhs@);
                        assert(qv.rhs == eq.rhs@);
                    }
                    let lv = eval_side(instance, schema, &eq.lhs, row_id);
                    let rv = eval_side(instance, schema, &eq.rhs, row_id);
                    let agree = sides_agree(&lv, &rv);
                    proof {
                        assert(agree <==> side_result(instance@, schema@, qv.lhs, row_id)
                            == side_result(instance@, schema@, qv.rhs, row_id));
                    }
                    if !agree {
                        errors.push(
                            mk_err(
                                "path equation violated at a row of entity '",
                                eq.lhs.start.as_str(),
                                "'",
                            ),
                        );
                    }
                    ri += 1;
                }
            },
        }
        proof {
            assert((errors@.len() == base) <==> equation_data_ok(instance@, schema@, qv));
        }
        q += 1;
    }
    if errors.len() == 0 {
        Ok(())
    } else {
        Err(errors)
    }
}

} // verus!
