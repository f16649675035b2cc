//! The in-memory query evaluator.
//!
//! A block is evaluated by enumerating the Cartesian product of its FROM
//! variables' row lists, filtering each tuple through the WHERE clauses
//! (left to right, stopping at the first failure), and projecting the
//! passing tuples through the bindings into a fresh entity table.  The
//! number of rows returned equals the number of tuples that pass every
//! clause.

use vstd::prelude::*;

use crate::instance::{
    attr_lookup, attrs_view, fks_view, spec_walk, EntityData, EntityDataView, Instance,
    InstanceView, RowId, RowView, rows_total,
};
use crate::query::{
    AttributeBinding, AttributeBindingView, CompOp, CqlQuery, FkBinding, FkBindingView,
    QueryBlock, QueryBlockView, WhereClause, WhereClauseView,
};
use crate::schema::{Edge, Schema, SchemaView};
use crate::text::{lex_lt, names_view, str_eq, str_lt};
use crate::typeside::{Value, ValueView};

verus! {

/// The two-valued comparison matrix: like-typed scalars compare natively
/// (booleans only under equality and inequality), any comparison that
/// involves `Null` is false except inequality, which is true, and
/// incompatible pairs are false under every operator.
pub open spec fn spec_compare(l: ValueView, op: CompOp, r: ValueView) -> bool {
    match (l, r) {
        (ValueView::Null, _) => op is Neq,
        (_, ValueView::Null) => op is Neq,
        (ValueView::Int(a), ValueView::Int(b)) => match op {
            CompOp::Eq => a == b,
            CompOp::Neq => a != b,
            CompOp::Lt => a < b,
            CompOp::Gt => a > b,
            CompOp::Lte => a <= b,
            CompOp::Gte => a >= b,
        },
        (ValueView::Str(a), ValueView::Str(b)) => match op {
            CompOp::Eq => a == b,
            CompOp::Neq => a != b,
            CompOp::Lt => lex_lt(a, b),
            CompOp::Gt => lex_lt(b, a),
            CompOp::Lte => !lex_lt(b, a),
            CompOp::Gte => !lex_lt(a, b),
        },
        (ValueView::Bool(a), ValueView::Bool(b)) => match op {
            CompOp::Eq => a == b,
            CompOp::Neq => a != b,
            _ => false,
        },
        _ => false,
    }
}

/// Comparing `Null` with anything, on either side, yields false for
/// every operator except inequality, which yields true.
pub proof fn lemma_null_comparisons(op: CompOp, v: ValueView)
    ensures
        spec_compare(ValueView::Null, op, v) == (op is Neq),
        spec_compare(v, op, ValueView::Null) == (op is Neq),
{
}

/// Decides the comparison matrix.
fn compare_values(lhs: &Value, op: &CompOp, rhs: &Value) -> (r: bool)
    ensures
        r == spec_compare(lhs@, *op, rhs@),
{
    match (lhs, rhs) {
        (Value::Null, _) => matches!(op, CompOp::Neq),
        (_, Value::Null) => matches!(op, CompOp::Neq),
        (Value::Integer(a), Value::Integer(b)) => match op {
            CompOp::Eq => a == b,
            CompOp::Neq => a != b,
            CompOp::Lt => a < b,
            CompOp::Gt => a > b,
            CompOp::Lte => a <= b,
            CompOp::Gte => a >= b,
        },
        (Value::String(a), Value::String(b)) => match op {
            CompOp::Eq => str_eq(a.as_str(), b.as_str()),
            CompOp::Neq => !str_eq(a.as_str(), b.as_str()),
            CompOp::Lt => str_lt(a.as_str(), b.as_str()),
            CompOp::Gt => str_lt(b.as_str(), a.as_str()),
            CompOp::Lte => !str_lt(b.as_str(), a.as_str()),
            CompOp::Gte => !str_lt(a.as_str(), b.as_str()),
        },
        (Value::Boolean(a), Value::Boolean(b)) => match op {
            CompOp::Eq => a == b,
            CompOp::Neq => a != b,
            _ => false,
        },
        _ => false,
    }
}

/// All tuples built by prefixing each element of `first` to each tuple
/// of `rest`, in order.
pub open spec fn prepend_all(first: Seq<RowId>, rest: Seq<Seq<RowId>>) -> Seq<Seq<RowId>>
    decreases first.len(),
{
    if first.len() == 0 {
        Seq::empty()
    } else {
        rest.map_values(|r: Seq<RowId>| seq![first[0]] + r) + prepend_all(first.skip(1), rest)
    }
}

/// The Cartesian product of the row lists, as tuples in enumeration
/// order; the empty family has the single empty tuple.
pub open spec fn spec_product(sets: Seq<Seq<RowId>>) -> Seq<Seq<RowId>>
    decreases sets.len(),
{
    if sets.len() == 0 {
        seq![Seq::<RowId>::empty()]
    } else {
        prepend_all(sets[0], spec_product(sets.skip(1)))
    }
}

/// Appending one more element extends the prepended family by one block.
proof fn lemma_prepend_all_push(first: Seq<RowId>, x: RowId, rest: Seq<Seq<RowId>>)
    ensures
        prepend_all(first.push(x), rest) == prepend_all(first, rest) + rest.map_values(
            |r: Seq<RowId>| seq![x] + r,
        ),
    decreases first.len(),
{
    if first.len() == 0 {
        assert(first.push(x)[0] == x);
        assert(first.push(x).skip(1) =~= Seq::<RowId>::empty());
        assert(prepend_all(first.push(x), rest) == rest.map_values(|r: Seq<RowId>| seq![x] + r)
            + prepend_all(Seq::<RowId>::empty(), rest));
        assert(prepend_all(first.push(x), rest) =~= prepend_all(first, rest) + rest.map_values(
            |r: Seq<RowId>| seq![x] + r,
        ));
    } else {
        assert(first.push(x)[0] == first[0]);
        assert(first.push(x).skip(1) =~= first.skip(1).push(x));
        lemma_prepend_all_push(first.skip(1), x, rest);
        assert(prepend_all(first.push(x), rest) =~= prepend_all(first, rest) + rest.map_values(
            |r: Seq<RowId>| seq![x] + r,
        ));
    }
}

/// Builds the Cartesian product of the row lists from index `i` on.
fn product_from(sets: &Vec<Vec<RowId>>, i: usize) -> (r: Vec<Vec<RowId>>)
    requires
        i <= sets@.len(),
    ensures
        r@.map_values(|v: Vec<RowId>| v@) == spec_product(
            sets@.map_values(|v: Vec<RowId>| v@).skip(i as int),
        ),
    decreases sets@.len() - i,
{
    let ghost family = sets@.map_values(|v: Vec<RowId>| v@);
    if i >= sets.len() {
        let mut r: Vec<Vec<RowId>> = Vec::new();
        r.push(Vec::new());
        proof {
            assert(family.skip(i as int) =~= Seq::<Seq<RowId>>::empty());
            assert(r@.map_values(|v: Vec<RowId>| v@) =~= seq![Seq::<RowId>::empty()]);
        }
        return r;
    }
    let rest = product_from(sets, i + 1);
    let ghost restv = rest@.map_values(|v: Vec<RowId>| v@);
    let first = &sets[i];
    let ghost firstv = family[i as int];
    proof {
        assert(firstv == first@);
        assert(family.skip(i as int)[0] == family[i as int]);
        assert(family.skip(i as int).skip(1) =~= family.skip(i as int + 1));
    }
    let mut out: Vec<Vec<RowId>> = Vec::new();
    let mut k: usize = 0;
    proof {
        assert(firstv.subrange(0, 0) =~= Seq::<RowId>::empty());
        assert(prepend_all(firstv.subrange(0, 0), restv) == Seq::<Seq<RowId>>::empty());
        assert(out@.map_values(|v: Vec<RowId>| v@) =~= prepend_all(
            firstv.subrange(0, 0),
            restv,
        ));
    }
    while k < first.len()
        invariant
            firstv == first@,
            restv == rest@.map_values(|v: Vec<RowId>| v@),
            0 <= k <= firstv.len(),
            out@.map_values(|v: Vec<RowId>| v@) == prepend_all(
                firstv.subrange(0, k as int),
                restv,
            ),
        decreases firstv.len() - k,
    {
        let item = first[k];
        let ghost blockpre = out@.map_values(|v: Vec<RowId>| v@);
        let mut j: usize = 0;
        while j < rest.len()
            invariant
                firstv == first@,
                restv == rest@.map_values(|v: Vec<RowId>| v@),
                0 <= k < firstv.len(),
                item == firstv[k as int],
                0 <= j <= restv.len(),
                blockpre == prepend_all(firstv.subrange(0, k as int), restv),
                out@.map_values(|v: Vec<RowId>| v@).len() == blockpre.len() + j,
                forall|m: int|
                    0 <= m < blockpre.len() ==> out@.map_values(|v: Vec<RowId>| v@)[m]
                        == blockpre[m],
                forall|m: int|
                    0 <= m < j ==> out@.map_values(|v: Vec<RowId>| v@)[blockpre.len() + m]
                        == seq![item] + #[trigger] restv[m],
            decreases restv.len() - j,
        {
            let mut tuple: Vec<RowId> = Vec::new();
            tuple.push(item);
            let src = &rest[j];
            let mut t: usize = 0;
            while t < src.len()
                invariant
                    0 <= t <= src@.len(),
                    tuple@.len() == 1 + t,
                    tuple@[0] == item,
                    forall|m: int| 0 <= m < t ==> tuple@[1 + m] == src@[m],
                decreases src@.len() - t,
            {
                tuple.push(src[t]);
                t += 1;
            }
            proof {
                assert(src@ == restv[j as int]);
                assert(tuple@ =~= seq![item] + restv[j as int]);
            }
            let ghost pre = out@.map_values(|v: Vec<RowId>| v@);
            out.push(tuple);
            proof {
                assert(forall|m: int|
                    0 <= m < pre.len() ==> out@.map_values(|v: Vec<RowId>| v@)[m] == pre[m]);
                assert(out@.map_values(|v: Vec<RowId>| v@)[pre.len() as int] == seq![item]
                    + restv[j as int]);
            }
            j += 1;
        }
        proof {
            lemma_prepend_all_push(firstv.subrange(0, k as int), item, restv);
            assert(firstv.subrange(0, k as int).push(item) =~= firstv.subrange(0, k + 1));
            assert(out@.map_values(|v: Vec<RowId>| v@) =~= prepend_all(
                firstv.subrange(0, k + 1),
                restv,
            ));
        }
        k += 1;
    }
    proof {
        assert(firstv.subrange(0, firstv.len() as int) =~= firstv);
        assert(out@.map_values(|v: Vec<RowId>| v@) == prepend_all(firstv, restv));
        assert(spec_product(family.skip(i as int)) == prepend_all(
            firstv,
            spec_product(family.skip(i as int + 1)),
        ));
    }
    out
}

/// The Cartesian product of the given row lists.
pub fn cartesian_product(sets: &Vec<Vec<RowId>>) -> (r: Vec<Vec<RowId>>)
    ensures
        r@.map_values(|v: Vec<RowId>| v@) == spec_product(sets@.map_values(|v: Vec<RowId>| v@)),
{
    let r = product_from(sets, 0);
    proof {
        assert(sets@.map_values(|v: Vec<RowId>| v@).skip(0) =~= sets@.map_values(
            |v: Vec<RowId>| v@,
        ));
    }
    r
}

/// The slot of a FROM variable among the declared variables (first
/// occurrence).
pub open spec fn var_slot(vars: Seq<(Seq<char>, Seq<char>)>, v: Seq<char>) -> Option<int>
    decreases vars.len(),
{
    if vars.len() == 0 {
        None
    } else if vars[0].0 == v {
        Some(0)
    } else {
        match var_slot(vars.skip(1), v) {
            Some(i) => Some(i + 1),
            None => None,
        }
    }
}

/// The row lists that feed the product: one per FROM variable, empty
/// when its entity is not materialized.
pub open spec fn row_lists(iv: InstanceView, vars: Seq<(Seq<char>, Seq<char>)>) -> Seq<
    Seq<RowId>,
> {
    vars.map_values(
        |p: (Seq<char>, Seq<char>)|
            if iv.has_entity(p.1) {
                iv.entity(p.1).ids()
            } else {
                Seq::<RowId>::empty()
            },
    )
}

/// Resolving a dotted chain from a bound variable: follow the leading
/// foreign keys and read a final attribute, or, when the chain is all
/// foreign keys, return the reached row identifier as an integer.  `None`
/// stands for an evaluation error.
pub open spec fn spec_resolve(
    iv: InstanceView,
    sv: SchemaView,
    vars: Seq<(Seq<char>, Seq<char>)>,
    tuple: Seq<RowId>,
    var: Seq<char>,
    path: Seq<Seq<char>>,
) -> Option<ValueView> {
    match var_slot(vars, var) {
        None => None,
        Some(s) => if !(0 <= s < tuple.len()) {
            None
        } else {
            let entity = vars[s].1;
            let row = tuple[s];
            if path.len() == 0 {
                None
            } else if sv.has_edge(path.last()) && sv.edge_named(path.last()).is_attribute() {
                match spec_walk(iv, sv, entity, row, path.drop_last()) {
                    Some(er) => if iv.has_entity(er.0) {
                        match iv.entity(er.0).attr_value(er.1, path.last()) {
                            Some(v) => Some(v),
                            None => None,
                        }
                    } else {
                        None
                    },
                    None => None,
                }
            } else {
                match spec_walk(iv, sv, entity, row, path) {
                    Some(er) => Some(ValueView::Int(er.1 as i64)),
                    None => None,
                }
            }
        },
    }
}

/// One WHERE clause on one tuple; `None` stands for an evaluation error.
pub open spec fn spec_clause_pass(
    iv: InstanceView,
    sv: SchemaView,
    vars: Seq<(Seq<char>, Seq<char>)>,
    tuple: Seq<RowId>,
    c: WhereClauseView,
) -> Option<bool> {
    match c {
        WhereClauseView::Comparison { var, path, op, value } => {
            match spec_resolve(iv, sv, vars, tuple, var, path) {
                Some(v) => Some(spec_compare(v, op, value)),
                None => None,
            }
        },
        WhereClauseView::PathEqual { var1, path1, var2, path2 } => {
            match (spec_resolve(iv, sv, vars, tuple, var1, path1), spec_resolve(
                iv,
                sv,
                vars,
                tuple,
                var2,
                path2,
            )) {
                (Some(v1), Some(v2)) => Some(v1 == v2),
                _ => None,
            }
        },
    }
}

/// All WHERE clauses on one tuple, left to right, stopping at the first
/// clause that fails; `None` stands for an evaluation error.
pub open spec fn spec_clauses_pass(
    iv: InstanceView,
    sv: SchemaView,
    vars: Seq<(Seq<char>, Seq<char>)>,
    tuple: Seq<RowId>,
    cs: Seq<WhereClauseView>,
) -> Option<bool>
    decreases cs.len(),
{
    if cs.len() == 0 {
        Some(true)
    } else {
        match spec_clause_pass(iv, sv, vars, tuple, cs[0]) {
            None => None,
            Some(false) => Some(false),
            Some(true) => spec_clauses_pass(iv, sv, vars, tuple, cs.skip(1)),
        }
    }
}

/// Whether a tuple passes every clause of the block.
pub open spec fn tuple_passes(
    iv: InstanceView,
    sv: SchemaView,
    bv: QueryBlockView,
    tuple: Seq<RowId>,
) -> bool {
    spec_clauses_pass(iv, sv, bv.from_vars, tuple, bv.where_clauses) == Some(true)
}

/// How many tuples of the block's Cartesian product pass every clause.
pub open spec fn passing_count(iv: InstanceView, sv: SchemaView, bv: QueryBlockView) -> int {
    spec_product(row_lists(iv, bv.from_vars)).filter(
        |t: Seq<RowId>| tuple_passes(iv, sv, bv, t),
    ).len() as int
}

/// The attribute cells one tuple projects through the attribute
/// bindings, in binding order; `None` when some binding fails to
/// resolve.
pub open spec fn spec_attr_cells(
    iv: InstanceView,
    sv: SchemaView,
    vars: Seq<(Seq<char>, Seq<char>)>,
    tuple: Seq<RowId>,
    abs: Seq<(Seq<char>, AttributeBindingView)>,
) -> Option<Seq<(Seq<char>, ValueView)>>
    decreases abs.len(),
{
    if abs.len() == 0 {
        Some(Seq::empty())
    } else {
        match spec_resolve(iv, sv, vars, tuple, abs[0].1.from_var, abs[0].1.path.push(abs[0].1.attribute)) {
            None => None,
            Some(v) => match spec_attr_cells(iv, sv, vars, tuple, abs.skip(1)) {
                None => None,
                Some(rest) => Some(seq![(abs[0].0, v)] + rest),
            },
        }
    }
}

/// The foreign-key cells one tuple projects through the foreign-key
/// bindings, in binding order; `None` when some binding fails to
/// resolve.
pub open spec fn spec_fk_cells(
    iv: InstanceView,
    sv: SchemaView,
    vars: Seq<(Seq<char>, Seq<char>)>,
    tuple: Seq<RowId>,
    fbs: Seq<(Seq<char>, FkBindingView)>,
) -> Option<Seq<(Seq<char>, RowId)>>
    decreases fbs.len(),
{
    if fbs.len() == 0 {
        Some(Seq::empty())
    } else {
        match var_slot(vars, fbs[0].1.from_var) {
            None => None,
            Some(s) => if !(0 <= s < tuple.len()) {
                None
            } else {
                match spec_walk(iv, sv, vars[s].1, tuple[s], fbs[0].1.path) {
                    None => None,
                    Some(er) => match spec_fk_cells(iv, sv, vars, tuple, fbs.skip(1)) {
                        None => None,
                        Some(rest) => Some(seq![(fbs[0].0, er.1)] + rest),
                    },
                }
            },
        }
    }
}

/// Whether evaluating a block fails: some tuple of the product has a
/// WHERE clause that cannot be resolved, some passing tuple has a
/// binding that cannot, or the row-identifier space would be exhausted.
pub open spec fn block_eval_fails(iv: InstanceView, sv: SchemaView, bv: QueryBlockView) -> bool {
    let tuples = spec_product(row_lists(iv, bv.from_vars));
    ||| exists|k: int|
        0 <= k < tuples.len() && spec_clauses_pass(
            iv,
            sv,
            bv.from_vars,
            #[trigger] tuples[k],
            bv.where_clauses,
        ) is None
    ||| exists|k: int|
        0 <= k < tuples.len() && tuple_passes(iv, sv, bv, #[trigger] tuples[k]) && (spec_attr_cells(
            iv,
            sv,
            bv.from_vars,
            tuples[k],
            bv.attribute_bindings,
        ) is None || spec_fk_cells(iv, sv, bv.from_vars, tuples[k], bv.fk_bindings) is None)
    ||| passing_count(iv, sv, bv) >= RowId::MAX
}

/// The rows a block's evaluation builds: the passing tuples of the
/// product in order, each projected through the bindings, under the
/// identifiers 1, 2, ...
pub open spec fn block_rows_ok(
    iv: InstanceView,
    sv: SchemaView,
    bv: QueryBlockView,
    ed: EntityDataView,
) -> bool {
    let passing = spec_product(row_lists(iv, bv.from_vars)).filter(
        |t: Seq<RowId>| tuple_passes(iv, sv, bv, t),
    );
    &&& ed.rows.len() == passing.len()
    &&& ed.next_id == passing.len() + 1
    &&& forall|k: int|
        0 <= k < passing.len() ==> {
            &&& (#[trigger] ed.rows[k]).id == k + 1
            &&& Some(ed.rows[k].attrs) == spec_attr_cells(
                iv,
                sv,
                bv.from_vars,
                passing[k],
                bv.attribute_bindings,
            )
            &&& Some(ed.rows[k].fks) == spec_fk_cells(
                iv,
                sv,
                bv.from_vars,
                passing[k],
                bv.fk_bindings,
            )
        }
}

/// The evaluator's result: the projected instance and its statistics.
#[derive(Debug, Clone)]
pub struct EvalResult {
    pub instance: Instance,
    pub rows_scanned: usize,
    pub rows_returned: usize,
    pub eval_time_us: u128,
}

/// Relies on std::time::SystemTime::now for the evaluator's informational
/// timing; nothing is promised of a clock reading.
#[verifier::external_body]
fn clock_micros() -> u128 {
    match std::time::SystemTime::now().duration_since(std::time::UNIX_EPOCH) {
        Ok(d) => d.as_micros(),
        Err(_) => 0,
    }
}

/// `var_slot` returns the first matching slot, in bounds, and `None`
/// exactly when no slot matches.
proof fn lemma_var_slot_correct(vars: Seq<(Seq<char>, Seq<char>)>, v: Seq<char>)
    ensures
        match var_slot(vars, v) {
            Some(s) => 0 <= s < vars.len() && vars[s].0 == v && forall|j: int|
                0 <= j < s ==> vars[j].0 != v,
            None => forall|j: int| 0 <= j < vars.len() ==> vars[j].0 != v,
        },
    decreases vars.len(),
{
    if vars.len() > 0 {
        if vars[0].0 == v {
        } else {
            lemma_var_slot_correct(vars.skip(1), v);
            assert(forall|j: int| 1 <= j < vars.len() ==> vars.skip(1)[j - 1] == vars[j]);
        }
    }
}

/// Finds the slot of a FROM variable.
fn find_var_slot(
    vars: &Vec<(std::string::String, std::string::String)>,
    var: &str,
) -> (r: Option<usize>)
    ensures
        ({
            let vv = vars@.map_values(
                |p: (std::string::String, std::string::String)| (p.0@, p.1@),
            );
            match r {
                Some(i) => i < vars@.len() && vv[i as int].0 == var@ && var_slot(vv, var@)
                    == Some(i as int),
                None => var_slot(vv, var@) is None,
            }
        }),
{
    let ghost vv = vars@.map_values(
        |p: (std::string::String, std::string::String)| (p.0@, p.1@),
    );
    let mut i: usize = 0;
    while i < vars.len()
        invariant
            vv == vars@.map_values(
                |p: (std::string::String, std::string::String)| (p.0@, p.1@),
            ),
            0 <= i <= vv.len(),
            forall|j: int| 0 <= j < i ==> (#[trigger] vv[j]).0 != var@,
        decreases vv.len() - i,
    {
        if str_eq(vars[i].0.as_str(), var) {
            proof {
                assert(vv[i as int].0 == var@);
                lemma_var_slot_correct(vv, var@);
                match var_slot(vv, var@) {
                    Some(s) => {
                        assert(!(s < i) && !(i < s));
                    },
                    None => {
                        assert(false);
                    },
                }
            }
            return Some(i);
        }
        i += 1;
    }
    proof {
        lemma_var_slot_correct(vv, var@);
        if var_slot(vv, var@) is Some {
            let s = var_slot(vv, var@)->Some_0;
            assert(vv[s].0 != var@);
        }
    }
    None
}

/// Resolves a dotted chain from a bound variable to a scalar.
fn resolve_value(
    var: &str,
    path: &Vec<std::string::String>,
    vars: &Vec<(std::string::String, std::string::String)>,
    tuple: &Vec<RowId>,
    source: &Instance,
    schema: &Schema,
) -> (r: Result<Value, std::string::String>)
    requires
        source@.wf(),
        schema@.wf(),
    ensures
        ({
            let vv = vars@.map_values(
                |p: (std::string::String, std::string::String)| (p.0@, p.1@),
            );
            match r {
                Ok(v) => spec_resolve(source@, schema@, vv, tuple@, var@, names_view(path@))
                    == Some(v@),
                Err(_) => spec_resolve(source@, schema@, vv, tuple@, var@, names_view(path@))
                    is None,
            }
        }),
{
    let ghost vv = vars@.map_values(
        |p: (std::string::String, std::string::String)| (p.0@, p.1@),
    );
    let s = match find_var_slot(vars, var) {
        Some(s) => s,
        None => {
            return Err(std::string::String::from_str("unknown FROM variable"));
        },
    };
    if s >= tuple.len() {
        return Err(std::string::String::from_str("tuple does not cover the variable"));
    }
    let entity = &vars[s].1;
    let row = tuple[s];
    proof {
        assert(vv.len() == vars@.len());
        assert(vv[s as int].1 == entity@);
    }
    let n = path.len();
    if n == 0 {
        return Err(std::string::String::from_str("empty path"));
    }
    let mut attr_mode = false;
    match schema.get_edge(path[n - 1].as_str()) {
        Some(e) => {
            match e {
                Edge::Attribute { .. } => {
                    attr_mode = true;
                },
                _ => {},
            }
        },
        None => {},
    }
    proof {
        assert(names_view(path@).last() == names_view(path@)[n - 1]);
    }
    if attr_mode {
        let mut prefix: Vec<std::string::String> = Vec::new();
        let mut i: usize = 0;
        while i < n - 1
            invariant
                n == path@.len(),
                n > 0,
                0 <= i <= n - 1,
                prefix@.len() == i,
                forall|j: int|
                    0 <= j < i ==> names_view(prefix@)[j] == #[trigger] names_view(path@)[j],
            decreases n - 1 - i,
        {
            let ghost pre = prefix@;
            prefix.push(path[i].clone());
            proof {
                assert(prefix@.last()@ == path@[i as int]@);
                assert(forall|j: int|
                    0 <= j < i ==> names_view(prefix@)[j] == names_view(pre)[j]);
            }
            i += 1;
        }
        proof {
            assert(names_view(prefix@) =~= names_view(path@).drop_last());
        }
        match source.walk_fks(entity.as_str(), row, &prefix, schema) {
            Some(er) => {
                match source.entity_data(er.0.as_str()) {
                    Some(ed) => {
                        match ed.get_attr(er.1, path[n - 1].as_str()) {
                            Some(v) => Ok(v),
                            None => Err(
                                std::string::String::from_str("attribute not found on the row"),
                            ),
                        }
                    },
                    None => Err(std::string::String::from_str("entity not materialized")),
                }
            },
            None => Err(std::string::String::from_str("a foreign-key hop is missing")),
        }
    } else {
        match source.walk_fks(entity.as_str(), row, path, schema) {
            Some(er) => Ok(Value::Integer(#[verifier::truncate] (er.1 as i64))),
            None => Err(std::string::String::from_str("a foreign-key hop is missing")),
        }
    }
}

/// Evaluates every WHERE clause on one tuple, stopping at the first that
/// fails.
fn eval_where_clauses(
    clauses: &Vec<WhereClause>,
    vars: &Vec<(std::string::String, std::string::String)>,
    tuple: &Vec<RowId>,
    source: &Instance,
    schema: &Schema,
) -> (r: Result<bool, std::string::String>)
    requires
        source@.wf(),
        schema@.wf(),
    ensures
        ({
            let vv = vars@.map_values(
                |p: (std::string::String, std::string::String)| (p.0@, p.1@),
            );
            let cs = clauses@.map_values(|c: WhereClause| c@);
            match r {
                Ok(b) => spec_clauses_pass(source@, schema@, vv, tuple@, cs) == Some(b),
                Err(_) => spec_clauses_pass(source@, schema@, vv, tuple@, cs) is None,
            }
        }),
{
    let ghost vv = vars@.map_values(
        |p: (std::string::String, std::string::String)| (p.0@, p.1@),
    );
    let ghost cs = clauses@.map_values(|c: WhereClause| c@);
    let mut i: usize = 0;
    proof {
        assert(cs.skip(0) =~= cs);
    }
    while i < clauses.len()
        invariant
            source@.wf(),
            schema@.wf(),
            vv == vars@.map_values(
                |p: (std::string::String, std::string::String)| (p.0@, p.1@),
            ),
            cs == clauses@.map_values(|c: WhereClause| c@),
            0 <= i <= cs.len(),
            spec_clauses_pass(source@, schema@, vv, tuple@, cs) == spec_clauses_pass(
                source@,
                schema@,
                vv,
                tuple@,
                cs.skip(i as int),
            ),
        decreases cs.len() - i,
    {
        let ghost rest = cs.skip(i as int);
        proof {
            assert(rest[0] == cs[i as int]);
            assert(rest.skip(1) =~= cs.skip(i as int + 1));
        }
        match &clauses[i] {
            WhereClause::Comparison { var, path, op, value } => {
                let resolved = match resolve_value(var.as_str(), path, vars, tuple, source, schema) {
                    Ok(v) => v,
                    Err(e) => {
                        return Err(e);
                    },
                };
                if !compare_values(&resolved, op, value) {
                    return Ok(false);
                }
            },
            WhereClause::PathEqual { var1, path1, var2, path2 } => {
                let v1 = match resolve_value(var1.as_str(), path1, vars, tuple, source, schema) {
                    Ok(v) => v,
                    Err(e) => {
                        return Err(e);
                    },
                };
                let v2 = match resolve_value(var2.as_str(), path2, vars, tuple, source, schema) {
                    Ok(v) => v,
                    Err(e) => {
                        return Err(e);
                    },
                };
                if !(v1 == v2) {
                    return Ok(false);
                }
            },
        }
        i += 1;
    }
    proof {
        assert(cs.skip(i as int) =~= Seq::<WhereClauseView>::empty());
    }
    Ok(true)
}

/// Filtering a family extended by one tuple.
proof fn lemma_filter_tuple_push(s: Seq<Seq<RowId>>, x: Seq<RowId>, p: spec_fn(Seq<RowId>) -> bool)
    ensures
        p(x) ==> s.push(x).filter(p) == s.filter(p).push(x),
        !p(x) ==> s.push(x).filter(p) == s.filter(p),
{
    reveal_with_fuel(Seq::filter, 2);
    assert(s.push(x).drop_last() =~= s);
    assert(s.push(x).last() == x);
}

/// A filtered prefix never holds more than the filtered whole.
proof fn lemma_filter_prefix_le(s: Seq<Seq<RowId>>, m: int, p: spec_fn(Seq<RowId>) -> bool)
    requires
        0 <= m <= s.len(),
    ensures
        s.subrange(0, m).filter(p).len() <= s.filter(p).len(),
    decreases s.len() - m,
{
    if m < s.len() {
        lemma_filter_tuple_push(s.subrange(0, m), s[m], p);
        assert(s.subrange(0, m + 1) =~= s.subrange(0, m).push(s[m]));
        lemma_filter_prefix_le(s, m + 1, p);
    } else {
        assert(s.subrange(0, m) =~= s);
    }
}

/// Evaluates one block: enumerates the product of the FROM variables'
/// rows, filters through the WHERE clauses and projects the passing
/// tuples.  On success, the tuples scanned equal the whole product, the
/// rows returned equal exactly the number of passing tuples, and the
/// rows built are exactly the passing tuples' projections; failure comes
/// exactly when a clause or a binding fails to resolve on some tuple, or
/// the identifier space runs out.
fn eval_block(block: &QueryBlock, source: &Instance, schema: &Schema) -> (r: Result<
    (EntityData, usize, usize),
    std::string::String,
>)
    requires
        source@.wf(),
        schema@.wf(),
    ensures
        match r {
            Ok(t) => {
                &&& t.1 == spec_product(row_lists(source@, block@.from_vars)).len()
                &&& t.2 as int == passing_count(source@, schema@, block@)
                &&& t.0@.rows.len() == t.2
                &&& t.0@.wf()
                &&& block_rows_ok(source@, schema@, block@, t.0@)
                &&& !block_eval_fails(source@, schema@, block@)
            },
            Err(_) => block_eval_fails(source@, schema@, block@),
        },
{
    let ghost iv = source@;
    let ghost sv = schema@;
    let ghost bv = block@;
    let mut var_rows: Vec<Vec<RowId>> = Vec::new();
    let mut i: usize = 0;
    while i < block.from_vars.len()
        invariant
            source@.wf(),
            iv == source@,
            0 <= i <= block.from_vars@.len(),
            var_rows@.len() == i,
            forall|j: int|
                0 <= j < i ==> var_rows@.map_values(|v: Vec<RowId>| v@)[j] == #[trigger] row_lists(
                    iv,
                    block@.from_vars,
                )[j],
        decreases block.from_vars@.len() - i,
    {
        let entity = &block.from_vars[i].1;
        let ids = match source.entity_data(entity.as_str()) {
            Some(ed) => ed.row_ids(),
            None => Vec::new(),
        };
        proof {
            assert(block@.from_vars[i as int].1 == entity@);
        }
        var_rows.push(ids);
        i += 1;
    }
    proof {
        assert(var_rows@.map_values(|v: Vec<RowId>| v@) =~= row_lists(iv, bv.from_vars));
    }
    let tuples = cartesian_product(&var_rows);
    let ghost tv = tuples@.map_values(|v: Vec<RowId>| v@);
    proof {
        assert(tv == spec_product(row_lists(iv, bv.from_vars)));
    }
    let mut result = EntityData::new();
    let mut scanned: usize = 0;
    let mut ti: usize = 0;
    proof {
        assert(tv.subrange(0, 0) =~= Seq::<Seq<RowId>>::empty());
        assert(tv.subrange(0, 0).filter(|t: Seq<RowId>| tuple_passes(iv, sv, bv, t)).len() == 0);
    }
    while ti < tuples.len()
        invariant
            source@.wf(),
            schema@.wf(),
            iv == source@,
            sv == schema@,
            bv == block@,
            tv == tuples@.map_values(|v: Vec<RowId>| v@),
            tv == spec_product(row_lists(iv, bv.from_vars)),
            0 <= ti <= tv.len(),
            scanned == ti,
            result@.wf(),
            result@.next_id == result@.rows.len() + 1,
            result@.rows.len() as int == tv.subrange(0, ti as int).filter(
                |t: Seq<RowId>| tuple_passes(iv, sv, bv, t),
            ).len(),
            forall|k: int|
                0 <= k < ti ==> spec_clauses_pass(
                    iv,
                    sv,
                    bv.from_vars,
                    #[trigger] tv[k],
                    bv.where_clauses,
                ) is Some,
            forall|k: int|
                0 <= k < ti && tuple_passes(iv, sv, bv, #[trigger] tv[k]) ==> spec_attr_cells(
                    iv,
                    sv,
                    bv.from_vars,
                    tv[k],
                    bv.attribute_bindings,
                ) is Some && spec_fk_cells(iv, sv, bv.from_vars, tv[k], bv.fk_bindings) is Some,
            forall|k: int|
                0 <= k < result@.rows.len() ==> {
                    let passing = tv.subrange(0, ti as int).filter(
                        |t: Seq<RowId>| tuple_passes(iv, sv, bv, t),
                    );
                    &&& (#[trigger] result@.rows[k]).id == k + 1
                    &&& Some(result@.rows[k].attrs) == spec_attr_cells(
                        iv,
                        sv,
                        bv.from_vars,
                        passing[k],
                        bv.attribute_bindings,
                    )
                    &&& Some(result@.rows[k].fks) == spec_fk_cells(
                        iv,
                        sv,
                        bv.from_vars,
                        passing[k],
                        bv.fk_bindings,
                    )
                },
        decreases tv.len() - ti,
    {
        let tuple = &tuples[ti];
        proof {
            assert(tuple@ == tv[ti as int]);
        }
        let passes = match eval_where_clauses(
            &block.where_clauses,
            &block.from_vars,
            tuple,
            source,
            schema,
        ) {
            Ok(b) => b,
            Err(e) => {
                proof {
                    assert(spec_clauses_pass(iv, sv, bv.from_vars, tv[ti as int], bv.where_clauses)
                        is None);
                    assert(block_eval_fails(iv, sv, bv));
                }
                return Err(e);
            },
        };
        proof {
            assert(passes == tuple_passes(iv, sv, bv, tv[ti as int]));
        }
        if passes {
            if result.next_id() == RowId::MAX {
                proof {
                    let p = |t: Seq<RowId>| tuple_passes(iv, sv, bv, t);
                    assert(tv.subrange(0, ti + 1) =~= tv.subrange(0, ti as int).push(
                        tv[ti as int],
                    ));
                    lemma_filter_tuple_push(tv.subrange(0, ti as int), tv[ti as int], p);
                    lemma_filter_prefix_le(tv, ti + 1, p);
                    assert(passing_count(iv, sv, bv) >= RowId::MAX);
                    assert(block_eval_fails(iv, sv, bv));
                }
                return Err(std::string::String::from_str("row identifier space exhausted"));
            }
            let mut attrs: Vec<(std::string::String, Value)> = Vec::new();
            let mut ai: usize = 0;
            proof {
                assert(bv.attribute_bindings.skip(0) =~= bv.attribute_bindings);
                assert(attrs_view(attrs@) =~= Seq::<(Seq<char>, ValueView)>::empty());
            }
            while ai < block.attribute_bindings.len()
                invariant
                    source@.wf(),
                    schema@.wf(),
                    iv == source@,
                    sv == schema@,
                    bv == block@,
                    0 <= ti < tv.len(),
                    tv == spec_product(row_lists(iv, bv.from_vars)),
                    tuple@ == tv[ti as int],
                    tuple_passes(iv, sv, bv, tv[ti as int]),
                    0 <= ai <= block.attribute_bindings@.len(),
                    bv.attribute_bindings.len() == block.attribute_bindings@.len(),
                    match spec_attr_cells(
                        iv,
                        sv,
                        bv.from_vars,
                        tuple@,
                        bv.attribute_bindings.skip(ai as int),
                    ) {
                        Some(rest) => spec_attr_cells(
                            iv,
                            sv,
                            bv.from_vars,
                            tuple@,
                            bv.attribute_bindings,
                        ) == Some(attrs_view(attrs@) + rest),
                        None => spec_attr_cells(
                            iv,
                            sv,
                            bv.from_vars,
                            tuple@,
                            bv.attribute_bindings,
                        ) is None,
                    },
                decreases block.attribute_bindings@.len() - ai,
            {
                let ghost restb = bv.attribute_bindings.skip(ai as int);
                proof {
                    assert(restb[0] == bv.attribute_bindings[ai as int]);
                    assert(restb.skip(1) =~= bv.attribute_bindings.skip(ai as int + 1));
                }
                let rname = &block.attribute_bindings[ai].0;
                let ab = &block.attribute_bindings[ai].1;
                proof {
                    assert(bv.attribute_bindings[ai as int] == (rname@, ab@));
                }
                let mut full_path = crate::text::copy_strings(&ab.path);
                full_path.push(ab.attribute.clone());
                proof {
                    assert(names_view(full_path@) =~= ab@.path.push(ab@.attribute));
                }
                let val = match resolve_value(
                    ab.from_var.as_str(),
                    &full_path,
                    &block.from_vars,
                    tuple,
                    source,
                    schema,
                ) {
                    Ok(v) => v,
                    Err(e) => {
                        proof {
                            assert(spec_attr_cells(iv, sv, bv.from_vars, tuple@, restb) is None);
                            assert(spec_attr_cells(
                                iv,
                                sv,
                                bv.from_vars,
                                tv[ti as int],
                                bv.attribute_bindings,
                            ) is None);
                            assert(block_eval_fails(iv, sv, bv));
                        }
                        return Err(e);
                    },
                };
                let ghost attrspre = attrs_view(attrs@);
                attrs.push((rname.clone(), val));
                proof {
                    assert(attrs_view(attrs@) =~= attrspre.push((rname@, val@)));
                    assert(seq![(rname@, val@)] + Seq::<(Seq<char>, ValueView)>::empty()
                        =~= seq![(rname@, val@)]);
                    if spec_attr_cells(iv, sv, bv.from_vars, tuple@, restb.skip(1)) is Some {
                        let rest2 = spec_attr_cells(
                            iv,
                            sv,
                            bv.from_vars,
                            tuple@,
                            restb.skip(1),
                        )->Some_0;
                        assert(spec_attr_cells(iv, sv, bv.from_vars, tuple@, restb) == Some(
                            seq![(rname@, val@)] + rest2,
                        ));
                        assert(attrspre + (seq![(rname@, val@)] + rest2) =~= attrs_view(attrs@)
                            + rest2);
                    }
                }
                ai += 1;
            }
            proof {
                assert(bv.attribute_bindings.skip(ai as int) =~= Seq::<
                    (Seq<char>, AttributeBindingView),
                >::empty());
                assert(attrs_view(attrs@) + Seq::<(Seq<char>, ValueView)>::empty() =~= attrs_view(
                    attrs@,
                ));
                assert(spec_attr_cells(iv, sv, bv.from_vars, tuple@, bv.attribute_bindings)
                    == Some(attrs_view(attrs@)));
            }
            let mut fks: Vec<(std::string::String, RowId)> = Vec::new();
            let mut fi: usize = 0;
            proof {
                assert(bv.fk_bindings.skip(0) =~= bv.fk_bindings);
                assert(fks_view(fks@) =~= Seq::<(Seq<char>, RowId)>::empty());
            }
            while fi < block.fk_bindings.len()
                invariant
                    source@.wf(),
                    schema@.wf(),
                    iv == source@,
                    sv == schema@,
                    bv == block@,
                    0 <= ti < tv.len(),
                    tv == spec_product(row_lists(iv, bv.from_vars)),
                    tuple@ == tv[ti as int],
                    tuple_passes(iv, sv, bv, tv[ti as int]),
                    0 <= fi <= block.fk_bindings@.len(),
                    bv.fk_bindings.len() == block.fk_bindings@.len(),
                    match spec_fk_cells(iv, sv, bv.from_vars, tuple@, bv.fk_bindings.skip(
                        fi as int,
                    )) {
                        Some(rest) => spec_fk_cells(iv, sv, bv.from_vars, tuple@, bv.fk_bindings)
                            == Some(fks_view(fks@) + rest),
                        None => spec_fk_cells(iv, sv, bv.from_vars, tuple@, bv.fk_bindings)
                            is None,
                    },
                decreases block.fk_bindings@.len() - fi,
            {
                let ghost restb = bv.fk_bindings.skip(fi as int);
                proof {
                    assert(restb[0] == bv.fk_bindings[fi as int]);
                    assert(restb.skip(1) =~= bv.fk_bindings.skip(fi as int + 1));
                }
                let rname = &block.fk_bindings[fi].0;
                let fb = &block.fk_bindings[fi].1;
                proof {
                    assert(bv.fk_bindings[fi as int] == (rname@, fb@));
                }
                let s = match find_var_slot(&block.from_vars, fb.from_var.as_str()) {
                    Some(s) => s,
                    None => {
                        proof {
                            assert(spec_fk_cells(iv, sv, bv.from_vars, tuple@, restb) is None);
                            assert(block_eval_fails(iv, sv, bv));
                        }
                        return Err(std::string::String::from_str("unknown FROM variable"));
                    },
                };
                if s >= tuple.len() {
                    proof {
                        assert(spec_fk_cells(iv, sv, bv.from_vars, tuple@, restb) is None);
                        assert(block_eval_fails(iv, sv, bv));
                    }
                    return Err(
                        std::string::String::from_str("tuple does not cover the variable"),
                    );
                }
                let target = match source.walk_fks(
                    block.from_vars[s].1.as_str(),
                    tuple[s],
                    &fb.path,
                    schema,
                ) {
                    Some(er) => er.1,
                    None => {
                        proof {
                            assert(bv.from_vars[s as int].1 == block.from_vars@[s as int].1@);
                            assert(spec_fk_cells(iv, sv, bv.from_vars, tuple@, restb) is None);
                            assert(block_eval_fails(iv, sv, bv));
                        }
                        return Err(std::string::String::from_str("a foreign-key hop is missing"));
                    },
                };
                let ghost fkspre = fks_view(fks@);
                fks.push((rname.clone(), target));
                proof {
                    assert(fks_view(fks@) =~= fkspre.push((rname@, target)));
                    if spec_fk_cells(iv, sv, bv.from_vars, tuple@, restb.skip(1)) is Some {
                        let rest2 = spec_fk_cells(
                            iv,
                            sv,
                            bv.from_vars,
                            tuple@,
                            restb.skip(1),
                        )->Some_0;
                        assert(spec_fk_cells(iv, sv, bv.from_vars, tuple@, restb) == Some(
                            seq![(rname@, target)] + rest2,
                        ));
                        assert(fkspre + (seq![(rname@, target)] + rest2) =~= fks_view(fks@)
                            + rest2);
                    }
                }
                fi += 1;
            }
            proof {
                assert(bv.fk_bindings.skip(fi as int) =~= Seq::<(Seq<char>, FkBindingView)>::empty());
                assert(fks_view(fks@) + Seq::<(Seq<char>, RowId)>::empty() =~= fks_view(fks@));
                assert(spec_fk_cells(iv, sv, bv.from_vars, tuple@, bv.fk_bindings) == Some(
                    fks_view(fks@),
                ));
            }
            let ghost attrsfinal = attrs_view(attrs@);
            let ghost fksfinal = fks_view(fks@);
            let ghost rowspre = result@.rows;
            result.insert(attrs, fks);
            proof {
                let p = |t: Seq<RowId>| tuple_passes(iv, sv, bv, t);
                let passpre = tv.subrange(0, ti as int).filter(p);
                assert(result@.rows =~= rowspre.push(
                    (RowView { id: (rowspre.len() + 1) as RowId, attrs: attrsfinal, fks: fksfinal }),
                ));
                lemma_filter_tuple_push(tv.subrange(0, ti as int), tv[ti as int], p);
                assert(tv.subrange(0, ti + 1) =~= tv.subrange(0, ti as int).push(tv[ti as int]));
                assert(tv.subrange(0, ti + 1).filter(p) == passpre.push(tv[ti as int]));
            }
        }
        proof {
            assert(tv.subrange(0, ti + 1) =~= tv.subrange(0, ti as int).push(tv[ti as int]));
            lemma_filter_tuple_push(
                tv.subrange(0, ti as int),
                tv[ti as int],
                |t: Seq<RowId>| tuple_passes(iv, sv, bv, t),
            );
        }
        scanned += 1;
        ti += 1;
    }
    proof {
        assert(tv.subrange(0, tv.len() as int) =~= tv);
        assert(result@.rows.len() < RowId::MAX);
        assert(block_rows_ok(iv, sv, bv, result@));
        assert(!block_eval_fails(iv, sv, bv));
    }
    let returned = result.len();
    Ok((result, scanned, returned))
}

/// The scanned totals over a prefix of the blocks.
pub open spec fn scanned_total(iv: InstanceView, blocks: Seq<QueryBlockView>, upto: int) -> int
    decreases upto,
{
    if upto <= 0 {
        0
    } else {
        scanned_total(iv, blocks, upto - 1) + spec_product(
            row_lists(iv, blocks[upto - 1].from_vars),
        ).len()
    }
}

/// The returned totals over a prefix of the blocks.
pub open spec fn returned_total(
    iv: InstanceView,
    sv: SchemaView,
    blocks: Seq<QueryBlockView>,
    upto: int,
) -> int
    decreases upto,
{
    if upto <= 0 {
        0
    } else {
        returned_total(iv, sv, blocks, upto - 1) + passing_count(iv, sv, blocks[upto - 1])
    }
}

/// Evaluates a query block by block.  On success the result holds, for
/// every block in order, an entity table under the block's target name
/// whose row count is exactly the number of product tuples that pass the
/// block's WHERE clauses; the statistics are the corresponding totals.
pub fn eval_query(query: &CqlQuery, source: &Instance, schema: &Schema) -> (r: Result<
    EvalResult,
    std::string::String,
>)
    requires
        source@.wf(),
        schema@.wf(),
    ensures
        ({
            let blocks = query.blocks@.map_values(|b: QueryBlock| b@);
            r is Err <==> (exists|j: int|
                0 <= j < blocks.len() && block_eval_fails(source@, schema@, #[trigger] blocks[j]))
                || (exists|j: int|
                1 <= j <= blocks.len() && (#[trigger] scanned_total(source@, blocks, j)
                    > usize::MAX || returned_total(source@, schema@, blocks, j) > usize::MAX))
        }),
        match r {
            Ok(res) => {
                let blocks = query.blocks@.map_values(|b: QueryBlock| b@);
                &&& res.instance@.data.len() == blocks.len()
                &&& forall|i: int|
                    0 <= i < blocks.len() ==> (#[trigger] res.instance@.data[i]).0 == blocks[
                        i
                    ].target_entity && res.instance@.data[i].1.rows.len() as int == passing_count(
                        source@,
                        schema@,
                        blocks[i],
                    ) && block_rows_ok(source@, schema@, blocks[i], res.instance@.data[i].1)
                &&& res.rows_scanned as int == scanned_total(source@, blocks, blocks.len() as int)
                &&& res.rows_returned as int == returned_total(
                    source@,
                    schema@,
                    blocks,
                    blocks.len() as int,
                )
            },
            Err(_) => true,
        },
{
    let ghost iv = source@;
    let ghost sv = schema@;
    let ghost blocks = query.blocks@.map_values(|b: QueryBlock| b@);
    let start = clock_micros();
    let mut name = std::string::String::new();
    name.append(query.name.as_str());
    name.append("_result");
    let mut data: Vec<(std::string::String, EntityData)> = Vec::new();
    let mut total_scanned: usize = 0;
    let mut total_returned: usize = 0;
    let mut i: usize = 0;
    while i < query.blocks.len()
        invariant
            source@.wf(),
            schema@.wf(),
            iv == source@,
            sv == schema@,
            blocks == query.blocks@.map_values(|b: QueryBlock| b@),
            0 <= i <= blocks.len(),
            data@.len() == i,
            forall|j: int|
                0 <= j < i ==> (#[trigger] data@[j]).0@ == blocks[j].target_entity && data@[
                    j
                ].1@.rows.len() as int == passing_count(iv, sv, blocks[j]) && block_rows_ok(
                    iv,
                    sv,
                    blocks[j],
                    data@[j].1@,
                ),
            forall|j: int| 0 <= j < i ==> !block_eval_fails(iv, sv, #[trigger] blocks[j]),
            forall|j: int|
                0 <= j <= i ==> #[trigger] scanned_total(iv, blocks, j) <= usize::MAX
                    && returned_total(iv, sv, blocks, j) <= usize::MAX,
            total_scanned as int == scanned_total(iv, blocks, i as int),
            total_returned as int == returned_total(iv, sv, blocks, i as int),
        decreases blocks.len() - i,
    {
        let block = &query.blocks[i];
        proof {
            assert(blocks[i as int] == block@);
        }
        let outcome = match eval_block(block, source, schema) {
            Ok(t) => t,
            Err(e) => {
                proof {
                    assert(block_eval_fails(iv, sv, blocks[i as int]));
                }
                return Err(e);
            },
        };
        let (ed, scanned, returned) = outcome;
        if total_scanned > usize::MAX - scanned {
            proof {
                assert(scanned_total(iv, blocks, i as int + 1) == scanned_total(
                    iv,
                    blocks,
                    i as int,
                ) + spec_product(row_lists(iv, blocks[i as int].from_vars)).len());
                assert(scanned_total(iv, blocks, i as int + 1) > usize::MAX);
            }
            return Err(std::string::String::from_str("scan counter overflow"));
        }
        if total_returned > usize::MAX - returned {
            proof {
                assert(returned_total(iv, sv, blocks, i as int + 1) == returned_total(
                    iv,
                    sv,
                    blocks,
                    i as int,
                ) + passing_count(iv, sv, blocks[i as int]));
                assert(returned_total(iv, sv, blocks, i as int + 1) > usize::MAX);
            }
            return Err(std::string::String::from_str("return counter overflow"));
        }
        total_scanned += scanned;
        total_returned += returned;
        data.push((block.target_entity.clone(), ed));
        i += 1;
    }
    let instance = Instance {
        name,
        schema_name: query.result_schema.name.clone(),
        data,
    };
    let end = clock_micros();
    let elapsed: u128 = if end >= start {
        end - start
    } else {
        0
    };
    proof {
        assert(instance@.data.len() == blocks.len());
        assert forall|j: int| 0 <= j < blocks.len() implies (#[trigger] instance@.data[j]).0
            == blocks[j].target_entity && instance@.data[j].1.rows.len() as int == passing_count(
            iv,
            sv,
            blocks[j],
        ) && block_rows_ok(iv, sv, blocks[j], instance@.data[j].1) by {
            assert(instance@.data[j] == (data@[j].0@, data@[j].1@));
        }
    }
    Ok(
        EvalResult {
            instance,
            rows_scanned: total_scanned,
            rows_returned: total_returned,
            eval_time_us: elapsed,
        },
    )
}

/// The blocks of a query after optimization against a schema's rules.
pub open spec fn optimized_blocks(query: CqlQuery, sv: SchemaView) -> Seq<QueryBlockView> {
    query.blocks@.map_values(
        |b: QueryBlock|
            crate::query::spec_opt_block(
                crate::optimize::schema_rules_core(sv.equations),
                b@,
            ),
    )
}

/// Optimizes the query through the schema's path equations, then
/// evaluates it: the outcome is exactly that of evaluating the
/// rewritten blocks, block for block.
pub fn eval_query_optimized(query: &CqlQuery, source: &Instance, schema: &Schema) -> (r: Result<
    EvalResult,
    std::string::String,
>)
    requires
        source@.wf(),
        schema@.wf(),
    ensures
        ({
            let oblocks = optimized_blocks(*query, schema@);
            r is Err <==> (exists|j: int|
                0 <= j < oblocks.len() && block_eval_fails(
                    source@,
                    schema@,
                    #[trigger] oblocks[j],
                )) || (exists|j: int|
                1 <= j <= oblocks.len() && (#[trigger] scanned_total(source@, oblocks, j)
                    > usize::MAX || returned_total(source@, schema@, oblocks, j) > usize::MAX))
        }),
        match r {
            Ok(res) => {
                let oblocks = optimized_blocks(*query, schema@);
                &&& res.instance@.data.len() == query.blocks@.len()
                &&& forall|i: int|
                    0 <= i < oblocks.len() ==> (#[trigger] res.instance@.data[i]).0 == oblocks[
                        i
                    ].target_entity && res.instance@.data[i].1.rows.len() as int == passing_count(
                        source@,
                        schema@,
                        oblocks[i],
                    ) && block_rows_ok(source@, schema@, oblocks[i], res.instance@.data[i].1)
                &&& res.rows_scanned as int == scanned_total(
                    source@,
                    oblocks,
                    oblocks.len() as int,
                )
                &&& res.rows_returned as int == returned_total(
                    source@,
                    schema@,
                    oblocks,
                    oblocks.len() as int,
                )
            },
            Err(_) => true,
        },
{
    let optimized = query.optimize(schema);
    proof {
        assert(optimized.blocks@.map_values(|b: QueryBlock| b@) =~= optimized_blocks(
            *query,
            schema@,
        ));
    }
    let r = eval_query(&optimized, source, schema);
    r
}


} // verus!
