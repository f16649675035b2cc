//! Aggregations over an evaluation result: row counts, integer totals,
//! extremes under a three-way value ordering, and sorted distinct values.

use vstd::prelude::*;

use crate::eval::EvalResult;
use crate::instance::{attr_lookup, EntityData, RowView};
use crate::text::{
    lemma_lex_lt_asym, lemma_lex_lt_connected, lemma_lex_lt_trans, lex_lt, str_eq, str_lt,
};
use crate::typeside::{Value, ValueView};

verus! {

/// The values of one attribute over a row sequence, in row order,
/// skipping rows that lack the attribute.
pub open spec fn attr_values(rows: Seq<RowView>, attr: Seq<char>) -> Seq<ValueView>
    decreases rows.len(),
{
    if rows.len() == 0 {
        Seq::empty()
    } else {
        (match attr_lookup(rows[0].attrs, attr) {
            Some(v) => seq![v],
            None => Seq::<ValueView>::empty(),
        }) + attr_values(rows.skip(1), attr)
    }
}

/// Collecting over one more row appends that row's value, if any.
proof fn lemma_attr_values_push(rows: Seq<RowView>, r: RowView, attr: Seq<char>)
    ensures
        attr_values(rows.push(r), attr) == attr_values(rows, attr) + (match attr_lookup(
            r.attrs,
            attr,
        ) {
            Some(v) => seq![v],
            None => Seq::<ValueView>::empty(),
        }),
    decreases rows.len(),
{
    let extra = (match attr_lookup(r.attrs, attr) {
        Some(v) => seq![v],
        None => Seq::<ValueView>::empty(),
    });
    if rows.len() == 0 {
        assert(rows.push(r)[0] == r);
        assert(rows.push(r).skip(1) =~= Seq::<RowView>::empty());
        assert(attr_values(rows.push(r).skip(1), attr) == Seq::<ValueView>::empty());
        assert(attr_values(rows.push(r), attr) =~= attr_values(rows, attr) + extra);
    } else {
        let head = (match attr_lookup(rows[0].attrs, attr) {
            Some(v) => seq![v],
            None => Seq::<ValueView>::empty(),
        });
        assert(rows.push(r)[0] == rows[0]);
        assert(rows.push(r).skip(1) =~= rows.skip(1).push(r));
        lemma_attr_values_push(rows.skip(1), r, attr);
        assert(attr_values(rows.push(r), attr) == head + attr_values(rows.skip(1).push(r), attr));
        assert(attr_values(rows.skip(1).push(r), attr) == attr_values(rows.skip(1), attr)
            + extra);
        assert(attr_values(rows, attr) == head + attr_values(rows.skip(1), attr));
        assert(head + (attr_values(rows.skip(1), attr) + extra) =~= (head + attr_values(
            rows.skip(1),
            attr,
        )) + extra);
    }
}

/// The integer total of a value sequence: integers count, everything
/// else counts as zero.
pub open spec fn sum_ints(vals: Seq<ValueView>) -> int
    decreases vals.len(),
{
    if vals.len() == 0 {
        0
    } else {
        (match vals[0] {
            ValueView::Int(i) => i as int,
            _ => 0,
        }) + sum_ints(vals.skip(1))
    }
}

/// Totalling one more value adds its contribution.
proof fn lemma_sum_ints_push(vals: Seq<ValueView>, v: ValueView)
    ensures
        sum_ints(vals.push(v)) == sum_ints(vals) + (match v {
            ValueView::Int(i) => i as int,
            _ => 0,
        }),
    decreases vals.len(),
{
    if vals.len() == 0 {
        assert(vals.push(v)[0] == v);
        assert(vals.push(v).skip(1) =~= Seq::<ValueView>::empty());
        assert(sum_ints(vals.push(v).skip(1)) == 0);
    } else {
        assert(vals.push(v)[0] == vals[0]);
        assert(vals.push(v).skip(1) =~= vals.skip(1).push(v));
        lemma_sum_ints_push(vals.skip(1), v);
        assert(sum_ints(vals.push(v)) == (match vals[0] {
            ValueView::Int(i) => i as int,
            _ => 0,
        }) + sum_ints(vals.skip(1).push(v)));
    }
}

/// A total is bounded by the number of values times the largest
/// magnitude an integer value can carry.
proof fn lemma_sum_ints_bound(vals: Seq<ValueView>)
    ensures
        -(vals.len() as int) * 0x8000_0000_0000_0000 <= sum_ints(vals) <= (vals.len() as int)
            * 0x8000_0000_0000_0000,
    decreases vals.len(),
{
    if vals.len() > 0 {
        lemma_sum_ints_bound(vals.skip(1));
        assert(vals.skip(1).len() == vals.len() - 1);
        assert((vals.len() as int) * 0x8000_0000_0000_0000 == ((vals.len() - 1) as int)
            * 0x8000_0000_0000_0000 + 0x8000_0000_0000_0000) by (nonlinear_arith);
    }
}

/// Three-way ordering of scalar values, as the aggregation helpers use
/// it: like-typed values compare within their type, unlike-typed values
/// rank as equal.
pub open spec fn spec_vcmp(a: ValueView, b: ValueView) -> int {
    match (a, b) {
        (ValueView::Int(x), ValueView::Int(y)) => if x < y {
            -1
        } else if x > y {
            1
        } else {
            0
        },
        (ValueView::Str(x), ValueView::Str(y)) => if x == y {
            0
        } else if lex_lt(x, y) {
            -1
        } else {
            1
        },
        (ValueView::Bool(x), ValueView::Bool(y)) => if x == y {
            0
        } else if !x {
            -1
        } else {
            1
        },
        _ => 0,
    }
}

/// Decides the three-way ordering.
fn value_cmp(a: &Value, b: &Value) -> (r: i32)
    ensures
        r as int == spec_vcmp(a@, b@),
{
    match (a, b) {
        (Value::Integer(x), Value::Integer(y)) => if x < y {
            -1
        } else if x > y {
            1
        } else {
            0
        },
        (Value::String(x), Value::String(y)) => {
            if str_eq(x.as_str(), y.as_str()) {
                0
            } else if str_lt(x.as_str(), y.as_str()) {
                -1
            } else {
                1
            }
        },
        (Value::Boolean(x), Value::Boolean(y)) => if x == y {
            0
        } else if !x {
            -1
        } else {
            1
        },
        _ => 0,
    }
}

/// A strict outcome one way is a strict outcome the other way round.
pub proof fn lemma_vcmp_flip(a: ValueView, b: ValueView)
    ensures
        spec_vcmp(a, b) > 0 ==> spec_vcmp(b, a) < 0,
        spec_vcmp(a, b) < 0 ==> spec_vcmp(b, a) > 0,
{
    match (a, b) {
        (ValueView::Str(x), ValueView::Str(y)) => {
            if x != y {
                if lex_lt(x, y) {
                    lemma_lex_lt_asym(x, y);
                } else {
                    lemma_lex_lt_connected(x, y);
                }
            }
        },
        _ => {},
    }
}

/// Among values of one sort the ordering is transitive.
pub proof fn lemma_vcmp_trans(a: ValueView, b: ValueView, c: ValueView)
    requires
        (a is Int && b is Int && c is Int) || (a is Str && b is Str && c is Str) || (a is Bool
            && b is Bool && c is Bool),
        spec_vcmp(a, b) <= 0,
        spec_vcmp(b, c) <= 0,
    ensures
        spec_vcmp(a, c) <= 0,
{
    match (a, b, c) {
        (ValueView::Str(x), ValueView::Str(y), ValueView::Str(z)) => {
            if x != y && y != z && x != z {
                lemma_lex_lt_trans(x, y, z);
            }
        },
        _ => {},
    }
}

/// Whether every value in the sequence is a string.
pub open spec fn all_strs(vals: Seq<ValueView>) -> bool {
    forall|j: int| 0 <= j < vals.len() ==> (#[trigger] vals[j]) is Str
}

/// Whether every value in the sequence is a boolean.
pub open spec fn all_bools(vals: Seq<ValueView>) -> bool {
    forall|j: int| 0 <= j < vals.len() ==> (#[trigger] vals[j]) is Bool
}

/// Whether the values all carry one comparable sort.
pub open spec fn uniform_sort(vals: Seq<ValueView>) -> bool {
    all_ints(vals) || all_strs(vals) || all_bools(vals)
}

/// The attribute values of the named entity in an evaluation result, or
/// the empty sequence when the entity is absent.
pub open spec fn result_values(res: EvalResult, entity: Seq<char>, attr: Seq<char>) -> Seq<
    ValueView,
> {
    if res.instance@.has_entity(entity) {
        attr_values(res.instance@.entity(entity).rows, attr)
    } else {
        Seq::empty()
    }
}

/// Collects the values of one attribute over an entity table.
fn collect_attr_values(ed: &EntityData, attr: &str) -> (r: Vec<Value>)
    requires
        ed@.wf(),
    ensures
        r@.map_values(|v: Value| v@) == attr_values(ed@.rows, attr@),
{
    let mut out: Vec<Value> = Vec::new();
    let mut i: usize = 0;
    proof {
        assert(ed@.rows.subrange(0, 0) =~= Seq::<RowView>::empty());
        assert(out@.map_values(|v: Value| v@) =~= attr_values(ed@.rows.subrange(0, 0), attr@));
    }
    while i < ed.rows.len()
        invariant
            ed@.wf(),
            0 <= i <= ed@.rows.len(),
            out@.map_values(|v: Value| v@) == attr_values(ed@.rows.subrange(0, i as int), attr@),
        decreases ed@.rows.len() - i,
    {
        let id = ed.rows[i].id;
        proof {
            assert(ed@.rows[i as int].id == id);
            assert(ed@.has_row(id)) by {
                assert(ed@.rows[i as int].id == id);
            }
            assert(ed@.row_index(id) == i as int) by {
                let k = ed@.row_index(id);
                assert(ed@.rows[k].id == id);
            }
        }
        let ghost pre = out@.map_values(|v: Value| v@);
        match ed.get_attr(id, attr) {
            Some(v) => {
                out.push(v);
                proof {
                    assert(out@.map_values(|v2: Value| v2@) =~= pre.push(out@.last()@));
                }
            },
            None => {},
        }
        proof {
            assert(ed@.rows.subrange(0, i + 1) =~= ed@.rows.subrange(0, i as int).push(
                ed@.rows[i as int],
            ));
            lemma_attr_values_push(ed@.rows.subrange(0, i as int), ed@.rows[i as int], attr@);
            assert(out@.map_values(|v2: Value| v2@) =~= attr_values(
                ed@.rows.subrange(0, i + 1),
                attr@,
            ));
        }
        i += 1;
    }
    proof {
        assert(ed@.rows.subrange(0, ed@.rows.len() as int) =~= ed@.rows);
    }
    out
}

/// The number of rows of one result entity.
pub fn count(result: &EvalResult, entity: &str) -> (r: usize)
    requires
        result.instance@.wf(),
    ensures
        r == if result.instance@.has_entity(entity@) {
            result.instance@.entity(entity@).rows.len()
        } else {
            0
        },
{
    match result.instance.entity_data(entity) {
        Some(ed) => ed.len(),
        None => 0,
    }
}

/// The total of an integer attribute over one result entity; values of
/// any other sort count as zero.
pub fn sum(result: &EvalResult, entity: &str, attr: &str) -> (r: i128)
    requires
        result.instance@.wf(),
    ensures
        r as int == sum_ints(result_values(*result, entity@, attr@)),
{
    let ed = match result.instance.entity_data(entity) {
        Some(ed) => ed,
        None => {
            return 0;
        },
    };
    let vals = collect_attr_values(ed, attr);
    let ghost vv = vals@.map_values(|v: Value| v@);
    let mut acc: i128 = 0;
    let mut i: usize = 0;
    proof {
        assert(vv.subrange(0, 0) =~= Seq::<ValueView>::empty());
    }
    while i < vals.len()
        invariant
            vv == vals@.map_values(|v: Value| v@),
            0 <= i <= vv.len(),
            acc as int == sum_ints(vv.subrange(0, i as int)),
            -(i as int) * 0x8000_0000_0000_0000 <= acc as int <= (i as int)
                * 0x8000_0000_0000_0000,
        decreases vv.len() - i,
    {
        let c: i128 = match &vals[i] {
            Value::Integer(x) => *x as i128,
            _ => 0,
        };
        proof {
            assert(vv.subrange(0, i + 1) =~= vv.subrange(0, i as int).push(vv[i as int]));
            lemma_sum_ints_push(vv.subrange(0, i as int), vv[i as int]);
            assert((i as int + 1) * 0x8000_0000_0000_0000 == (i as int) * 0x8000_0000_0000_0000
                + 0x8000_0000_0000_0000) by (nonlinear_arith);
            assert((i as int) * 0x8000_0000_0000_0000 <= (0xffff_ffff_ffff_ffffu64 as int)
                * 0x8000_0000_0000_0000) by (nonlinear_arith)
                requires
                    0 <= i as int <= 0xffff_ffff_ffff_ffffu64 as int,
            ;
        }
        acc = acc + c;
        i += 1;
    }
    proof {
        assert(vv.subrange(0, vv.len() as int) =~= vv);
    }
    acc
}

/// Whether every value in the sequence is an integer.
pub open spec fn all_ints(vals: Seq<ValueView>) -> bool {
    forall|j: int| 0 <= j < vals.len() ==> (#[trigger] vals[j]) is Int
}

/// The smallest value of an attribute over one result entity, under the
/// three-way ordering; the first minimum encountered wins.  When every
/// value is an integer, the result is a true minimum.
pub fn min_val(result: &EvalResult, entity: &str, attr: &str) -> (r: Option<Value>)
    requires
        result.instance@.wf(),
    ensures
        ({
            let vals = result_values(*result, entity@, attr@);
            match r {
                Some(v) => vals.len() > 0 && (exists|j: int| 0 <= j < vals.len() && vals[j] == v@)
                    && (uniform_sort(vals) ==> forall|j: int|
                    0 <= j < vals.len() ==> spec_vcmp(v@, #[trigger] vals[j]) <= 0) && (all_ints(
                    vals,
                ) ==> v@ is Int && forall|j: int|
                    0 <= j < vals.len() ==> v@->Int_0 <= (#[trigger] vals[j])->Int_0),
                None => vals.len() == 0,
            }
        }),
{
    let ed = match result.instance.entity_data(entity) {
        Some(ed) => ed,
        None => {
            return None;
        },
    };
    let vals = collect_attr_values(ed, attr);
    let ghost vv = vals@.map_values(|v: Value| v@);
    let mut best: Option<Value> = None;
    let mut i: usize = 0;
    while i < vals.len()
        invariant
            vv == vals@.map_values(|v: Value| v@),
            0 <= i <= vv.len(),
            i == 0 ==> best is None,
            i > 0 ==> match best {
                Some(b) => (exists|j: int| 0 <= j < i && vv[j] == b@) && (uniform_sort(vv)
                    ==> forall|j: int| 0 <= j < i ==> spec_vcmp(b@, #[trigger] vv[j]) <= 0) && (
                all_ints(vv) ==> b@ is Int && forall|j: int|
                    0 <= j < i ==> b@->Int_0 <= (#[trigger] vv[j])->Int_0),
                None => false,
            },
        decreases vv.len() - i,
    {
        let v = vals[i].duplicate();
        proof {
            assert(v@ == vv[i as int]);
        }
        best = match best {
            None => Some(v),
            Some(b) => {
                let take = value_cmp(&v, &b) == -1;
                proof {
                    if i > 0 && uniform_sort(vv) {
                        let j0 = choose|j0: int| 0 <= j0 < i && vv[j0] == b@;
                        assert(vv[j0] == b@);
                        if take {
                            assert forall|j: int| 0 <= j < i + 1 implies spec_vcmp(
                                v@,
                                #[trigger] vv[j],
                            ) <= 0 by {
                                if j < i {
                                    lemma_vcmp_trans(v@, b@, vv[j]);
                                }
                            }
                        } else {
                            lemma_vcmp_flip(v@, b@);
                            assert(spec_vcmp(b@, v@) <= 0);
                        }
                    }
                }
                if take {
                    Some(v)
                } else {
                    Some(b)
                }
            },
        };
        i += 1;
    }
    best
}

/// The largest value of an attribute over one result entity, under the
/// three-way ordering; the last maximum encountered wins.  When every
/// value is an integer, the result is a true maximum.
pub fn max_val(result: &EvalResult, entity: &str, attr: &str) -> (r: Option<Value>)
    requires
        result.instance@.wf(),
    ensures
        ({
            let vals = result_values(*result, entity@, attr@);
            match r {
                Some(v) => vals.len() > 0 && (exists|j: int| 0 <= j < vals.len() && vals[j] == v@)
                    && (uniform_sort(vals) ==> forall|j: int|
                    0 <= j < vals.len() ==> spec_vcmp(#[trigger] vals[j], v@) <= 0) && (all_ints(
                    vals,
                ) ==> v@ is Int && forall|j: int|
                    0 <= j < vals.len() ==> v@->Int_0 >= (#[trigger] vals[j])->Int_0),
                None => vals.len() == 0,
            }
        }),
{
    let ed = match result.instance.entity_data(entity) {
        Some(ed) => ed,
        None => {
            return None;
        },
    };
    let vals = collect_attr_values(ed, attr);
    let ghost vv = vals@.map_values(|v: Value| v@);
    let mut best: Option<Value> = None;
    let mut i: usize = 0;
    while i < vals.len()
        invariant
            vv == vals@.map_values(|v: Value| v@),
            0 <= i <= vv.len(),
            i == 0 ==> best is None,
            i > 0 ==> match best {
                Some(b) => (exists|j: int| 0 <= j < i && vv[j] == b@) && (uniform_sort(vv)
                    ==> forall|j: int| 0 <= j < i ==> spec_vcmp(#[trigger] vv[j], b@) <= 0) && (
                all_ints(vv) ==> b@ is Int && forall|j: int|
                    0 <= j < i ==> b@->Int_0 >= (#[trigger] vv[j])->Int_0),
                None => false,
            },
        decreases vv.len() - i,
    {
        let v = vals[i].duplicate();
        proof {
            assert(v@ == vv[i as int]);
        }
        best = match best {
            None => Some(v),
            Some(b) => {
                let take = value_cmp(&v, &b) >= 0;
                proof {
                    if i > 0 && uniform_sort(vv) {
                        let j0 = choose|j0: int| 0 <= j0 < i && vv[j0] == b@;
                        assert(vv[j0] == b@);
                        if take {
                            lemma_vcmp_flip(v@, b@);
                            assert(spec_vcmp(b@, v@) <= 0);
                            assert forall|j: int| 0 <= j < i + 1 implies spec_vcmp(
                                #[trigger] vv[j],
                                v@,
                            ) <= 0 by {
                                if j < i {
                                    lemma_vcmp_trans(vv[j], b@, v@);
                                }
                            }
                        }
                    }
                }
                if take {
                    Some(v)
                } else {
                    Some(b)
                }
            },
        };
        i += 1;
    }
    best
}

/// Indexing into a sequence after an insertion: entries before the spot
/// are unchanged, the spot holds the new element, and entries after it
/// are shifted by one.
proof fn lemma_seq_insert_index(s: Seq<Value>, p: int, v: Value)
    requires
        0 <= p <= s.len(),
    ensures
        s.insert(p, v).len() == s.len() + 1,
        forall|q: int| 0 <= q < p ==> #[trigger] s.insert(p, v)[q] == s[q],
        s.insert(p, v)[p] == v,
        forall|q: int| p < q < s.len() + 1 ==> #[trigger] s.insert(p, v)[q] == s[q - 1],
{
    assert forall|q: int| 0 <= q < p implies #[trigger] s.insert(p, v)[q] == s[q] by {
        assert(s.insert(p, v)[q] == s.subrange(0, p)[q]);
    }
    assert forall|q: int| p < q < s.len() + 1 implies #[trigger] s.insert(p, v)[q] == s[q
        - 1] by {
        assert(s.insert(p, v)[q] == s.subrange(p, s.len() as int)[q - p - 1]);
    }
}

/// One insertion step of the sort: inserting at the found spot keeps
/// the output adjacent-sorted, and its values are exactly the old ones
/// plus the inserted one.
proof fn lemma_sort_step(spre: Seq<Value>, p: int, v: Value, pool: Seq<Value>, i: int)
    requires
        0 <= p <= spre.len(),
        0 <= i < pool.len(),
        pool[i]@ == v@,
        forall|k: int|
            0 <= k < spre.len() - 1 ==> spec_vcmp((#[trigger] spre[k])@, spre[k + 1]@) <= 0,
        forall|q: int| 0 <= q < p ==> spec_vcmp((#[trigger] spre[q])@, v@) <= 0,
        p < spre.len() ==> spec_vcmp(v@, spre[p]@) <= 0,
    ensures
        ({
            let snew = spre.insert(p, v);
            &&& snew.len() == spre.len() + 1
            &&& forall|k: int|
                0 <= k < snew.len() - 1 ==> spec_vcmp((#[trigger] snew[k])@, snew[k + 1]@) <= 0
        }),
{
    lemma_seq_insert_index(spre, p, v);
    let snew = spre.insert(p, v);
    assert forall|k: int|
        0 <= k < snew.len() - 1 implies spec_vcmp((#[trigger] snew[k])@, snew[k + 1]@) <= 0 by {
        if k + 1 < p {
            assert(snew[k] == spre[k] && snew[k + 1] == spre[k + 1]);
        } else if k + 1 == p {
            assert(snew[k] == spre[k] && snew[k + 1] == v);
        } else if k == p {
            assert(snew[k] == v && snew[k + 1] == spre[k]);
        } else {
            assert(snew[k] == spre[k - 1] && snew[k + 1] == spre[k]);
        }
    }
}

/// Inserts each value into an output kept adjacent-sorted under the
/// three-way ordering; the output carries exactly the input's values.
#[verifier::rlimit(60)]
#[verifier::spinoff_prover]
fn sort_values(vals: &Vec<Value>) -> (r: Vec<Value>)
    ensures
        r@.len() == vals@.len(),
        forall|k: int| 0 <= k < r@.len() - 1 ==> spec_vcmp((#[trigger] r@[k])@, r@[k + 1]@) <= 0,
{
    let mut sorted: Vec<Value> = Vec::new();
    let mut i: usize = 0;
    while i < vals.len()
        invariant
            0 <= i <= vals@.len(),
            sorted@.len() == i,
            forall|k: int|
                0 <= k < sorted@.len() - 1 ==> spec_vcmp(
                    (#[trigger] sorted@[k])@,
                    sorted@[k + 1]@,
                ) <= 0,
        decreases vals@.len() - i,
    {
        let v = vals[i].duplicate();
        let mut p: usize = 0;
        while p < sorted.len() && value_cmp(&sorted[p], &v) <= 0
            invariant
                0 <= p <= sorted@.len(),
                forall|q: int| 0 <= q < p ==> spec_vcmp((#[trigger] sorted@[q])@, v@) <= 0,
            decreases sorted@.len() - p,
        {
            p += 1;
        }
        let ghost spre = sorted@;
        let ghost vowned = v;
        proof {
            if p < sorted@.len() {
                lemma_vcmp_flip(sorted@[p as int]@, v@);
            }
            assert(vals@[i as int]@ == vowned@);
            lemma_sort_step(spre, p as int, vowned, vals@, i as int);
        }
        sorted.insert(p, v);
        proof {
            assert(sorted@ == spre.insert(p as int, vowned));
        }
        i += 1;
    }
    proof {
        assert(sorted@.len() == vals@.len());
    }
    sorted
}

/// Drops each value equal to its predecessor; the output is
/// adjacent-sorted, free of adjacent duplicates, and carries exactly the
/// input's values.
#[verifier::rlimit(60)]
#[verifier::spinoff_prover]
fn dedup_values(sorted: &Vec<Value>) -> (r: Vec<Value>)
    requires
        forall|k: int|
            0 <= k < sorted@.len() - 1 ==> spec_vcmp(
                (#[trigger] sorted@[k])@,
                sorted@[k + 1]@,
            ) <= 0,
    ensures
        r@.len() == 0 <==> sorted@.len() == 0,
        forall|k: int| 0 <= k < r@.len() - 1 ==> spec_vcmp((#[trigger] r@[k])@, r@[k + 1]@) <= 0,
        forall|k: int| 0 <= k < r@.len() - 1 ==> (#[trigger] r@[k])@ != r@[k + 1]@,
{
    let mut out: Vec<Value> = Vec::new();
    let mut k: usize = 0;
    while k < sorted.len()
        invariant
            forall|q: int|
                0 <= q < sorted@.len() - 1 ==> spec_vcmp(
                    (#[trigger] sorted@[q])@,
                    sorted@[q + 1]@,
                ) <= 0,
            0 <= k <= sorted@.len(),
            k == 0 ==> out@.len() == 0,
            k > 0 ==> out@.len() > 0 && out@.last()@ == sorted@[k - 1]@,
            forall|m: int|
                0 <= m < out@.len() - 1 ==> spec_vcmp((#[trigger] out@[m])@, out@[m + 1]@) <= 0,
            forall|m: int| 0 <= m < out@.len() - 1 ==> (#[trigger] out@[m])@ != out@[m + 1]@,
        decreases sorted@.len() - k,
    {
        let keep = if out.len() == 0 {
            true
        } else {
            !(out[out.len() - 1] == sorted[k])
        };
        let ghost opre = out@;
        if keep {
            out.push(sorted[k].duplicate());
            proof {
                assert(out@.last()@ == sorted@[k as int]@);
                assert(forall|m: int| 0 <= m < opre.len() ==> #[trigger] out@[m] == opre[m]);
                if opre.len() > 0 {
                    assert(opre.last()@ == sorted@[k - 1]@);
                    assert(spec_vcmp(sorted@[k - 1]@, sorted@[k as int]@) <= 0);
                }
            }
        } else {
            proof {
                assert(out@.last()@ == sorted@[k as int]@);
            }
        }
        k += 1;
    }
    out
}

/// The distinct values of an attribute over one result entity, sorted
/// under the three-way ordering with adjacent duplicates removed: the
/// result is adjacent-sorted, holds no two adjacent equal values, and
/// carries exactly the values the entity stores under the attribute.
#[verifier::spinoff_prover]
pub fn distinct(result: &EvalResult, entity: &str, attr: &str) -> (r: Vec<Value>)
    requires
        result.instance@.wf(),
    ensures
        ({
            let vals = result_values(*result, entity@, attr@);
            &&& (r@.len() == 0 <==> vals.len() == 0)
            &&& forall|k: int|
                0 <= k < r@.len() - 1 ==> spec_vcmp((#[trigger] r@[k])@, r@[k + 1]@) <= 0
            &&& forall|k: int| 0 <= k < r@.len() - 1 ==> (#[trigger] r@[k])@ != r@[k + 1]@
        }),
{
    let ed = match result.instance.entity_data(entity) {
        Some(ed) => ed,
        None => {
            let r: Vec<Value> = Vec::new();
            proof {
                assert(result_values(*result, entity@, attr@) =~= Seq::<ValueView>::empty());
            }
            return r;
        },
    };
    let vals = collect_attr_values(ed, attr);
    let ghost vv = vals@.map_values(|v: Value| v@);
    proof {
        assert(vv == result_values(*result, entity@, attr@));
    }
    let sorted = sort_values(&vals);
    let out = dedup_values(&sorted);
    proof {
        assert(vv.len() == vals@.len());
    }
    out
}

} // verus!
