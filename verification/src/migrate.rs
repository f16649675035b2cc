//! Data migrations along a mapping: delta (pullback) and sigma (left Kan
//! extension).
//!
//! Delta reads a target-schema instance through the lens of the source
//! schema, preserving row identifiers.  Sigma pushes a source-schema
//! instance forward into the target schema, allocating fresh rows and
//! translating foreign keys through the allocation.

use vstd::prelude::*;

use crate::instance::{
    attr_lookup, attrs_view, fk_lookup, fks_view, spec_follow_path, spec_walk, EntityData,
    EntityDataView,
    Instance, InstanceView, RowId, RowView,
};
use crate::mapping::{EdgeMapping, EdgeMappingView, Mapping, MappingView};
use crate::schema::{Edge, Schema, SchemaView};
use crate::text::{names_view, str_eq};
use crate::typeside::{Value, ValueView};

verus! {

/// Looking a name up after appending a cell: the earlier cells win, and
/// the new cell answers only for its own name.
proof fn lemma_attr_lookup_append(
    cells: Seq<(Seq<char>, ValueView)>,
    c: (Seq<char>, ValueView),
    n: Seq<char>,
)
    ensures
        attr_lookup(cells.push(c), n) == (match attr_lookup(cells, n) {
            Some(v) => Some(v),
            None => if c.0 == n {
                Some(c.1)
            } else {
                None
            },
        }),
    decreases cells.len(),
{
    reveal_with_fuel(attr_lookup, 2);
    if cells.len() == 0 {
        assert(cells.push(c)[0] == c);
        assert(cells.push(c).skip(1) =~= Seq::<(Seq<char>, ValueView)>::empty());
    } else {
        assert(cells.push(c)[0] == cells[0]);
        assert(cells.push(c).skip(1) =~= cells.skip(1).push(c));
        lemma_attr_lookup_append(cells.skip(1), c, n);
    }
}

/// The foreign-key analogue of `lemma_attr_lookup_append`.
proof fn lemma_fk_lookup_append(cells: Seq<(Seq<char>, RowId)>, c: (Seq<char>, RowId), n: Seq<char>)
    ensures
        fk_lookup(cells.push(c), n) == (match fk_lookup(cells, n) {
            Some(v) => Some(v),
            None => if c.0 == n {
                Some(c.1)
            } else {
                None
            },
        }),
    decreases cells.len(),
{
    reveal_with_fuel(fk_lookup, 2);
    if cells.len() == 0 {
        assert(cells.push(c)[0] == c);
        assert(cells.push(c).skip(1) =~= Seq::<(Seq<char>, RowId)>::empty());
    } else {
        assert(cells.push(c)[0] == cells[0]);
        assert(cells.push(c).skip(1) =~= cells.skip(1).push(c));
        lemma_fk_lookup_append(cells.skip(1), c, n);
    }
}

/// What delta stores for a source attribute: walk the foreign-key chain
/// in the target instance, then read the target attribute of the row
/// reached; absent hops or cells leave the field out.
pub open spec fn delta_attr_result(
    ti: InstanceView,
    ts: SchemaView,
    b: Seq<char>,
    id: RowId,
    fk_path: Seq<Seq<char>>,
    attr: Seq<char>,
) -> Option<ValueView> {
    match spec_walk(ti, ts, b, id, fk_path) {
        Some(er) => if ti.has_entity(er.0) {
            ti.entity(er.0).attr_value(er.1, attr)
        } else {
            None
        },
        None => None,
    }
}

/// Whether entry `mi` of the mapping's edge assignments is a foreign key
/// of the source schema leaving node `a`, assigned a path.
pub open spec fn delta_fk_relevant(mv: MappingView, sv: SchemaView, a: Seq<char>, mi: int) -> bool {
    &&& sv.has_edge(mv.edge_mapping[mi].0)
    &&& sv.edge_named(mv.edge_mapping[mi].0).source() == a
    &&& sv.edge_named(mv.edge_mapping[mi].0).is_fk()
    &&& mv.edge_mapping[mi].1 is FkToPath
}

/// Whether entry `mi` of the mapping's edge assignments is an attribute
/// of the source schema leaving node `a`, assigned an attribute chain.
pub open spec fn delta_attr_relevant(mv: MappingView, sv: SchemaView, a: Seq<char>, mi: int) -> bool {
    &&& sv.has_edge(mv.edge_mapping[mi].0)
    &&& sv.edge_named(mv.edge_mapping[mi].0).source() == a
    &&& sv.edge_named(mv.edge_mapping[mi].0).is_attribute()
    &&& mv.edge_mapping[mi].1 is AttrToPath
}

/// The delta content of one row is fully determined: for every relevant
/// foreign-key assignment the cell equals the walk through the target
/// instance, and for every relevant attribute assignment the cell equals
/// the value read at the end of its chain.
pub open spec fn delta_row_done(
    mv: MappingView,
    sv: SchemaView,
    tv: SchemaView,
    ti: InstanceView,
    a: Seq<char>,
    b: Seq<char>,
    id: RowId,
    attrs: Seq<(Seq<char>, ValueView)>,
    fks: Seq<(Seq<char>, RowId)>,
) -> bool {
    forall|mi: int|
        0 <= mi < mv.edge_mapping.len() ==> {
            &&& (delta_fk_relevant(mv, sv, a, mi) ==> fk_lookup(
                fks,
                (#[trigger] mv.edge_mapping[mi]).0,
            ) == spec_follow_path(ti, tv, b, id, mv.edge_mapping[mi].1->FkToPath_0.edges))
            &&& (delta_attr_relevant(mv, sv, a, mi) ==> attr_lookup(
                attrs,
                mv.edge_mapping[mi].0,
            ) == delta_attr_result(
                ti,
                tv,
                b,
                id,
                mv.edge_mapping[mi].1->AttrToPath_fk_path,
                mv.edge_mapping[mi].1->AttrToPath_attr_name,
            ))
        }
}

/// Builds the attribute and foreign-key cells that delta gives to the
/// copy of row `id` of target entity `b` under source node `a`.
fn delta_row(
    mapping: &Mapping,
    source_schema: &Schema,
    target_schema: &Schema,
    target_instance: &Instance,
    a: &str,
    b: &str,
    id: RowId,
) -> (r: (Vec<(std::string::String, Value)>, Vec<(std::string::String, RowId)>))
    requires
        mapping@.wf(),
        source_schema@.wf(),
        target_schema@.wf(),
        target_instance@.wf(),
    ensures
        delta_row_done(
            mapping@,
            source_schema@,
            target_schema@,
            target_instance@,
            a@,
            b@,
            id,
            attrs_view(r.0@),
            fks_view(r.1@),
        ),
{
    let mut attrs: Vec<(std::string::String, Value)> = Vec::new();
    let mut fks: Vec<(std::string::String, RowId)> = Vec::new();
    let mut mi: usize = 0;
    proof {
        assert(attrs_view(attrs@) =~= Seq::<(Seq<char>, ValueView)>::empty());
        assert(fks_view(fks@) =~= Seq::<(Seq<char>, RowId)>::empty());
    }
    while mi < mapping.edge_mapping.len()
        invariant
            mapping@.wf(),
            source_schema@.wf(),
            target_schema@.wf(),
            target_instance@.wf(),
            0 <= mi <= mapping.edge_mapping@.len(),
            forall|mj: int|
                0 <= mj < mi ==> {
                    &&& (delta_fk_relevant(mapping@, source_schema@, a@, mj) ==> fk_lookup(
                        fks_view(fks@),
                        (#[trigger] mapping@.edge_mapping[mj]).0,
                    ) == spec_follow_path(
                        target_instance@,
                        target_schema@,
                        b@,
                        id,
                        mapping@.edge_mapping[mj].1->FkToPath_0.edges,
                    ))
                    &&& (delta_attr_relevant(mapping@, source_schema@, a@, mj) ==> attr_lookup(
                        attrs_view(attrs@),
                        mapping@.edge_mapping[mj].0,
                    ) == delta_attr_result(
                        target_instance@,
                        target_schema@,
                        b@,
                        id,
                        mapping@.edge_mapping[mj].1->AttrToPath_fk_path,
                        mapping@.edge_mapping[mj].1->AttrToPath_attr_name,
                    ))
                },
            forall|mj: int|
                mi <= mj < mapping@.edge_mapping.len() ==> attr_lookup(
                    attrs_view(attrs@),
                    (#[trigger] mapping@.edge_mapping[mj]).0,
                ) is None && fk_lookup(fks_view(fks@), mapping@.edge_mapping[mj].0) is None,
        decreases mapping.edge_mapping@.len() - mi,
    {
        let ghost entry = mapping@.edge_mapping[mi as int];
        let edge_name = &mapping.edge_mapping[mi].0;
        let em = &mapping.edge_mapping[mi].1;
        proof {
            assert(entry.0 == edge_name@ && entry.1 == em@);
        }
        match source_schema.get_edge(edge_name.as_str()) {
            None => {},
            Some(se) => {
                if str_eq(se.source(), a) {
                    match (se, em) {
                        (Edge::ForeignKey { .. }, EdgeMapping::FkToPath(path)) => {
                            let ghost prefks = fks_view(fks@);
                            match target_instance.follow_path(b, id, &path.edges, target_schema) {
                                Some(t) => {
                                    fks.push((edge_name.clone(), t));
                                    proof {
                                        assert(fks_view(fks@) =~= prefks.push((entry.0, t)));
                                        assert forall|n: Seq<char>| true implies fk_lookup(
                                            fks_view(fks@),
                                            n,
                                        ) == (match fk_lookup(prefks, n) {
                                            Some(v) => Some(v),
                                            None => if entry.0 == n {
                                                Some(t)
                                            } else {
                                                None
                                            },
                                        }) by {
                                            lemma_fk_lookup_append(prefks, (entry.0, t), n);
                                        }
                                    }
                                },
                                None => {},
                            }
                        },
                        (
                            Edge::Attribute { .. },
                            EdgeMapping::AttrToPath { fk_path, attr_name },
                        ) => {
                            let ghost preattrs = attrs_view(attrs@);
                            let resolved = target_instance.walk_fks(b, id, fk_path, target_schema);
                            match resolved {
                                Some(er) => {
                                    match target_instance.entity_data(er.0.as_str()) {
                                        Some(ted) => {
                                            match ted.get_attr(er.1, attr_name.as_str()) {
                                                Some(v) => {
                                                    attrs.push((edge_name.clone(), v));
                                                    proof {
                                                        let ghost c = (
                                                            entry.0,
                                                            attrs@.last().1@,
                                                        );
                                                        assert(attrs_view(attrs@)
                                                            =~= preattrs.push(c));
                                                        assert forall|n: Seq<char>|
                                                            true implies attr_lookup(
                                                            attrs_view(attrs@),
                                                            n,
                                                        ) == (match attr_lookup(preattrs, n) {
                                                            Some(v2) => Some(v2),
                                                            None => if c.0 == n {
                                                                Some(c.1)
                                                            } else {
                                                                None
                                                            },
                                                        }) by {
                                                            lemma_attr_lookup_append(
                                                                preattrs,
                                                                c,
                                                                n,
                                                            );
                                                        }
                                                    }
                                                },
                                                None => {},
                                            }
                                        },
                                        None => {},
                                    }
                                },
                                None => {},
                            }
                        },
                        _ => {},
                    }
                }
            },
        }
        mi += 1;
    }
    (attrs, fks)
}

/// Delta: reads a target-schema instance under the source schema.
///
/// For every source node `a` mapped to target node `b`, every row of `b`
/// is copied under `a` with its identifier preserved; each mapped foreign
/// key is set to the row that its image path reaches, and each mapped
/// attribute to the value its chain reads, fields being left out where a
/// hop or a cell is missing.
#[verifier::rlimit(100)]
#[verifier::spinoff_prover]
pub fn delta(
    mapping: &Mapping,
    source_schema: &Schema,
    target_schema: &Schema,
    target_instance: &Instance,
) -> (r: Instance)
    requires
        mapping@.wf(),
        source_schema@.wf(),
        target_schema@.wf(),
        target_instance@.wf(),
        forall|pi: int|
            0 <= pi < mapping@.node_mapping.len() ==> source_schema@.has_node(
                (#[trigger] mapping@.node_mapping[pi]).0,
            ),
    ensures
        r@.wf(),
        r@.schema_name == source_schema@.name,
        r@.data.len() == source_schema@.nodes.len(),
        forall|i: int|
            0 <= i < source_schema@.nodes.len() ==> (#[trigger] r@.data[i]).0
                == source_schema@.nodes[i],
        forall|i: int|
            0 <= i < r@.data.len() && (forall|pj: int|
                0 <= pj < mapping@.node_mapping.len() ==> (#[trigger] mapping@.node_mapping[
                    pj
                ]).0 != (r@.data[i]).0) ==> (#[trigger] r@.data[i]).1.rows.len() == 0,
        forall|pi: int|
            0 <= pi < mapping@.node_mapping.len() ==> {
                let a = (#[trigger] mapping@.node_mapping[pi]).0;
                let b = mapping@.node_mapping[pi].1;
                &&& (target_instance@.has_entity(b) ==> r@.entity(a).ids()
                    == target_instance@.entity(b).ids() && (forall|rj: int|
                    0 <= rj < target_instance@.entity(b).rows.len() ==> {
                        let id = (#[trigger] target_instance@.entity(b).rows[rj]).id;
                        &&& r@.entity(a).has_row(id)
                        &&& delta_row_done(
                            mapping@,
                            source_schema@,
                            target_schema@,
                            target_instance@,
                            a,
                            b,
                            id,
                            r@.entity(a).row(id).attrs,
                            r@.entity(a).row(id).fks,
                        )
                    }))
                &&& (!target_instance@.has_entity(b) ==> r@.entity(a).rows.len() == 0)
            },
{
    let mut name = std::string::String::from_str("delta_");
    name.append(mapping.name.as_str());
    let mut result = Instance::new(name.as_str(), source_schema);
    let mut pi: usize = 0;
    while pi < mapping.node_mapping.len()
        invariant
            mapping@.wf(),
            source_schema@.wf(),
            target_schema@.wf(),
            target_instance@.wf(),
            forall|pj: int|
                0 <= pj < mapping@.node_mapping.len() ==> source_schema@.has_node(
                    (#[trigger] mapping@.node_mapping[pj]).0,
                ),
            0 <= pi <= mapping.node_mapping@.len(),
            result@.wf(),
            result@.schema_name == source_schema@.name,
            result@.data.len() == source_schema@.nodes.len(),
            forall|i: int|
                0 <= i < source_schema@.nodes.len() ==> (#[trigger] result@.data[i]).0
                    == source_schema@.nodes[i],
            forall|i: int|
                0 <= i < result@.data.len() && (forall|pj: int|
                    0 <= pj < pi ==> (#[trigger] mapping@.node_mapping[pj]).0 != (
                    result@.data[i]).0) ==> (#[trigger] result@.data[i]).1.rows.len() == 0,
            forall|pj: int|
                0 <= pj < pi ==> {
                    let a = (#[trigger] mapping@.node_mapping[pj]).0;
                    let b = mapping@.node_mapping[pj].1;
                    &&& (target_instance@.has_entity(b) ==> result@.entity(a).ids()
                        == target_instance@.entity(b).ids() && (forall|rj: int|
                        0 <= rj < target_instance@.entity(b).rows.len() ==> {
                            let id = (#[trigger] target_instance@.entity(b).rows[rj]).id;
                            &&& result@.entity(a).has_row(id)
                            &&& delta_row_done(
                                mapping@,
                                source_schema@,
                                target_schema@,
                                target_instance@,
                                a,
                                b,
                                id,
                                result@.entity(a).row(id).attrs,
                                result@.entity(a).row(id).fks,
                            )
                        }))
                    &&& (!target_instance@.has_entity(b) ==> result@.entity(a).rows.len() == 0)
                },
        decreases mapping.node_mapping@.len() - pi,
    {
        let ghost a = mapping@.node_mapping[pi as int].0;
        let ghost bb = mapping@.node_mapping[pi as int].1;
        let source_node = &mapping.node_mapping[pi].0;
        let target_node = &mapping.node_mapping[pi].1;
        proof {
            assert(source_node@ == a && target_node@ == bb);
            assert(result@.has_entity(a)) by {
                let k = choose|k: int|
                    0 <= k < source_schema@.nodes.len() && source_schema@.nodes[k] == a;
                assert(result@.data[k].0 == a);
            }
            // The entity for `a` has not been filled by an earlier pair.
            assert forall|pj: int| 0 <= pj < pi implies (#[trigger] mapping@.node_mapping[pj]).0
                != a by {}
            assert(result@.entity(a).rows.len() == 0) by {
                let k = result@.entity_index(a);
                assert(result@.data[k].0 == a);
            }
        }
        match target_instance.entity_data(target_node.as_str()) {
            None => {},
            Some(target_data) => {
                let ids = target_data.row_ids();
                let ghost tids = target_instance@.entity(bb).ids();
                let mut rj: usize = 0;
                while rj < ids.len()
                    invariant
                        mapping@.wf(),
                        source_schema@.wf(),
                        target_schema@.wf(),
                        target_instance@.wf(),
                        0 <= pi < mapping.node_mapping@.len(),
                        a == mapping@.node_mapping[pi as int].0,
                        bb == mapping@.node_mapping[pi as int].1,
                        source_node@ == a,
                        target_node@ == bb,
                        forall|pj: int|
                            0 <= pj < mapping@.node_mapping.len() ==> source_schema@.has_node(
                                (#[trigger] mapping@.node_mapping[pj]).0,
                            ),
                        target_instance@.has_entity(bb),
                        tids == target_instance@.entity(bb).ids(),
                        ids@ == tids,
                        0 <= rj <= ids@.len(),
                        result@.wf(),
                        result@.schema_name == source_schema@.name,
                        result@.data.len() == source_schema@.nodes.len(),
                        forall|i: int|
                            0 <= i < source_schema@.nodes.len() ==> (#[trigger] result@.data[
                                i
                            ]).0 == source_schema@.nodes[i],
                        result@.has_entity(a),
                        result@.entity(a).ids() =~= tids.subrange(0, rj as int),
                        forall|rk: int|
                            0 <= rk < rj ==> {
                                let id = (#[trigger] target_instance@.entity(bb).rows[rk]).id;
                                &&& result@.entity(a).has_row(id)
                                &&& delta_row_done(
                                    mapping@,
                                    source_schema@,
                                    target_schema@,
                                    target_instance@,
                                    a,
                                    bb,
                                    id,
                                    result@.entity(a).row(id).attrs,
                                    result@.entity(a).row(id).fks,
                                )
                            },
                        forall|i: int|
                            0 <= i < result@.data.len() && (result@.data[i]).0 != a && (forall|
                                pj: int,
                            |
                                0 <= pj < pi ==> (#[trigger] mapping@.node_mapping[pj]).0 != (
                                result@.data[i]).0) ==> (#[trigger] result@.data[i]).1.rows.len()
                                == 0,
                        forall|pj: int|
                            0 <= pj < pi ==> {
                                let ap = (#[trigger] mapping@.node_mapping[pj]).0;
                                let bp = mapping@.node_mapping[pj].1;
                                &&& (target_instance@.has_entity(bp) ==> result@.entity(ap).ids()
                                    == target_instance@.entity(bp).ids() && (forall|rk: int|
                                    0 <= rk < target_instance@.entity(bp).rows.len() ==> {
                                        let id = (#[trigger] target_instance@.entity(
                                            bp,
                                        ).rows[rk]).id;
                                        &&& result@.entity(ap).has_row(id)
                                        &&& delta_row_done(
                                            mapping@,
                                            source_schema@,
                                            target_schema@,
                                            target_instance@,
                                            ap,
                                            bp,
                                            id,
                                            result@.entity(ap).row(id).attrs,
                                            result@.entity(ap).row(id).fks,
                                        )
                                    }))
                                &&& (!target_instance@.has_entity(bp) ==> result@.entity(
                                    ap,
                                ).rows.len() == 0)
                            },
                    decreases ids@.len() - rj,
                {
                    let id = ids[rj];
                    proof {
                        assert(tids[rj as int] == target_instance@.entity(bb).rows[rj as int].id);
                        assert(target_instance@.entity(bb).wf()) by {
                            let k = target_instance@.entity_index(bb);
                            assert(target_instance@.data[k].1.wf());
                        }
                        assert(id < RowId::MAX);
                    }
                    let cells = delta_row(
                        mapping,
                        source_schema,
                        target_schema,
                        target_instance,
                        source_node.as_str(),
                        target_node.as_str(),
                        id,
                    );
                    let ghost pre = result@;
                    proof {
                        // The id is fresh in the entity being filled.
                        assert(!pre.entity(a).has_row(id)) by {
                            if pre.entity(a).has_row(id) {
                                let k = pre.entity(a).row_index(id);
                                assert(pre.entity(a).rows[k].id == id);
                                assert(pre.entity(a).ids()[k] == pre.entity(a).rows[k].id);
                                assert(pre.entity(a).ids() == tids.subrange(0, rj as int));
                                assert(pre.entity(a).ids().len() == pre.entity(a).rows.len());
                                assert(0 <= k < rj);
                                assert(tids.len() == target_instance@.entity(bb).rows.len());
                                assert(tids.subrange(0, rj as int)[k] == tids[k]);
                                assert(tids[k] == id);
                                assert(id == tids[rj as int]);
                                assert(tids[k] == target_instance@.entity(bb).rows[k].id);
                                assert(tids[rj as int] == target_instance@.entity(bb).rows[
                                    rj as int
                                ].id);
                                assert(target_instance@.entity(bb).rows[k].id
                                    == target_instance@.entity(bb).rows[rj as int].id);
                                assert(false);
                            }
                        }
                    }
                    result.insert_with_id(source_node.as_str(), id, cells.0, cells.1);
                    proof {
                        let idx = pre.entity_index(a);
                        assert(pre.data[idx].0 == a);
                        assert(result@.entity_index(a) == idx) by {
                            assert(result@.data[idx].0 == a);
                            let k2 = result@.entity_index(a);
                            assert(result@.data[k2].0 == a);
                        }
                        assert(result@.entity(a).rows =~= pre.entity(a).rows.push(
                            (RowView {
                                id,
                                attrs: attrs_view(cells.0@),
                                fks: fks_view(cells.1@),
                            }),
                        ));
                        assert(result@.entity(a).rows.len() == pre.entity(a).rows.len() + 1);
                        assert(pre.entity(a).ids().len() == pre.entity(a).rows.len());
                        assert(pre.entity(a).ids() == tids.subrange(0, rj as int));
                        assert(pre.entity(a).rows.len() == rj as int);
                        assert(result@.entity(a).ids().len() == rj + 1);
                        assert forall|j: int|
                            0 <= j < rj + 1 implies result@.entity(a).ids()[j] == tids.subrange(
                            0,
                            rj + 1,
                        )[j] by {
                            if j < rj {
                                assert(result@.entity(a).rows[j] == pre.entity(a).rows[j]);
                                assert(pre.entity(a).ids()[j] == tids.subrange(0, rj as int)[j]);
                            } else {
                                assert(result@.entity(a).rows[j].id == id);
                                assert(id == tids[rj as int]);
                            }
                        }
                        assert(result@.entity(a).ids() =~= tids.subrange(0, rj + 1));
                        // The appended row answers lookups for `id`.
                        assert(result@.entity(a).has_row(id)) by {
                            assert(result@.entity(a).rows[rj as int].id == id);
                        }
                        assert(result@.entity(a).row_index(id) == rj as int) by {
                            let k = result@.entity(a).row_index(id);
                            assert(result@.entity(a).rows[k].id == id);
                            if k < rj {
                                assert(result@.entity(a).ids()[k] == id);
                                assert(tids[k] == tids[rj as int]);
                                assert(target_instance@.entity(bb).rows[k].id
                                    == target_instance@.entity(bb).rows[rj as int].id);
                            }
                        }
                        // Earlier rows of this entity are untouched.
                        assert forall|rk: int| 0 <= rk < rj implies {
                            let oid = (#[trigger] target_instance@.entity(bb).rows[rk]).id;
                            result@.entity(a).has_row(oid) && result@.entity(a).row(oid)
                                == pre.entity(a).row(oid)
                        } by {
                            let oid = target_instance@.entity(bb).rows[rk].id;
                            assert(pre.entity(a).has_row(oid));
                            let k = pre.entity(a).row_index(oid);
                            assert(pre.entity(a).rows[k].id == oid);
                            assert(result@.entity(a).rows[k].id == oid);
                            assert(result@.entity(a).has_row(oid));
                            let k2 = result@.entity(a).row_index(oid);
                            assert(result@.entity(a).rows[k2].id == oid);
                            assert(k2 == k);
                        }
                        // Other entities are untouched.
                        assert forall|i: int|
                            0 <= i < result@.data.len() && i != idx implies result@.data[i]
                            == pre.data[i] by {}
                        assert forall|pj: int| 0 <= pj < pi implies {
                            let ap = (#[trigger] mapping@.node_mapping[pj]).0;
                            ap != a && result@.entity_index(ap) == pre.entity_index(ap)
                                && result@.entity(ap) == pre.entity(ap)
                        } by {
                            let ap = mapping@.node_mapping[pj].0;
                            assert(source_schema@.has_node(ap));
                            assert(pre.has_entity(ap)) by {
                                let k = choose|k: int|
                                    0 <= k < source_schema@.nodes.len() && source_schema@.nodes[k]
                                        == ap;
                                assert(pre.data[k].0 == ap);
                            }
                            let k = pre.entity_index(ap);
                            assert(pre.data[k].0 == ap);
                            assert(k != idx);
                            assert(result@.data[k].0 == ap);
                            let k2 = result@.entity_index(ap);
                            assert(result@.data[k2].0 == ap);
                            assert(k2 == k);
                        }
                    }
                    rj += 1;
                }
                proof {
                    assert(result@.entity(a).ids() =~= tids);
                }
            },
        }
        pi += 1;
    }
    result
}


/// The contribution of assignment pair `i` to target entity `b`: all the
/// rows of its source entity, when that pair lands on `b` and the source
/// instance materializes the entity.
pub open spec fn sigma_contrib(
    nm: Seq<(Seq<char>, Seq<char>)>,
    si: InstanceView,
    b: Seq<char>,
    i: int,
) -> int {
    if nm[i].1 == b && si.has_entity(nm[i].0) {
        si.entity(nm[i].0).rows.len() as int
    } else {
        0
    }
}

/// The number of rows that the first `upto` assignment pairs push into
/// target entity `b`.
pub open spec fn sigma_done(
    nm: Seq<(Seq<char>, Seq<char>)>,
    si: InstanceView,
    b: Seq<char>,
    upto: int,
) -> int
    decreases upto,
{
    if upto <= 0 {
        0
    } else {
        sigma_done(nm, si, b, upto - 1) + sigma_contrib(nm, si, b, upto - 1)
    }
}

/// Push counts are non-negative and grow with the prefix.
proof fn lemma_sigma_done_mono(
    nm: Seq<(Seq<char>, Seq<char>)>,
    si: InstanceView,
    b: Seq<char>,
    k: int,
    m: int,
)
    requires
        0 <= k <= m,
    ensures
        0 <= sigma_done(nm, si, b, k) <= sigma_done(nm, si, b, m),
    decreases m,
{
    if m > 0 {
        let kk: int = if k <= m - 1 {
            k
        } else {
            m - 1
        };
        lemma_sigma_done_mono(nm, si, b, kk, m - 1);
    }
}

/// Whether entry `mi` of the edge assignments copies an attribute of
/// source node `a` directly (with an empty foreign-key chain).
pub open spec fn sigma_attr_relevant(mv: MappingView, sv: SchemaView, a: Seq<char>, mi: int) -> bool {
    &&& sv.has_edge(mv.edge_mapping[mi].0)
    &&& sv.edge_named(mv.edge_mapping[mi].0).source() == a
    &&& sv.edge_named(mv.edge_mapping[mi].0).is_attribute()
    &&& mv.edge_mapping[mi].1 is AttrToPath
    &&& mv.edge_mapping[mi].1->AttrToPath_fk_path.len() == 0
}

/// The target attribute name of entry `mi` (meaningful when the entry is
/// an attribute assignment).
pub open spec fn sigma_tattr(mv: MappingView, mi: int) -> Seq<char> {
    mv.edge_mapping[mi].1->AttrToPath_attr_name
}

/// The attribute cells of a pushed row reproduce the source row: for
/// every direct attribute assignment of the source node whose target
/// name no other such assignment also claims, the cell under the target
/// name equals the source cell under the source name.
pub open spec fn sigma_row_match(
    mv: MappingView,
    sv: SchemaView,
    a: Seq<char>,
    sed: EntityDataView,
    sid: RowId,
    trow_attrs: Seq<(Seq<char>, ValueView)>,
) -> bool {
    forall|mi: int|
        0 <= mi < mv.edge_mapping.len() && sigma_attr_relevant(mv, sv, a, mi) && (forall|mj: int|
            0 <= mj < mv.edge_mapping.len() && mj != mi && sigma_attr_relevant(mv, sv, a, mj)
                ==> sigma_tattr(mv, mj) != sigma_tattr(mv, mi)) ==> attr_lookup(
            trow_attrs,
            sigma_tattr(mv, mi),
        ) == sed.attr_value(sid, (#[trigger] mv.edge_mapping[mi]).0)
}

/// The attribute cells of a pushed row carry nothing else: a name that
/// no direct attribute assignment of the source node claims is absent.
pub open spec fn sigma_row_no_extras(
    mv: MappingView,
    sv: SchemaView,
    a: Seq<char>,
    trow_attrs: Seq<(Seq<char>, ValueView)>,
) -> bool {
    forall|n: Seq<char>|
        (forall|mj: int|
            0 <= mj < mv.edge_mapping.len() && sigma_attr_relevant(mv, sv, a, mj) ==> sigma_tattr(
                mv,
                mj,
            ) != n) ==> #[trigger] attr_lookup(trow_attrs, n) is None
}

/// Whether `(pj, rj)` names a row of a mapped source entity.
pub open spec fn sigma_pair_valid(
    nm: Seq<(Seq<char>, Seq<char>)>,
    si: InstanceView,
    pj: int,
    rj: int,
) -> bool {
    0 <= pj < nm.len() && si.has_entity(nm[pj].0) && 0 <= rj < si.entity(nm[pj].0).rows.len()
}

/// Where the row pushed for source row `rj` of pair `pj` stands in its
/// target entity: after the rows of all earlier pairs landing there.
pub open spec fn sigma_row_index(
    nm: Seq<(Seq<char>, Seq<char>)>,
    si: InstanceView,
    pj: int,
    rj: int,
) -> int {
    sigma_done(nm, si, nm[pj].1, pj) + rj
}

/// The pushed row of `(pj, rj)` stands at its fixed position, carries
/// the next sequential identifier, and its attribute cells are exactly
/// the source row's directly mapped attributes.
pub open spec fn sigma_row_attrs_exact(
    mv: MappingView,
    sv: SchemaView,
    si: InstanceView,
    rv: InstanceView,
    pj: int,
    rj: int,
) -> bool {
    let a = mv.node_mapping[pj].0;
    let b = mv.node_mapping[pj].1;
    let k = sigma_row_index(mv.node_mapping, si, pj, rj);
    let oid = si.entity(a).rows[rj].id;
    &&& 0 <= k < rv.entity(b).rows.len()
    &&& rv.entity(b).rows[k].id == k + 1
    &&& sigma_row_match(mv, sv, a, si.entity(a), oid, rv.entity(b).rows[k].attrs)
    &&& sigma_row_no_extras(mv, sv, a, rv.entity(b).rows[k].attrs)
}

/// Whether entry `mi` of the edge assignments is a foreign key of source
/// node `a` whose image path has exactly one edge: the case sigma
/// installs.
pub open spec fn sigma_fk_relevant(mv: MappingView, sv: SchemaView, a: Seq<char>, mi: int) -> bool {
    &&& sv.has_edge(mv.edge_mapping[mi].0)
    &&& sv.edge_named(mv.edge_mapping[mi].0).source() == a
    &&& sv.edge_named(mv.edge_mapping[mi].0).is_fk()
    &&& mv.edge_mapping[mi].1 is FkToPath
    &&& mv.edge_mapping[mi].1->FkToPath_0.edges.len() == 1
}

/// The single edge of a length-one image path (meaningful when the
/// entry is `sigma_fk_relevant`).
pub open spec fn sigma_first_edge(mv: MappingView, mi: int) -> Seq<char> {
    mv.edge_mapping[mi].1->FkToPath_0.edges[0]
}

/// The fresh identifier that sigma allocates for source row `oid` of
/// node `node`: its pair's base position plus the row's index, plus one;
/// `None` when the node is unmapped or the row does not exist.
pub open spec fn sigma_new_id(
    nm: Seq<(Seq<char>, Seq<char>)>,
    si: InstanceView,
    node: Seq<char>,
    oid: RowId,
) -> Option<int> {
    if (exists|pj: int| 0 <= pj < nm.len() && (#[trigger] nm[pj]).0 == node) && si.has_entity(
        node,
    ) && si.entity(node).has_row(oid) {
        let pj = choose|pj: int| 0 <= pj < nm.len() && nm[pj].0 == node;
        Some(sigma_done(nm, si, nm[pj].1, pj) + si.entity(node).row_index(oid) + 1)
    } else {
        None
    }
}

/// The foreign-key cell that relevant entry `mi` owes the pushed row of
/// source row `oid`: the translation of the source cell's target, when
/// both the cell and the translation exist.
pub open spec fn sigma_fk_expected(
    mv: MappingView,
    sv: SchemaView,
    si: InstanceView,
    a: Seq<char>,
    oid: RowId,
    mi: int,
) -> Option<int> {
    match si.entity(a).fk_value(oid, mv.edge_mapping[mi].0) {
        Some(ot) => sigma_new_id(
            mv.node_mapping,
            si,
            sv.edge_named(mv.edge_mapping[mi].0).fk_target(),
            ot,
        ),
        None => None,
    }
}

/// The foreign-key cells of a pushed row are fully determined: every
/// relevant assignment whose image edge name no other relevant
/// assignment also uses stores exactly its owed cell, and a name that no
/// relevant assignment uses is absent.
pub open spec fn sigma_fks_done(
    mv: MappingView,
    sv: SchemaView,
    si: InstanceView,
    a: Seq<char>,
    oid: RowId,
    fks: Seq<(Seq<char>, RowId)>,
) -> bool {
    &&& forall|mi: int|
        0 <= mi < mv.edge_mapping.len() && #[trigger] sigma_fk_relevant(mv, sv, a, mi) && (forall|
            mj: int,
        |
            0 <= mj < mv.edge_mapping.len() && mj != mi && sigma_fk_relevant(mv, sv, a, mj)
                ==> sigma_first_edge(mv, mj) != sigma_first_edge(mv, mi)) ==> fk_lookup(
            fks,
            sigma_first_edge(mv, mi),
        ) == (match sigma_fk_expected(mv, sv, si, a, oid, mi) {
            Some(t) => Some(t as RowId),
            None => None::<RowId>,
        })
    &&& forall|n: Seq<char>|
        (forall|mi: int|
            0 <= mi < mv.edge_mapping.len() && #[trigger] sigma_fk_relevant(mv, sv, a, mi)
                ==> sigma_first_edge(mv, mi) != n) ==> #[trigger] fk_lookup(fks, n) is None
}

/// The pushed row of `(pj, rj)` carries exactly its owed foreign keys.
pub open spec fn sigma_row_fks_exact(
    mv: MappingView,
    sv: SchemaView,
    si: InstanceView,
    rv: InstanceView,
    pj: int,
    rj: int,
) -> bool {
    let a = mv.node_mapping[pj].0;
    let b = mv.node_mapping[pj].1;
    let k = sigma_row_index(mv.node_mapping, si, pj, rj);
    let oid = si.entity(a).rows[rj].id;
    &&& 0 <= k < rv.entity(b).rows.len()
    &&& sigma_fks_done(mv, sv, si, a, oid, rv.entity(b).rows[k].fks)
}

/// The character-level content of the translation table.
pub open spec fn trans_view(tr: Seq<(std::string::String, RowId, RowId)>) -> Seq<
    (Seq<char>, RowId, RowId),
> {
    tr.map_values(|t: (std::string::String, RowId, RowId)| (t.0@, t.1, t.2))
}

/// The first translation recorded for a source node and row, if any.
pub open spec fn trans_find(
    tv: Seq<(Seq<char>, RowId, RowId)>,
    node: Seq<char>,
    oid: RowId,
) -> Option<RowId>
    decreases tv.len(),
{
    if tv.len() == 0 {
        None
    } else if tv[0].0 == node && tv[0].1 == oid {
        Some(tv[0].2)
    } else {
        trans_find(tv.skip(1), node, oid)
    }
}

/// Looking a key up after appending an entry: earlier entries win, and
/// the new entry answers only for its own key.
proof fn lemma_trans_find_push(
    tv: Seq<(Seq<char>, RowId, RowId)>,
    c: (Seq<char>, RowId, RowId),
    node: Seq<char>,
    oid: RowId,
)
    ensures
        trans_find(tv.push(c), node, oid) == (match trans_find(tv, node, oid) {
            Some(v) => Some(v),
            None => if c.0 == node && c.1 == oid {
                Some(c.2)
            } else {
                None
            },
        }),
    decreases tv.len(),
{
    reveal_with_fuel(trans_find, 2);
    if tv.len() == 0 {
        assert(tv.push(c)[0] == c);
        assert(tv.push(c).skip(1) =~= Seq::<(Seq<char>, RowId, RowId)>::empty());
    } else {
        assert(tv.push(c)[0] == tv[0]);
        assert(tv.push(c).skip(1) =~= tv.skip(1).push(c));
        lemma_trans_find_push(tv.skip(1), c, node, oid);
    }
}

/// Looking up a name after an upsert: the upserted name answers with the
/// new target, every other name as before.
proof fn lemma_fk_upsert_lookup(
    cells: Seq<(Seq<char>, RowId)>,
    name: Seq<char>,
    target: RowId,
    n: Seq<char>,
)
    ensures
        fk_lookup(crate::instance::fk_upsert(cells, name, target), n) == (if n == name {
            Some(target)
        } else {
            fk_lookup(cells, n)
        }),
    decreases cells.len(),
{
    reveal_with_fuel(fk_lookup, 2);
    reveal_with_fuel(crate::instance::fk_upsert, 2);
    if cells.len() == 0 {
        assert(crate::instance::fk_upsert(cells, name, target) =~= seq![(name, target)]);
    } else if cells[0].0 == name {
        let up = seq![(name, target)] + cells.skip(1);
        assert(crate::instance::fk_upsert(cells, name, target) == up);
        assert(up[0] == (name, target));
        assert(up.skip(1) =~= cells.skip(1));
    } else {
        let up = seq![cells[0]] + crate::instance::fk_upsert(cells.skip(1), name, target);
        assert(crate::instance::fk_upsert(cells, name, target) == up);
        assert(up[0] == cells[0]);
        assert(up.skip(1) =~= crate::instance::fk_upsert(cells.skip(1), name, target));
        lemma_fk_upsert_lookup(cells.skip(1), name, target, n);
    }
}

/// Builds the attribute cells of the row that sigma pushes for source
/// row `sid` of node `a`.
fn sigma_row_attrs(
    mapping: &Mapping,
    source_schema: &Schema,
    sed: &EntityData,
    sid: RowId,
    a: &str,
) -> (r: Vec<(std::string::String, Value)>)
    requires
        mapping@.wf(),
        source_schema@.wf(),
        sed@.wf(),
    ensures
        sigma_row_match(mapping@, source_schema@, a@, sed@, sid, attrs_view(r@)),
        sigma_row_no_extras(mapping@, source_schema@, a@, attrs_view(r@)),
{
    let mut attrs: Vec<(std::string::String, Value)> = Vec::new();
    let mut mi: usize = 0;
    proof {
        assert(attrs_view(attrs@) =~= Seq::<(Seq<char>, ValueView)>::empty());
    }
    while mi < mapping.edge_mapping.len()
        invariant
            mapping@.wf(),
            source_schema@.wf(),
            sed@.wf(),
            0 <= mi <= mapping.edge_mapping@.len(),
            forall|mj: int|
                0 <= mj < mi && sigma_attr_relevant(mapping@, source_schema@, a@, mj) && (forall|
                    mk: int,
                |
                    0 <= mk < mapping@.edge_mapping.len() && mk != mj && sigma_attr_relevant(
                        mapping@,
                        source_schema@,
                        a@,
                        mk,
                    ) ==> sigma_tattr(mapping@, mk) != sigma_tattr(mapping@, mj)) ==> attr_lookup(
                    attrs_view(attrs@),
                    sigma_tattr(mapping@, mj),
                ) == sed@.attr_value(sid, (#[trigger] mapping@.edge_mapping[mj]).0),
            forall|n: Seq<char>|
                (forall|mj: int|
                    0 <= mj < mi && sigma_attr_relevant(mapping@, source_schema@, a@, mj)
                        ==> sigma_tattr(mapping@, mj) != n) ==> attr_lookup(
                    attrs_view(attrs@),
                    n,
                ) is None,
        decreases mapping.edge_mapping@.len() - mi,
    {
        let ghost entry = mapping@.edge_mapping[mi as int];
        let edge_name = &mapping.edge_mapping[mi].0;
        let em = &mapping.edge_mapping[mi].1;
        proof {
            assert(entry.0 == edge_name@ && entry.1 == em@);
        }
        match source_schema.get_edge(edge_name.as_str()) {
            None => {},
            Some(se) => {
                if str_eq(se.source(), a) {
                    match (se, em) {
                        (Edge::Attribute { .. }, EdgeMapping::AttrToPath { fk_path, attr_name })
                            => {
                            if fk_path.len() == 0 {
                                let ghost pre = attrs_view(attrs@);
                                match sed.get_attr(sid, edge_name.as_str()) {
                                    Some(v) => {
                                        attrs.push((attr_name.clone(), v));
                                        proof {
                                            let ghost c = (
                                                sigma_tattr(mapping@, mi as int),
                                                attrs@.last().1@,
                                            );
                                            assert(attrs_view(attrs@) =~= pre.push(c));
                                            assert forall|n: Seq<char>| true implies attr_lookup(
                                                attrs_view(attrs@),
                                                n,
                                            ) == (match attr_lookup(pre, n) {
                                                Some(v2) => Some(v2),
                                                None => if c.0 == n {
                                                    Some(c.1)
                                                } else {
                                                    None
                                                },
                                            }) by {
                                                lemma_attr_lookup_append(pre, c, n);
                                            }
                                        }
                                    },
                                    None => {},
                                }
                            }
                        },
                        _ => {},
                    }
                }
            },
        }
        mi += 1;
    }
    attrs
}

/// Finds the fresh identifier that the translation table records for a
/// source row: the first matching entry.
fn trans_lookup(
    trans: &Vec<(std::string::String, RowId, RowId)>,
    node: &str,
    old_id: RowId,
) -> (r: Option<RowId>)
    ensures
        r == trans_find(trans_view(trans@), node@, old_id),
{
    let ghost tv = trans_view(trans@);
    let mut i: usize = 0;
    proof {
        assert(tv.skip(0) =~= tv);
    }
    while i < trans.len()
        invariant
            tv == trans_view(trans@),
            0 <= i <= tv.len(),
            trans_find(tv, node@, old_id) == trans_find(tv.skip(i as int), node@, old_id),
        decreases trans@.len() - i,
    {
        proof {
            assert(tv.skip(i as int)[0] == tv[i as int]);
            assert(tv.skip(i as int).skip(1) =~= tv.skip(i as int + 1));
            assert(tv[i as int] == (trans@[i as int].0@, trans@[i as int].1, trans@[i as int].2));
        }
        if str_eq(trans[i].0.as_str(), node) && trans[i].1 == old_id {
            return Some(trans[i].2);
        }
        i += 1;
    }
    proof {
        assert(tv.skip(i as int) =~= Seq::<(Seq<char>, RowId, RowId)>::empty());
    }
    None
}

/// Installs the owed foreign keys on one pushed row: for every relevant
/// foreign-key assignment of the source node, the source cell's target
/// is translated and stored under the image path's single edge; nothing
/// else of the instance changes.
#[verifier::rlimit(100)]
#[verifier::spinoff_prover]
fn sigma_install_row(
    result: &mut Instance,
    mapping: &Mapping,
    source_schema: &Schema,
    sed: &EntityData,
    trans: &Vec<(std::string::String, RowId, RowId)>,
    source_node: &str,
    target_node: &str,
    old_id: RowId,
    nid: RowId,
    Ghost(si): Ghost<InstanceView>,
)
    requires
        mapping@.wf(),
        source_schema@.wf(),
        sed@.wf(),
        si.has_entity(source_node@),
        sed@ == si.entity(source_node@),
        forall|node: Seq<char>, oid: RowId|
            #[trigger] trans_find(trans_view(trans@), node, oid) == (match sigma_new_id(
                mapping@.node_mapping,
                si,
                node,
                oid,
            ) {
                Some(t) => Some(t as RowId),
                None => None::<RowId>,
            }),
        forall|node: Seq<char>, oid: RowId|
            #[trigger] sigma_new_id(mapping@.node_mapping, si, node, oid) matches Some(t) ==> 0 < t
                < RowId::MAX,
        old(result)@.wf(),
        old(result)@.has_entity(target_node@),
        ({
            let ed = old(result)@.entity(target_node@);
            &&& 0 < nid <= ed.rows.len()
            &&& forall|k: int| 0 <= k < ed.rows.len() ==> (#[trigger] ed.rows[k]).id == k + 1
            &&& ed.rows[nid - 1].fks.len() == 0
        }),
    ensures
        final(result)@.wf(),
        final(result)@.name == old(result)@.name,
        final(result)@.schema_name == old(result)@.schema_name,
        final(result)@.data.len() == old(result)@.data.len(),
        forall|i: int|
            0 <= i < old(result)@.data.len() ==> (#[trigger] final(result)@.data[i]).0 == old(
                result,
            )@.data[i].0,
        forall|i: int|
            0 <= i < old(result)@.data.len() && i != old(result)@.entity_index(target_node@)
                ==> (#[trigger] final(result)@.data[i]) == old(result)@.data[i],
        ({
            let pre = old(result)@.entity(target_node@);
            let post = final(result)@.data[old(result)@.entity_index(target_node@)].1;
            &&& post.next_id == pre.next_id
            &&& post.rows.len() == pre.rows.len()
            &&& forall|k: int|
                0 <= k < pre.rows.len() && k != nid - 1 ==> (#[trigger] post.rows[k])
                    == pre.rows[k]
            &&& post.rows[nid - 1].id == nid
            &&& post.rows[nid - 1].attrs == pre.rows[nid - 1].attrs
            &&& sigma_fks_done(
                mapping@,
                source_schema@,
                si,
                source_node@,
                old_id,
                post.rows[nid - 1].fks,
            )
        }),
{
    let ghost mv = mapping@;
    let ghost sv = source_schema@;
    let ghost bb = target_node@;
    let ghost a = source_node@;
    let ghost idx = old(result)@.entity_index(bb);
    let ghost kk = nid - 1;
    proof {
        assert(old(result)@.data[idx].0 == bb);
    }
    let mut mi: usize = 0;
    while mi < mapping.edge_mapping.len()
        invariant
            mapping@.wf(),
            source_schema@.wf(),
            sed@.wf(),
            mv == mapping@,
            sv == source_schema@,
            bb == target_node@,
            a == source_node@,
            si.has_entity(a),
            sed@ == si.entity(a),
            forall|node: Seq<char>, oid: RowId|
                #[trigger] trans_find(trans_view(trans@), node, oid) == (match sigma_new_id(
                    mv.node_mapping,
                    si,
                    node,
                    oid,
                ) {
                    Some(t) => Some(t as RowId),
                    None => None::<RowId>,
                }),
            forall|node: Seq<char>, oid: RowId|
                #[trigger] sigma_new_id(mv.node_mapping, si, node, oid) matches Some(t) ==> 0 < t
                    < RowId::MAX,
            0 <= mi <= mapping.edge_mapping@.len(),
            result@.wf(),
            result@.name == old(result)@.name,
            result@.schema_name == old(result)@.schema_name,
            result@.data.len() == old(result)@.data.len(),
            idx == old(result)@.entity_index(bb),
            0 <= idx < old(result)@.data.len(),
            old(result)@.data[idx].0 == bb,
            forall|i: int|
                0 <= i < old(result)@.data.len() ==> (#[trigger] result@.data[i]).0 == old(
                    result,
                )@.data[i].0,
            forall|i: int|
                0 <= i < old(result)@.data.len() && i != idx ==> (#[trigger] result@.data[i])
                    == old(result)@.data[i],
            ({
                let pre = old(result)@.data[idx].1;
                let post = result@.data[idx].1;
                &&& 0 < nid <= pre.rows.len()
                &&& kk == nid - 1
                &&& (forall|k: int|
                    0 <= k < pre.rows.len() ==> (#[trigger] pre.rows[k]).id == k + 1)
                &&& pre.rows[kk].fks.len() == 0
                &&& post.next_id == pre.next_id
                &&& post.rows.len() == pre.rows.len()
                &&& (forall|k: int|
                    0 <= k < pre.rows.len() && k != kk ==> (#[trigger] post.rows[k])
                        == pre.rows[k])
                &&& post.rows[kk].id == nid
                &&& post.rows[kk].attrs == pre.rows[kk].attrs
                &&& (forall|mi2: int|
                    0 <= mi2 < mi && #[trigger] sigma_fk_relevant(mv, sv, a, mi2) && (forall|
                        mj: int,
                    |
                        0 <= mj < mv.edge_mapping.len() && mj != mi2 && sigma_fk_relevant(
                            mv,
                            sv,
                            a,
                            mj,
                        ) ==> sigma_first_edge(mv, mj) != sigma_first_edge(mv, mi2))
                        ==> fk_lookup(post.rows[kk].fks, sigma_first_edge(mv, mi2)) == (
                    match sigma_fk_expected(mv, sv, si, a, old_id, mi2) {
                        Some(t) => Some(t as RowId),
                        None => None::<RowId>,
                    }))
                &&& (forall|n: Seq<char>|
                    (forall|mi2: int|
                        0 <= mi2 < mi && #[trigger] sigma_fk_relevant(mv, sv, a, mi2)
                            ==> sigma_first_edge(mv, mi2) != n) ==> #[trigger] fk_lookup(
                        post.rows[kk].fks,
                        n,
                    ) is None)
            }),
        decreases mapping.edge_mapping@.len() - mi,
    {
        let ghost entry = mv.edge_mapping[mi as int];
        let edge_name = &mapping.edge_mapping[mi].0;
        let em = &mapping.edge_mapping[mi].1;
        proof {
            assert(entry.0 == edge_name@ && entry.1 == em@);
        }
        let step: Option<RowId> = match source_schema.get_edge(edge_name.as_str()) {
            Some(se) => {
                match (se, em) {
                    (
                        Edge::ForeignKey { target: fk_target, .. },
                        EdgeMapping::FkToPath(path),
                    ) => {
                        if path.edges.len() == 1 && str_eq(se.source(), source_node) {
                            proof {
                                assert(sigma_fk_relevant(mv, sv, a, mi as int));
                                assert(sv.edge_named(entry.0).fk_target() == fk_target@);
                            }
                            match sed.get_fk(old_id, edge_name.as_str()) {
                                Some(old_target) => {
                                    let t = trans_lookup(trans, fk_target.as_str(), old_target);
                                    proof {
                                        assert(si.entity(a).fk_value(old_id, entry.0) == Some(
                                            old_target,
                                        ));
                                        assert(t == (match sigma_fk_expected(
                                            mv,
                                            sv,
                                            si,
                                            a,
                                            old_id,
                                            mi as int,
                                        ) {
                                            Some(t2) => Some(t2 as RowId),
                                            None => None::<RowId>,
                                        }));
                                    }
                                    t
                                },
                                None => {
                                    proof {
                                        assert(si.entity(a).fk_value(old_id, entry.0) is None);
                                        assert(sigma_fk_expected(mv, sv, si, a, old_id, mi as int)
                                            is None);
                                    }
                                    None
                                },
                            }
                        } else {
                            proof {
                                assert(!sigma_fk_relevant(mv, sv, a, mi as int));
                            }
                            None
                        }
                    },
                    _ => {
                        proof {
                            assert(!sigma_fk_relevant(mv, sv, a, mi as int));
                        }
                        None
                    },
                }
            },
            None => {
                proof {
                    assert(!sigma_fk_relevant(mv, sv, a, mi as int));
                }
                None
            },
        };
        match step {
            Some(new_target) => {
                let first_edge = match em {
                    EdgeMapping::FkToPath(path) => path.edges[0].clone(),
                    _ => std::string::String::new(),
                };
                proof {
                    assert(first_edge@ == sigma_first_edge(mv, mi as int));
                }
                let ghost pre2 = result@;
                proof {
                    // The pushed row is present under its identifier.
                    assert(result@.entity_index(bb) == idx) by {
                        assert(result@.data[idx].0 == bb);
                        let k2 = result@.entity_index(bb);
                        assert(result@.data[k2].0 == bb);
                    }
                    assert(result@.entity(bb).rows[kk].id == nid);
                    assert(result@.entity(bb).has_row(nid));
                    assert(result@.entity(bb).row_index(nid) == kk) by {
                        let k2 = result@.entity(bb).row_index(nid);
                        assert(result@.entity(bb).rows[k2].id == nid);
                        if k2 != kk {
                            assert(old(result)@.data[idx].1.rows[k2].id == k2 + 1);
                        }
                    }
                }
                result.set_fk(target_node, nid, first_edge.as_str(), new_target);
                proof {
                    assert(result@.entity_index(bb) == idx) by {
                        assert(result@.data[idx].0 == bb);
                        let k2 = result@.entity_index(bb);
                        assert(result@.data[k2].0 == bb);
                    }
                    assert(pre2.entity_index(bb) == idx) by {
                        assert(pre2.data[idx].0 == bb);
                        let k2 = pre2.entity_index(bb);
                        assert(pre2.data[k2].0 == bb);
                    }
                    assert(result@.data[idx].1.rows == pre2.data[idx].1.rows.update(
                        kk,
                        (RowView {
                            id: nid,
                            attrs: pre2.entity(bb).row(nid).attrs,
                            fks: crate::instance::fk_upsert(
                                pre2.entity(bb).row(nid).fks,
                                first_edge@,
                                new_target,
                            ),
                        }),
                    )) by {
                        assert(pre2.entity(bb).row_index(nid) == kk) by {
                            let k2 = pre2.entity(bb).row_index(nid);
                            assert(pre2.entity(bb).rows[k2].id == nid);
                            if k2 != kk {
                                assert(old(result)@.data[idx].1.rows[k2].id == k2 + 1);
                            }
                        }
                    }
                    let oldfks = pre2.data[idx].1.rows[kk].fks;
                    let newfks = result@.data[idx].1.rows[kk].fks;
                    assert(newfks == crate::instance::fk_upsert(
                        oldfks,
                        first_edge@,
                        new_target,
                    ));
                    assert forall|n: Seq<char>| true implies fk_lookup(newfks, n) == (if n
                        == first_edge@ {
                        Some(new_target)
                    } else {
                        fk_lookup(oldfks, n)
                    }) by {
                        lemma_fk_upsert_lookup(oldfks, first_edge@, new_target, n);
                    }
                }
            },
            None => {},
        }
        proof {
            // The cell owed by this entry now stands, whether or not a
            // write happened.
            if sigma_fk_relevant(mv, sv, a, mi as int) && (forall|mj: int|
                0 <= mj < mv.edge_mapping.len() && mj != mi as int && sigma_fk_relevant(
                    mv,
                    sv,
                    a,
                    mj,
                ) ==> sigma_first_edge(mv, mj) != sigma_first_edge(mv, mi as int)) {
                if step is None {
                    assert(sigma_fk_expected(mv, sv, si, a, old_id, mi as int) is None);
                    assert forall|mi2: int|
                        0 <= mi2 < mi && #[trigger] sigma_fk_relevant(mv, sv, a, mi2)
                            implies sigma_first_edge(mv, mi2) != sigma_first_edge(
                        mv,
                        mi as int,
                    ) by {}
                    assert(fk_lookup(
                        result@.data[idx].1.rows[kk].fks,
                        sigma_first_edge(mv, mi as int),
                    ) is None);
                }
            }
        }
        mi += 1;
    }
    proof {
        assert(sigma_fks_done(
            mv,
            sv,
            si,
            a,
            old_id,
            result@.data[idx].1.rows[kk].fks,
        ));
    }
}

/// Reaching in more pairs never loses rows, and a row of a valid pair
/// stands strictly below the total of any later prefix.
proof fn lemma_sigma_index_lt(
    nm: Seq<(Seq<char>, Seq<char>)>,
    si: InstanceView,
    b: Seq<char>,
    pj: int,
    rk: int,
    pi: int,
)
    requires
        sigma_pair_valid(nm, si, pj, rk),
        nm[pj].1 == b,
        pj < pi <= nm.len(),
    ensures
        0 <= sigma_done(nm, si, b, pj) + rk < sigma_done(nm, si, b, pi),
{
    lemma_sigma_done_mono(nm, si, b, 0, pj);
    assert(sigma_contrib(nm, si, b, pj) == si.entity(nm[pj].0).rows.len() as int);
    assert(sigma_done(nm, si, b, pj + 1) == sigma_done(nm, si, b, pj) + sigma_contrib(
        nm,
        si,
        b,
        pj,
    ));
    lemma_sigma_done_mono(nm, si, b, pj + 1, pi);
}

/// Two distinct valid pairs landing in one target entity use distinct
/// row positions.
proof fn lemma_sigma_index_distinct(
    nm: Seq<(Seq<char>, Seq<char>)>,
    si: InstanceView,
    pj: int,
    rk: int,
    pj2: int,
    rk2: int,
)
    requires
        sigma_pair_valid(nm, si, pj, rk),
        sigma_pair_valid(nm, si, pj2, rk2),
        nm[pj].1 == nm[pj2].1,
        pj != pj2 || rk != rk2,
    ensures
        sigma_row_index(nm, si, pj, rk) != sigma_row_index(nm, si, pj2, rk2),
{
    if pj < pj2 {
        lemma_sigma_index_lt(nm, si, nm[pj].1, pj, rk, pj2);
        lemma_sigma_done_mono(nm, si, nm[pj].1, 0, pj2);
    } else if pj2 < pj {
        lemma_sigma_index_lt(nm, si, nm[pj].1, pj2, rk2, pj);
        lemma_sigma_done_mono(nm, si, nm[pj].1, 0, pj);
    }
}

/// A successful lookup in the translation table is backed by an entry.
proof fn lemma_trans_find_some(tv: Seq<(Seq<char>, RowId, RowId)>, node: Seq<char>, oid: RowId)
    requires
        trans_find(tv, node, oid) is Some,
    ensures
        exists|ti: int|
            0 <= ti < tv.len() && (#[trigger] tv[ti]).0 == node && tv[ti].1 == oid && tv[ti].2
                == trans_find(tv, node, oid)->Some_0,
    decreases tv.len(),
{
    if tv[0].0 == node && tv[0].1 == oid {
        assert(tv[0].0 == node && tv[0].1 == oid && tv[0].2 == trans_find(tv, node, oid)->Some_0);
    } else {
        lemma_trans_find_some(tv.skip(1), node, oid);
        let ti = choose|ti: int|
            0 <= ti < tv.skip(1).len() && (#[trigger] tv.skip(1)[ti]).0 == node && tv.skip(
                1,
            )[ti].1 == oid && tv.skip(1)[ti].2 == trans_find(tv.skip(1), node, oid)->Some_0;
        assert(tv[ti + 1] == tv.skip(1)[ti]);
        assert(tv[ti + 1].0 == node && tv[ti + 1].1 == oid && tv[ti + 1].2 == trans_find(
            tv,
            node,
            oid,
        )->Some_0);
    }
}

/// Sigma: pushes a source-schema instance forward into the target schema.
///
/// Every row of every mapped source entity becomes a fresh row of the
/// image entity, at a fixed position and under the next sequential
/// identifier, carrying exactly its directly mapped attributes; the
/// second pass then installs, for every foreign key whose image path has
/// a single edge, the translation of the source cell's target under that
/// edge, and nothing else.
#[verifier::rlimit(100)]
#[verifier::spinoff_prover]
pub fn sigma(
    mapping: &Mapping,
    source_schema: &Schema,
    target_schema: &Schema,
    source_instance: &Instance,
) -> (r: Instance)
    requires
        mapping@.wf(),
        source_schema@.wf(),
        target_schema@.wf(),
        source_instance@.wf(),
        forall|pi: int|
            0 <= pi < mapping@.node_mapping.len() ==> target_schema@.has_node(
                (#[trigger] mapping@.node_mapping[pi]).1,
            ),
        forall|b: Seq<char>|
            sigma_done(
                mapping@.node_mapping,
                source_instance@,
                b,
                mapping@.node_mapping.len() as int,
            ) < RowId::MAX - 1,
    ensures
        r@.wf(),
        r@.schema_name == target_schema@.name,
        r@.data.len() == target_schema@.nodes.len(),
        forall|i: int|
            0 <= i < target_schema@.nodes.len() ==> (#[trigger] r@.data[i]).0
                == target_schema@.nodes[i],
        forall|i: int|
            0 <= i < r@.data.len() ==> (#[trigger] r@.data[i]).1.rows.len() == sigma_done(
                mapping@.node_mapping,
                source_instance@,
                r@.data[i].0,
                mapping@.node_mapping.len() as int,
            ),
        forall|i: int|
            0 <= i < r@.data.len() ==> (#[trigger] r@.data[i]).1.next_id == r@.data[
                i
            ].1.rows.len() + 1,
        forall|i: int, k: int|
            0 <= i < r@.data.len() && 0 <= k < r@.data[i].1.rows.len() ==> (#[trigger] r@.data[
                i
            ].1.rows[k]).id == k + 1,
        forall|pj: int, rj: int|
            sigma_pair_valid(mapping@.node_mapping, source_instance@, pj, rj)
                ==> #[trigger] sigma_row_attrs_exact(
                mapping@,
                source_schema@,
                source_instance@,
                r@,
                pj,
                rj,
            ),
        forall|pj: int, rj: int|
            sigma_pair_valid(mapping@.node_mapping, source_instance@, pj, rj)
                ==> #[trigger] sigma_row_fks_exact(
                mapping@,
                source_schema@,
                source_instance@,
                r@,
                pj,
                rj,
            ),
{
    let ghost mv = mapping@;
    let ghost sv = source_schema@;
    let ghost nm = mapping@.node_mapping;
    let ghost si = source_instance@;
    let mut name = std::string::String::from_str("sigma_");
    name.append(mapping.name.as_str());
    let mut result = Instance::new(name.as_str(), target_schema);
    let mut trans: Vec<(std::string::String, RowId, RowId)> = Vec::new();
    let mut pi: usize = 0;
    proof {
        assert(trans_view(trans@) =~= Seq::<(Seq<char>, RowId, RowId)>::empty());
    }
    while pi < mapping.node_mapping.len()
        invariant
            mapping@.wf(),
            source_schema@.wf(),
            target_schema@.wf(),
            source_instance@.wf(),
            mv == mapping@,
            sv == source_schema@,
            nm == mapping@.node_mapping,
            si == source_instance@,
            forall|pz: int|
                0 <= pz < nm.len() ==> target_schema@.has_node((#[trigger] nm[pz]).1),
            forall|b: Seq<char>| sigma_done(nm, si, b, nm.len() as int) < RowId::MAX - 1,
            0 <= pi <= nm.len(),
            result@.wf(),
            result@.schema_name == target_schema@.name,
            result@.data.len() == target_schema@.nodes.len(),
            forall|i: int|
                0 <= i < target_schema@.nodes.len() ==> (#[trigger] result@.data[i]).0
                    == target_schema@.nodes[i],
            forall|i: int|
                0 <= i < result@.data.len() ==> (#[trigger] result@.data[i]).1.rows.len()
                    == sigma_done(nm, si, result@.data[i].0, pi as int) && result@.data[
                    i
                ].1.next_id == sigma_done(nm, si, result@.data[i].0, pi as int) + 1,
            forall|i: int, k: int|
                0 <= i < result@.data.len() && 0 <= k < result@.data[i].1.rows.len() ==> (
                #[trigger] result@.data[i].1.rows[k]).id == k + 1,
            forall|i: int, k: int|
                0 <= i < result@.data.len() && 0 <= k < result@.data[i].1.rows.len() ==> (
                #[trigger] result@.data[i].1.rows[k]).fks.len() == 0,
            forall|pj: int, rk: int|
                sigma_pair_valid(nm, si, pj, rk) && pj < pi ==> #[trigger] sigma_row_attrs_exact(
                    mv,
                    sv,
                    si,
                    result@,
                    pj,
                    rk,
                ),
            forall|pj: int, rk: int|
                sigma_pair_valid(nm, si, pj, rk) && pj < pi ==> #[trigger] trans_find(
                    trans_view(trans@),
                    nm[pj].0,
                    si.entity(nm[pj].0).rows[rk].id,
                ) == Some((sigma_done(nm, si, nm[pj].1, pj) + rk + 1) as RowId),
            forall|ti: int|
                0 <= ti < trans_view(trans@).len() ==> ({
                    let e = #[trigger] trans_view(trans@)[ti];
                    &&& (exists|pz: int| 0 <= pz < nm.len() && (#[trigger] nm[pz]).0 == e.0)
                    &&& si.has_entity(e.0)
                    &&& si.entity(e.0).has_row(e.1)
                }),
            forall|pj: int, rk: int|
                sigma_pair_valid(nm, si, pj, rk) && !(pj < pi) ==> #[trigger] trans_find(
                    trans_view(trans@),
                    nm[pj].0,
                    si.entity(nm[pj].0).rows[rk].id,
                ) is None,
        decreases nm.len() - pi,
    {
        let ghost a = nm[pi as int].0;
        let ghost bb = nm[pi as int].1;
        let source_node = &mapping.node_mapping[pi].0;
        let target_node = &mapping.node_mapping[pi].1;
        proof {
            assert(source_node@ == a && target_node@ == bb);
            assert(result@.has_entity(bb)) by {
                let k = choose|k: int|
                    0 <= k < target_schema@.nodes.len() && target_schema@.nodes[k] == bb;
                assert(result@.data[k].0 == bb);
            }
        }
        match source_instance.entity_data(source_node.as_str()) {
            None => {
                proof {
                    assert(!si.has_entity(a));
                    assert forall|i: int| 0 <= i < result@.data.len() implies (
                    #[trigger] result@.data[i]).1.rows.len() == sigma_done(
                        nm,
                        si,
                        result@.data[i].0,
                        pi + 1,
                    ) && result@.data[i].1.next_id == sigma_done(nm, si, result@.data[i].0, pi + 1)
                        + 1 by {
                        assert(sigma_contrib(nm, si, result@.data[i].0, pi as int) == 0);
                    }
                    assert forall|pj: int, rk: int|
                        sigma_pair_valid(nm, si, pj, rk) && pj < pi + 1
                            implies #[trigger] sigma_row_attrs_exact(
                        mv,
                        sv,
                        si,
                        result@,
                        pj,
                        rk,
                    ) by {
                        assert(pj != pi);
                    }
                    assert forall|pj: int, rk: int|
                        sigma_pair_valid(nm, si, pj, rk) && pj < pi + 1
                            implies #[trigger] trans_find(
                        trans_view(trans@),
                        nm[pj].0,
                        si.entity(nm[pj].0).rows[rk].id,
                    ) == Some((sigma_done(nm, si, nm[pj].1, pj) + rk + 1) as RowId) by {
                        assert(pj != pi);
                    }
                }
            },
            Some(sed) => {
                let ghost sedv = si.entity(a);
                proof {
                    assert(sed@ == sedv);
                    assert(sedv.wf()) by {
                        let k = si.entity_index(a);
                        assert(si.data[k].1.wf());
                    }
                }
                let nrows = sed.len();
                let mut rj: usize = 0;
                while rj < nrows
                    invariant
                        mapping@.wf(),
                        source_schema@.wf(),
                        target_schema@.wf(),
                        source_instance@.wf(),
                        mv == mapping@,
                        sv == source_schema@,
                        nm == mapping@.node_mapping,
                        si == source_instance@,
                        forall|pz: int|
                            0 <= pz < nm.len() ==> target_schema@.has_node((#[trigger] nm[pz]).1),
                        forall|b: Seq<char>|
                            sigma_done(nm, si, b, nm.len() as int) < RowId::MAX - 1,
                        0 <= pi < nm.len(),
                        a == nm[pi as int].0,
                        bb == nm[pi as int].1,
                        source_node@ == a,
                        target_node@ == bb,
                        si.has_entity(a),
                        sedv == si.entity(a),
                        sed@ == sedv,
                        sedv.wf(),
                        nrows == sedv.rows.len(),
                        0 <= rj <= nrows,
                        result@.wf(),
                        result@.schema_name == target_schema@.name,
                        result@.data.len() == target_schema@.nodes.len(),
                        forall|i: int|
                            0 <= i < target_schema@.nodes.len() ==> (#[trigger] result@.data[
                                i
                            ]).0 == target_schema@.nodes[i],
                        result@.has_entity(bb),
                        forall|i: int|
                            0 <= i < result@.data.len() ==> (#[trigger] result@.data[
                                i
                            ]).1.rows.len() == sigma_done(nm, si, result@.data[i].0, pi as int) + (
                            if result@.data[i].0 == bb {
                                rj as int
                            } else {
                                0int
                            }) && result@.data[i].1.next_id == sigma_done(
                                nm,
                                si,
                                result@.data[i].0,
                                pi as int,
                            ) + (if result@.data[i].0 == bb {
                                rj as int
                            } else {
                                0int
                            }) + 1,
                        forall|i: int, k: int|
                            0 <= i < result@.data.len() && 0 <= k < result@.data[i].1.rows.len()
                                ==> (#[trigger] result@.data[i].1.rows[k]).id == k + 1,
                        forall|i: int, k: int|
                            0 <= i < result@.data.len() && 0 <= k < result@.data[i].1.rows.len()
                                ==> (#[trigger] result@.data[i].1.rows[k]).fks.len() == 0,
                        forall|pj: int, rk: int|
                            sigma_pair_valid(nm, si, pj, rk) && (pj < pi || (pj == pi && rk
                                < rj)) ==> #[trigger] sigma_row_attrs_exact(
                                mv,
                                sv,
                                si,
                                result@,
                                pj,
                                rk,
                            ),
                        forall|pj: int, rk: int|
                            sigma_pair_valid(nm, si, pj, rk) && (pj < pi || (pj == pi && rk
                                < rj)) ==> #[trigger] trans_find(
                                trans_view(trans@),
                                nm[pj].0,
                                si.entity(nm[pj].0).rows[rk].id,
                            ) == Some((sigma_done(nm, si, nm[pj].1, pj) + rk + 1) as RowId),
                        forall|ti: int|
                            0 <= ti < trans_view(trans@).len() ==> ({
                                let e = #[trigger] trans_view(trans@)[ti];
                                &&& (exists|pz: int|
                                    0 <= pz < nm.len() && (#[trigger] nm[pz]).0 == e.0)
                                &&& si.has_entity(e.0)
                                &&& si.entity(e.0).has_row(e.1)
                            }),
                        forall|pj: int, rk: int|
                            sigma_pair_valid(nm, si, pj, rk) && !(pj < pi || (pj == pi && rk
                                < rj)) ==> #[trigger] trans_find(
                                trans_view(trans@),
                                nm[pj].0,
                                si.entity(nm[pj].0).rows[rk].id,
                            ) is None,
                    decreases nrows - rj,
                {
                    let old_id = sed.rows[rj].id;
                    let cells = sigma_row_attrs(
                        mapping,
                        source_schema,
                        sed,
                        old_id,
                        source_node.as_str(),
                    );
                    let ghost pre = result@;
                    let ghost cellsv = attrs_view(cells@);
                    proof {
                        let idx = pre.entity_index(bb);
                        assert(pre.data[idx].0 == bb);
                        assert(sigma_contrib(nm, si, bb, pi as int) == sedv.rows.len() as int);
                        lemma_sigma_done_mono(nm, si, bb, pi + 1, nm.len() as int);
                        assert(sigma_done(nm, si, bb, pi + 1) == sigma_done(nm, si, bb, pi as int)
                            + sigma_contrib(nm, si, bb, pi as int));
                        assert(pre.entity(bb).next_id < RowId::MAX);
                        assert(sedv.rows[rj as int].id == old_id);
                    }
                    let nid = result.insert(target_node.as_str(), cells, Vec::new());
                    let ghost tvpre = trans_view(trans@);
                    trans.push((source_node.clone(), old_id, nid));
                    proof {
                        let idx = pre.entity_index(bb);
                        assert(result@.entity_index(bb) == idx) by {
                            assert(result@.data[idx].0 == bb);
                            let k2 = result@.entity_index(bb);
                            assert(result@.data[k2].0 == bb);
                        }
                        let oldlen = pre.entity(bb).rows.len() as int;
                        assert(oldlen == sigma_done(nm, si, bb, pi as int) + rj);
                        assert(nid == oldlen + 1);
                        assert(result@.entity(bb).rows.len() == oldlen + 1);
                        assert(forall|k: int|
                            0 <= k < oldlen ==> (#[trigger] result@.entity(bb).rows[k])
                                == pre.entity(bb).rows[k]);
                        assert(result@.entity(bb).rows[oldlen].attrs == cellsv);
                        assert(result@.entity(bb).rows[oldlen].id == nid);
                        assert(result@.entity(bb).rows[oldlen].fks =~= Seq::<
                            (Seq<char>, RowId),
                        >::empty());
                        assert forall|i: int|
                            0 <= i < result@.data.len() && i != idx implies result@.data[i]
                            == pre.data[i] by {}
                        // Every pushed row, old and new, stands exactly.
                        assert forall|pj: int, rk: int|
                            sigma_pair_valid(nm, si, pj, rk) && (pj < pi || (pj == pi && rk < rj
                                + 1)) implies #[trigger] sigma_row_attrs_exact(
                            mv,
                            sv,
                            si,
                            result@,
                            pj,
                            rk,
                        ) by {
                            let b2 = nm[pj].1;
                            let k2 = sigma_row_index(nm, si, pj, rk);
                            if pj == pi && rk == rj {
                                assert(k2 == oldlen);
                                assert(sigma_row_attrs_exact(mv, sv, si, result@, pj, rk));
                            } else {
                                assert(sigma_row_attrs_exact(mv, sv, si, pre, pj, rk));
                                if b2 == bb {
                                    if pj < pi {
                                        lemma_sigma_index_lt(nm, si, bb, pj, rk, pi as int);
                                        assert(k2 < sigma_done(nm, si, bb, pi as int));
                                    }
                                    assert(k2 < oldlen);
                                    assert(result@.entity(bb).rows[k2] == pre.entity(bb).rows[k2]);
                                } else {
                                    assert(pre.has_entity(b2)) by {
                                        let w = choose|w: int|
                                            0 <= w < target_schema@.nodes.len()
                                                && target_schema@.nodes[w] == b2;
                                        assert(pre.data[w].0 == b2);
                                    }
                                    let kidx = pre.entity_index(b2);
                                    assert(pre.data[kidx].0 == b2);
                                    assert(kidx != idx);
                                    assert(result@.data[kidx].0 == b2);
                                    let k3 = result@.entity_index(b2);
                                    assert(result@.data[k3].0 == b2);
                                    assert(k3 == kidx);
                                    assert(result@.entity(b2) == pre.entity(b2));
                                }
                            }
                        }
                        // The translation table answers for every pushed row.
                        assert(trans_view(trans@) =~= tvpre.push((a, old_id, nid)));
                        assert(trans_find(tvpre, a, old_id) is None) by {
                            assert(sigma_pair_valid(nm, si, pi as int, rj as int));
                            assert(si.entity(nm[pi as int].0).rows[rj as int].id == old_id);
                        }
                        assert forall|pj: int, rk: int|
                            sigma_pair_valid(nm, si, pj, rk) && (pj < pi || (pj == pi && rk < rj
                                + 1)) implies #[trigger] trans_find(
                            trans_view(trans@),
                            nm[pj].0,
                            si.entity(nm[pj].0).rows[rk].id,
                        ) == Some((sigma_done(nm, si, nm[pj].1, pj) + rk + 1) as RowId) by {
                            lemma_trans_find_push(
                                tvpre,
                                (a, old_id, nid),
                                nm[pj].0,
                                si.entity(nm[pj].0).rows[rk].id,
                            );
                            if pj == pi && rk == rj {
                                assert(trans_find(trans_view(trans@), a, old_id) == Some(nid));
                                assert(nid == (sigma_done(nm, si, bb, pi as int) + rj
                                    + 1) as RowId);
                            }
                        }
                        assert forall|ti: int|
                            0 <= ti < trans_view(trans@).len() implies ({
                            let e = #[trigger] trans_view(trans@)[ti];
                            &&& (exists|pz: int| 0 <= pz < nm.len() && (#[trigger] nm[pz]).0
                                == e.0)
                            &&& si.has_entity(e.0)
                            &&& si.entity(e.0).has_row(e.1)
                        }) by {
                            if ti < tvpre.len() {
                                assert(trans_view(trans@)[ti] == tvpre[ti]);
                            } else {
                                assert(trans_view(trans@)[ti] == (a, old_id, nid));
                                assert(nm[pi as int].0 == a);
                                assert(si.entity(a).rows[rj as int].id == old_id);
                                assert(si.entity(a).has_row(old_id));
                            }
                        }
                        assert forall|pj: int, rk: int|
                            sigma_pair_valid(nm, si, pj, rk) && !(pj < pi || (pj == pi && rk < rj
                                + 1)) implies #[trigger] trans_find(
                            trans_view(trans@),
                            nm[pj].0,
                            si.entity(nm[pj].0).rows[rk].id,
                        ) is None by {
                            lemma_trans_find_push(
                                tvpre,
                                (a, old_id, nid),
                                nm[pj].0,
                                si.entity(nm[pj].0).rows[rk].id,
                            );
                            assert(trans_find(tvpre, nm[pj].0, si.entity(nm[pj].0).rows[rk].id)
                                is None);
                            if nm[pj].0 == a && si.entity(nm[pj].0).rows[rk].id == old_id {
                                assert(pj == pi) by {
                                    if pj != pi {
                                        assert(nm[pj].0 != nm[pi as int].0);
                                    }
                                }
                                assert(sedv.rows[rk].id == sedv.rows[rj as int].id);
                                assert(rk == rj as int);
                                assert(false);
                            }
                        }
                    }
                    rj += 1;
                }
                proof {
                    assert forall|i: int| 0 <= i < result@.data.len() implies (
                    #[trigger] result@.data[i]).1.rows.len() == sigma_done(
                        nm,
                        si,
                        result@.data[i].0,
                        pi + 1,
                    ) && result@.data[i].1.next_id == sigma_done(nm, si, result@.data[i].0, pi + 1)
                        + 1 by {
                        if result@.data[i].0 == bb {
                            assert(sigma_contrib(nm, si, bb, pi as int) == sedv.rows.len() as int);
                        } else {
                            assert(sigma_contrib(nm, si, result@.data[i].0, pi as int) == 0);
                        }
                    }
                    assert forall|pj: int, rk: int|
                        sigma_pair_valid(nm, si, pj, rk) && pj < pi + 1
                            implies #[trigger] sigma_row_attrs_exact(
                        mv,
                        sv,
                        si,
                        result@,
                        pj,
                        rk,
                    ) by {
                        if pj == pi {
                            assert(rk < sedv.rows.len());
                        }
                    }
                    assert forall|pj: int, rk: int|
                        sigma_pair_valid(nm, si, pj, rk) && pj < pi + 1
                            implies #[trigger] trans_find(
                        trans_view(trans@),
                        nm[pj].0,
                        si.entity(nm[pj].0).rows[rk].id,
                    ) == Some((sigma_done(nm, si, nm[pj].1, pj) + rk + 1) as RowId) by {
                        if pj == pi {
                            assert(rk < sedv.rows.len());
                        }
                    }
                }
            },
        }
        pi += 1;
    }
    // The translation table now answers exactly as the allocation spec.
    proof {
        assert forall|node: Seq<char>, oid: RowId| true implies #[trigger] trans_find(
            trans_view(trans@),
            node,
            oid,
        ) == (match sigma_new_id(nm, si, node, oid) {
            Some(t) => Some(t as RowId),
            None => None::<RowId>,
        }) by {
            if (exists|pj: int| 0 <= pj < nm.len() && (#[trigger] nm[pj]).0 == node)
                && si.has_entity(node) && si.entity(node).has_row(oid) {
                let pjc = choose|pj: int| 0 <= pj < nm.len() && nm[pj].0 == node;
                let rk = si.entity(node).row_index(oid);
                assert(si.entity(node).rows[rk].id == oid);
                assert(sigma_pair_valid(nm, si, pjc, rk));
                assert(trans_find(trans_view(trans@), nm[pjc].0, si.entity(
                    nm[pjc].0,
                ).rows[rk].id) == Some((sigma_done(nm, si, nm[pjc].1, pjc) + rk + 1) as RowId));
            } else {
                if trans_find(trans_view(trans@), node, oid) is Some {
                    lemma_trans_find_some(trans_view(trans@), node, oid);
                    let ti = choose|ti: int|
                        0 <= ti < trans_view(trans@).len() && (#[trigger] trans_view(
                            trans@,
                        )[ti]).0 == node && trans_view(trans@)[ti].1 == oid && trans_view(
                            trans@,
                        )[ti].2 == trans_find(trans_view(trans@), node, oid)->Some_0;
                    assert(trans_view(trans@)[ti].0 == node && trans_view(trans@)[ti].1 == oid);
                    assert(si.has_entity(node));
                    assert(si.entity(node).has_row(oid));
                    assert(false);
                }
            }
        }
        assert forall|node: Seq<char>, oid: RowId| #[trigger] sigma_new_id(
            nm,
            si,
            node,
            oid,
        ) is Some implies 0 < sigma_new_id(nm, si, node, oid)->Some_0 < RowId::MAX by {
            if (exists|pj: int| 0 <= pj < nm.len() && (#[trigger] nm[pj]).0 == node)
                && si.has_entity(node) && si.entity(node).has_row(oid) {
                let pjc = choose|pj: int| 0 <= pj < nm.len() && nm[pj].0 == node;
                let rk = si.entity(node).row_index(oid);
                assert(si.entity(node).rows[rk].id == oid);
                assert(sigma_pair_valid(nm, si, pjc, rk));
                lemma_sigma_index_lt(nm, si, nm[pjc].1, pjc, rk, nm.len() as int);
                lemma_sigma_done_mono(nm, si, nm[pjc].1, 0, pjc);
            }
        }
    }
    // Second pass: install the foreign keys whose image path is a single
    // edge, translating old row identifiers to the fresh ones.
    proof {
        assert forall|pj: int, rk: int|
            sigma_pair_valid(nm, si, pj, rk) && pj >= 0 implies (#[trigger] result@.entity(
            nm[pj].1,
        ).rows[sigma_row_index(nm, si, pj, rk)]).fks.len() == 0 by {
            lemma_sigma_index_lt(nm, si, nm[pj].1, pj, rk, nm.len() as int);
            assert(result@.has_entity(nm[pj].1)) by {
                let w = choose|w: int|
                    0 <= w < target_schema@.nodes.len() && target_schema@.nodes[w] == nm[pj].1;
                assert(result@.data[w].0 == nm[pj].1);
            }
            let idx = result@.entity_index(nm[pj].1);
            assert(result@.data[idx].0 == nm[pj].1);
            assert(result@.data[idx].1.rows.len() == sigma_done(
                nm,
                si,
                nm[pj].1,
                nm.len() as int,
            ));
            assert(result@.data[idx].1.rows[sigma_row_index(nm, si, pj, rk)].fks.len() == 0);
        }
    }
    let mut p2: usize = 0;
    while p2 < mapping.node_mapping.len()
        invariant
            mapping@.wf(),
            source_schema@.wf(),
            target_schema@.wf(),
            source_instance@.wf(),
            mv == mapping@,
            sv == source_schema@,
            nm == mapping@.node_mapping,
            si == source_instance@,
            forall|pz: int|
                0 <= pz < nm.len() ==> target_schema@.has_node((#[trigger] nm[pz]).1),
            forall|b: Seq<char>| sigma_done(nm, si, b, nm.len() as int) < RowId::MAX - 1,
            0 <= p2 <= nm.len(),
            result@.wf(),
            result@.schema_name == target_schema@.name,
            result@.data.len() == target_schema@.nodes.len(),
            forall|i: int|
                0 <= i < target_schema@.nodes.len() ==> (#[trigger] result@.data[i]).0
                    == target_schema@.nodes[i],
            forall|i: int|
                0 <= i < result@.data.len() ==> (#[trigger] result@.data[i]).1.rows.len()
                    == sigma_done(nm, si, result@.data[i].0, nm.len() as int) && result@.data[
                    i
                ].1.next_id == sigma_done(nm, si, result@.data[i].0, nm.len() as int) + 1,
            forall|i: int, k: int|
                0 <= i < result@.data.len() && 0 <= k < result@.data[i].1.rows.len() ==> (
                #[trigger] result@.data[i].1.rows[k]).id == k + 1,
            forall|node: Seq<char>, oid: RowId|
                #[trigger] trans_find(trans_view(trans@), node, oid) == (match sigma_new_id(
                    nm,
                    si,
                    node,
                    oid,
                ) {
                    Some(t) => Some(t as RowId),
                    None => None::<RowId>,
                }),
            forall|node: Seq<char>, oid: RowId|
                #[trigger] sigma_new_id(nm, si, node, oid) matches Some(t) ==> 0 < t
                    < RowId::MAX,
            forall|pj: int, rk: int|
                sigma_pair_valid(nm, si, pj, rk) ==> #[trigger] sigma_row_attrs_exact(
                    mv,
                    sv,
                    si,
                    result@,
                    pj,
                    rk,
                ),
            forall|pj: int, rk: int|
                sigma_pair_valid(nm, si, pj, rk) && pj < p2
                    ==> #[trigger] sigma_row_fks_exact(mv, sv, si, result@, pj, rk),
            forall|pj: int, rk: int|
                sigma_pair_valid(nm, si, pj, rk) && pj >= p2 ==> (#[trigger] result@.entity(
                    nm[pj].1,
                ).rows[sigma_row_index(nm, si, pj, rk)]).fks.len() == 0,
        decreases nm.len() - p2,
    {
        let ghost a = nm[p2 as int].0;
        let ghost bb = nm[p2 as int].1;
        let source_node = &mapping.node_mapping[p2].0;
        let target_node = &mapping.node_mapping[p2].1;
        proof {
            assert(source_node@ == a && target_node@ == bb);
            assert(result@.has_entity(bb)) by {
                let k = choose|k: int|
                    0 <= k < target_schema@.nodes.len() && target_schema@.nodes[k] == bb;
                assert(result@.data[k].0 == bb);
            }
        }
        match source_instance.entity_data(source_node.as_str()) {
            None => {
                proof {
                    assert forall|pj: int, rk: int|
                        sigma_pair_valid(nm, si, pj, rk) && pj < p2 + 1
                            implies #[trigger] sigma_row_fks_exact(mv, sv, si, result@, pj, rk) by {
                        assert(pj != p2);
                    }
                }
            },
            Some(sed) => {
                let ghost sedv = si.entity(a);
                proof {
                    assert(sed@ == sedv);
                    assert(sedv.wf()) by {
                        let k = si.entity_index(a);
                        assert(si.data[k].1.wf());
                    }
                }
                let nrows = sed.len();
                let mut rj: usize = 0;
                while rj < nrows
                    invariant
                        mapping@.wf(),
                        source_schema@.wf(),
                        target_schema@.wf(),
                        source_instance@.wf(),
                        mv == mapping@,
                        sv == source_schema@,
                        nm == mapping@.node_mapping,
                        si == source_instance@,
                        forall|pz: int|
                            0 <= pz < nm.len() ==> target_schema@.has_node((#[trigger] nm[pz]).1),
                        forall|b: Seq<char>|
                            sigma_done(nm, si, b, nm.len() as int) < RowId::MAX - 1,
                        0 <= p2 < nm.len(),
                        a == nm[p2 as int].0,
                        bb == nm[p2 as int].1,
                        source_node@ == a,
                        target_node@ == bb,
                        si.has_entity(a),
                        sedv == si.entity(a),
                        sed@ == sedv,
                        sedv.wf(),
                        nrows == sedv.rows.len(),
                        0 <= rj <= nrows,
                        result@.wf(),
                        result@.has_entity(bb),
                        result@.schema_name == target_schema@.name,
                        result@.data.len() == target_schema@.nodes.len(),
                        forall|i: int|
                            0 <= i < target_schema@.nodes.len() ==> (#[trigger] result@.data[
                                i
                            ]).0 == target_schema@.nodes[i],
                        forall|i: int|
                            0 <= i < result@.data.len() ==> (#[trigger] result@.data[
                                i
                            ]).1.rows.len() == sigma_done(nm, si, result@.data[i].0, nm.len() as int)
                                && result@.data[i].1.next_id == sigma_done(
                                nm,
                                si,
                                result@.data[i].0,
                                nm.len() as int,
                            ) + 1,
                        forall|i: int, k: int|
                            0 <= i < result@.data.len() && 0 <= k < result@.data[i].1.rows.len()
                                ==> (#[trigger] result@.data[i].1.rows[k]).id == k + 1,
                        forall|node: Seq<char>, oid: RowId|
                            #[trigger] trans_find(trans_view(trans@), node, oid) == (
                            match sigma_new_id(nm, si, node, oid) {
                                Some(t) => Some(t as RowId),
                                None => None::<RowId>,
                            }),
                        forall|node: Seq<char>, oid: RowId|
                            #[trigger] sigma_new_id(nm, si, node, oid) matches Some(t) ==> 0 < t
                                < RowId::MAX,
                        forall|pj: int, rk: int|
                            sigma_pair_valid(nm, si, pj, rk)
                                ==> #[trigger] sigma_row_attrs_exact(
                                mv,
                                sv,
                                si,
                                result@,
                                pj,
                                rk,
                            ),
                        forall|pj: int, rk: int|
                            sigma_pair_valid(nm, si, pj, rk) && (pj < p2 || (pj == p2 && rk
                                < rj)) ==> #[trigger] sigma_row_fks_exact(
                                mv,
                                sv,
                                si,
                                result@,
                                pj,
                                rk,
                            ),
                        forall|pj: int, rk: int|
                            sigma_pair_valid(nm, si, pj, rk) && (pj > p2 || (pj == p2 && rk
                                >= rj)) ==> (#[trigger] result@.entity(nm[pj].1).rows[
                                sigma_row_index(nm, si, pj, rk)
                            ]).fks.len() == 0,
                    decreases nrows - rj,
                {
                    let old_id = sed.rows[rj].id;
                    let ghost kk = sigma_row_index(nm, si, p2 as int, rj as int);
                    proof {
                        assert(sedv.rows[rj as int].id == old_id);
                        assert(sigma_pair_valid(nm, si, p2 as int, rj as int));
                    }
                    let found = trans_lookup(&trans, source_node.as_str(), old_id);
                    proof {
                        // The allocation spec answers for this very row.
                        assert(si.entity(a).has_row(old_id));
                        assert(sigma_new_id(nm, si, a, old_id) is Some);
                        let pjc = choose|pj: int| 0 <= pj < nm.len() && nm[pj].0 == a;
                        assert(nm[pjc].0 == nm[p2 as int].0);
                        assert(pjc == p2 as int) by {
                            if pjc != p2 as int {
                                assert(nm[pjc].0 != nm[p2 as int].0);
                            }
                        }
                        assert(si.entity(a).row_index(old_id) == rj as int) by {
                            let k2 = si.entity(a).row_index(old_id);
                            assert(si.entity(a).rows[k2].id == old_id);
                            if k2 != rj as int {
                                assert(sedv.rows[k2].id != sedv.rows[rj as int].id);
                            }
                        }
                        assert(sigma_new_id(nm, si, a, old_id) == Some(kk + 1));
                        assert(found == Some((kk + 1) as RowId));
                        assert(0 < kk + 1 < RowId::MAX);
                    }
                    match found {
                        None => {
                            proof {
                                assert(false);
                            }
                        },
                        Some(nid) => {
                            proof {
                                assert(nid == kk + 1);
                                let idx = result@.entity_index(bb);
                                assert(result@.data[idx].0 == bb);
                                lemma_sigma_index_lt(nm, si, bb, p2 as int, rj as int, nm.len() as int);
                                assert(result@.data[idx].1.rows.len() == sigma_done(
                                    nm,
                                    si,
                                    bb,
                                    nm.len() as int,
                                ));
                                assert(kk < result@.entity(bb).rows.len());
                                assert(result@.entity(nm[p2 as int].1).rows[
                                    sigma_row_index(nm, si, p2 as int, rj as int)
                                ].fks.len() == 0);
                                assert(result@.entity(bb).rows[kk].fks.len() == 0);
                                assert forall|k: int|
                                    0 <= k < result@.entity(bb).rows.len() implies (
                                #[trigger] result@.entity(bb).rows[k]).id == k + 1 by {
                                    assert(result@.data[idx].1.rows[k].id == k + 1);
                                }
                            }
                            let ghost pre = result@;
                            sigma_install_row(
                                &mut result,
                                mapping,
                                source_schema,
                                sed,
                                &trans,
                                source_node.as_str(),
                                target_node.as_str(),
                                old_id,
                                nid,
                                Ghost(si),
                            );
                            proof {
                                let idx = pre.entity_index(bb);
                                assert(pre.data[idx].0 == bb);
                                assert(result@.entity_index(bb) == idx) by {
                                    assert(result@.data[idx].0 == bb);
                                    let k2 = result@.entity_index(bb);
                                    assert(result@.data[k2].0 == bb);
                                }
                                assert forall|i: int|
                                    0 <= i < result@.data.len() && i != idx
                                        implies #[trigger] result@.data[i] == pre.data[i] by {}
                                // The touched row position belongs to this
                                // pair alone.
                                assert forall|pj: int, rk: int|
                                    sigma_pair_valid(nm, si, pj, rk) && !(pj == p2 as int && rk
                                        == rj as int) && nm[pj].1 == bb implies sigma_row_index(
                                    nm,
                                    si,
                                    pj,
                                    rk,
                                ) != kk by {
                                    lemma_sigma_index_distinct(
                                        nm,
                                        si,
                                        pj,
                                        rk,
                                        p2 as int,
                                        rj as int,
                                    );
                                }
                                assert forall|pj: int, rk: int|
                                    sigma_pair_valid(nm, si, pj, rk)
                                        implies #[trigger] sigma_row_attrs_exact(
                                    mv,
                                    sv,
                                    si,
                                    result@,
                                    pj,
                                    rk,
                                ) by {
                                    assert(sigma_row_attrs_exact(mv, sv, si, pre, pj, rk));
                                    let b2 = nm[pj].1;
                                    let k2 = sigma_row_index(nm, si, pj, rk);
                                    if b2 == bb {
                                        if pj == p2 as int && rk == rj as int {
                                            assert(result@.entity(bb).rows[kk].attrs
                                                == pre.entity(bb).rows[kk].attrs);
                                            assert(result@.entity(bb).rows[kk].id == nid);
                                        } else {
                                            assert(k2 != kk);
                                            assert(result@.entity(bb).rows[k2] == pre.entity(
                                                bb,
                                            ).rows[k2]);
                                        }
                                    } else {
                                        assert(pre.has_entity(b2)) by {
                                            let w = choose|w: int|
                                                0 <= w < target_schema@.nodes.len()
                                                    && target_schema@.nodes[w] == b2;
                                            assert(pre.data[w].0 == b2);
                                        }
                                        let kidx = pre.entity_index(b2);
                                        assert(pre.data[kidx].0 == b2);
                                        assert(kidx != idx);
                                        assert(result@.data[kidx].0 == b2);
                                        let k3 = result@.entity_index(b2);
                                        assert(result@.data[k3].0 == b2);
                                        assert(k3 == kidx);
                                        assert(result@.entity(b2) == pre.entity(b2));
                                    }
                                }
                                assert forall|pj: int, rk: int|
                                    sigma_pair_valid(nm, si, pj, rk) && (pj < p2 || (pj
                                        == p2 && rk < rj + 1))
                                        implies #[trigger] sigma_row_fks_exact(
                                    mv,
                                    sv,
                                    si,
                                    result@,
                                    pj,
                                    rk,
                                ) by {
                                    let b2 = nm[pj].1;
                                    let k2 = sigma_row_index(nm, si, pj, rk);
                                    if pj == p2 as int && rk == rj as int {
                                        assert(sigma_fks_done(
                                            mv,
                                            sv,
                                            si,
                                            a,
                                            old_id,
                                            result@.entity(bb).rows[kk].fks,
                                        ));
                                    } else {
                                        assert(sigma_row_fks_exact(mv, sv, si, pre, pj, rk));
                                        if b2 == bb {
                                            assert(k2 != kk);
                                            assert(result@.entity(bb).rows[k2] == pre.entity(
                                                bb,
                                            ).rows[k2]);
                                        } else {
                                            assert(pre.has_entity(b2)) by {
                                                let w = choose|w: int|
                                                    0 <= w < target_schema@.nodes.len()
                                                        && target_schema@.nodes[w] == b2;
                                                assert(pre.data[w].0 == b2);
                                            }
                                            let kidx = pre.entity_index(b2);
                                            assert(pre.data[kidx].0 == b2);
                                            assert(kidx != idx);
                                            assert(result@.data[kidx].0 == b2);
                                            let k3 = result@.entity_index(b2);
                                            assert(result@.data[k3].0 == b2);
                                            assert(k3 == kidx);
                                            assert(result@.entity(b2) == pre.entity(b2));
                                        }
                                    }
                                }
                                assert forall|pj: int, rk: int|
                                    sigma_pair_valid(nm, si, pj, rk) && (pj > p2 || (pj == p2
                                        && rk >= rj + 1)) implies (#[trigger] result@.entity(
                                    nm[pj].1,
                                ).rows[sigma_row_index(nm, si, pj, rk)]).fks.len() == 0 by {
                                    let b2 = nm[pj].1;
                                    let k2 = sigma_row_index(nm, si, pj, rk);
                                    assert(pre.entity(nm[pj].1).rows[sigma_row_index(
                                        nm,
                                        si,
                                        pj,
                                        rk,
                                    )].fks.len() == 0);
                                    if b2 == bb {
                                        assert(k2 != kk);
                                        lemma_sigma_index_lt(nm, si, bb, pj, rk, nm.len() as int);
                                        assert(pre.data[idx].1.rows.len() == sigma_done(
                                            nm,
                                            si,
                                            bb,
                                            nm.len() as int,
                                        ));
                                        assert(k2 < pre.entity(bb).rows.len());
                                        assert(result@.entity(bb).rows[k2] == pre.entity(
                                            bb,
                                        ).rows[k2]);
                                    } else {
                                        assert(pre.has_entity(b2)) by {
                                            let w = choose|w: int|
                                                0 <= w < target_schema@.nodes.len()
                                                    && target_schema@.nodes[w] == b2;
                                            assert(pre.data[w].0 == b2);
                                        }
                                        let kidx = pre.entity_index(b2);
                                        assert(pre.data[kidx].0 == b2);
                                        assert(kidx != idx);
                                        assert(result@.data[kidx].0 == b2);
                                        let k3 = result@.entity_index(b2);
                                        assert(result@.data[k3].0 == b2);
                                        assert(k3 == kidx);
                                        assert(result@.entity(b2) == pre.entity(b2));
                                    }
                                }
                            }
                        },
                    }
                    rj += 1;
                }
                proof {
                    assert forall|pj: int, rk: int|
                        sigma_pair_valid(nm, si, pj, rk) && pj < p2 + 1
                            implies #[trigger] sigma_row_fks_exact(mv, sv, si, result@, pj, rk) by {
                        if pj == p2 {
                            assert(rk < sedv.rows.len());
                        }
                    }
                }
            },
        }
        p2 += 1;
    }
    result
}

} // verus!
