//! Mappings: functors between two schemas.
//!
//! A mapping sends every node of its source schema to a node of its
//! target schema, every foreign key to a path of foreign keys in the
//! target, and every attribute to a (possibly empty) chain of foreign
//! keys followed by a target attribute.  Data migrations are driven by
//! these assignments.

use vstd::prelude::*;

use crate::schema::{Path, PathView, Schema, SchemaView};
use crate::text::{names_view, str_eq};

verus! {

/// Where one source edge goes: a foreign key becomes a path of target
/// foreign keys; an attribute becomes a chain of target foreign keys
/// ending in a target attribute.
#[derive(Debug, Clone)]
pub enum EdgeMapping {
    FkToPath(Path),
    AttrToPath { fk_path: Vec<std::string::String>, attr_name: std::string::String },
}

/// The mathematical value of an edge assignment.
pub enum EdgeMappingView {
    FkToPath(PathView),
    AttrToPath { fk_path: Seq<Seq<char>>, attr_name: Seq<char> },
}

impl View for EdgeMapping {
    type V = EdgeMappingView;

    open spec fn view(&self) -> EdgeMappingView {
        match self {
            EdgeMapping::FkToPath(p) => EdgeMappingView::FkToPath(p@),
            EdgeMapping::AttrToPath { fk_path, attr_name } => EdgeMappingView::AttrToPath {
                fk_path: names_view(fk_path@),
                attr_name: attr_name@,
            },
        }
    }
}

impl EdgeMapping {
    /// Copies the assignment, preserving its view.
    pub fn duplicate(&self) -> (r: EdgeMapping)
        ensures
            r@ == self@,
    {
        match self {
            EdgeMapping::FkToPath(p) => EdgeMapping::FkToPath(p.duplicate()),
            EdgeMapping::AttrToPath { fk_path, attr_name } => EdgeMapping::AttrToPath {
                fk_path: crate::text::copy_strings(fk_path),
                attr_name: attr_name.clone(),
            },
        }
    }
}

/// The mathematical value of a mapping.
pub struct MappingView {
    pub name: Seq<char>,
    pub source_schema_name: Seq<char>,
    pub target_schema_name: Seq<char>,
    pub node_mapping: Seq<(Seq<char>, Seq<char>)>,
    pub edge_mapping: Seq<(Seq<char>, EdgeMappingView)>,
}

impl MappingView {
    /// Whether this source node has an image.
    pub open spec fn maps_node(&self, n: Seq<char>) -> bool {
        exists|i: int| 0 <= i < self.node_mapping.len() && self.node_mapping[i].0 == n
    }

    /// The index of a source node's assignment (meaningful when
    /// `maps_node`).
    pub open spec fn node_index(&self, n: Seq<char>) -> int {
        choose|i: int| 0 <= i < self.node_mapping.len() && self.node_mapping[i].0 == n
    }

    /// The image of a source node (meaningful when `maps_node`).
    pub open spec fn node_image(&self, n: Seq<char>) -> Seq<char> {
        self.node_mapping[self.node_index(n)].1
    }

    /// Whether this source edge has an assignment.
    pub open spec fn maps_edge(&self, e: Seq<char>) -> bool {
        exists|i: int| 0 <= i < self.edge_mapping.len() && self.edge_mapping[i].0 == e
    }

    /// The index of a source edge's assignment (meaningful when
    /// `maps_edge`).
    pub open spec fn edge_index(&self, e: Seq<char>) -> int {
        choose|i: int| 0 <= i < self.edge_mapping.len() && self.edge_mapping[i].0 == e
    }

    /// The assignment of a source edge (meaningful when `maps_edge`).
    pub open spec fn edge_image(&self, e: Seq<char>) -> EdgeMappingView {
        self.edge_mapping[self.edge_index(e)].1
    }

    /// Assignment keys are unique.
    pub open spec fn wf(&self) -> bool {
        &&& forall|i: int, j: int|
            0 <= i < j < self.node_mapping.len() ==> self.node_mapping[i].0
                != self.node_mapping[j].0
        &&& forall|i: int, j: int|
            0 <= i < j < self.edge_mapping.len() ==> self.edge_mapping[i].0
                != self.edge_mapping[j].0
    }

    /// Every node and every edge of the source schema has an assignment.
    pub open spec fn complete_for(&self, sv: SchemaView) -> bool {
        &&& forall|i: int| 0 <= i < sv.nodes.len() ==> self.maps_node(#[trigger] sv.nodes[i])
        &&& forall|i: int|
            0 <= i < sv.edges.len() ==> self.maps_edge((#[trigger] sv.edges[i]).name())
    }

    /// One edge assignment is consistent with the schemas: the named
    /// edge exists in the source; a foreign key maps to a foreign-key
    /// path anchored at the image of its source node, with both endpoint
    /// nodes mapped; an attribute maps to an attribute chain with its
    /// source node mapped.
    pub open spec fn edge_entry_ok(&self, sv: SchemaView, entry: (Seq<char>, EdgeMappingView)) -> bool {
        &&& sv.has_edge(entry.0)
        &&& {
            let e = sv.edge_named(entry.0);
            if e.is_fk() {
                &&& self.maps_node(e.source())
                &&& self.maps_node(e.fk_target())
                &&& entry.1 is FkToPath
                &&& entry.1->FkToPath_0.start == self.node_image(e.source())
            } else {
                &&& self.maps_node(e.source())
                &&& entry.1 is AttrToPath
            }
        }
    }

    /// The mapping is a plausible functor presentation: complete, with
    /// every node image present in the target schema and every edge
    /// assignment consistent.
    pub open spec fn valid_for(&self, sv: SchemaView, tv: SchemaView) -> bool {
        &&& self.complete_for(sv)
        &&& forall|i: int|
            0 <= i < self.node_mapping.len() ==> tv.has_node(
                (#[trigger] self.node_mapping[i]).1,
            )
        &&& forall|i: int|
            0 <= i < self.edge_mapping.len() ==> self.edge_entry_ok(
                sv,
                #[trigger] self.edge_mapping[i],
            )
    }
}

/// The expansion of an edge chain through a mapping: every edge of the
/// chain must be assigned a foreign-key path, and the image paths are
/// concatenated in order; `None` when some edge is unassigned or
/// assigned as an attribute.
pub open spec fn expand_fk_chain(g: MappingView, edges: Seq<Seq<char>>) -> Option<Seq<Seq<char>>>
    decreases edges.len(),
{
    if edges.len() == 0 {
        Some(Seq::empty())
    } else if !g.maps_edge(edges[0]) {
        None
    } else {
        match g.edge_image(edges[0]) {
            EdgeMappingView::FkToPath(p) => match expand_fk_chain(g, edges.skip(1)) {
                Some(rest) => Some(p.edges + rest),
                None => None,
            },
            _ => None,
        }
    }
}

/// Whether the composition of `f` before `g` is defined: the schemas
/// agree by name, every node image of `f` is mapped by `g`, every
/// foreign-key image of `f` expands edge by edge through `g`, and every
/// attribute image of `f` expands with its final attribute mapped as an
/// attribute by `g`.
pub open spec fn compose_defined(f: MappingView, g: MappingView) -> bool {
    &&& f.target_schema_name == g.source_schema_name
    &&& forall|i: int|
        0 <= i < f.node_mapping.len() ==> g.maps_node((#[trigger] f.node_mapping[i]).1)
    &&& forall|i: int|
        0 <= i < f.edge_mapping.len() ==> edge_image_composable(
            g,
            (#[trigger] f.edge_mapping[i]).1,
        )
}

/// Whether one edge image expands through `g`: a foreign-key path edge
/// by edge, an attribute chain likewise with its final attribute mapped
/// as an attribute.
pub open spec fn edge_image_composable(g: MappingView, em: EdgeMappingView) -> bool {
    match em {
        EdgeMappingView::FkToPath(p) => expand_fk_chain(g, p.edges) is Some,
        EdgeMappingView::AttrToPath { fk_path, attr_name } => {
            &&& expand_fk_chain(g, fk_path) is Some
            &&& g.maps_edge(attr_name)
            &&& g.edge_image(attr_name) is AttrToPath
        },
    }
}

/// The image that the composition assigns to one source edge: a foreign
/// key's path is expanded through `g` (anchored at the image of its
/// start), and an attribute's chain is expanded and extended by the
/// chain of `g`'s image of its final attribute.  Meaningful when the
/// composition is defined.
pub open spec fn composed_image(g: MappingView, em: EdgeMappingView) -> EdgeMappingView {
    match em {
        EdgeMappingView::FkToPath(p) => EdgeMappingView::FkToPath(
            (PathView {
                start: if g.maps_node(p.start) {
                    g.node_image(p.start)
                } else {
                    p.start
                },
                edges: expand_fk_chain(g, p.edges)->Some_0,
            }),
        ),
        EdgeMappingView::AttrToPath { fk_path, attr_name } => EdgeMappingView::AttrToPath {
            fk_path: expand_fk_chain(g, fk_path)->Some_0 + g.edge_image(
                attr_name,
            )->AttrToPath_fk_path,
            attr_name: g.edge_image(attr_name)->AttrToPath_attr_name,
        },
    }
}

/// A mapping between the schemas of the given names.
#[derive(Debug, Clone)]
pub struct Mapping {
    pub name: std::string::String,
    pub source_schema_name: std::string::String,
    pub target_schema_name: std::string::String,
    pub node_mapping: Vec<(std::string::String, std::string::String)>,
    pub edge_mapping: Vec<(std::string::String, EdgeMapping)>,
}

impl View for Mapping {
    type V = MappingView;

    open spec fn view(&self) -> MappingView {
        MappingView {
            name: self.name@,
            source_schema_name: self.source_schema_name@,
            target_schema_name: self.target_schema_name@,
            node_mapping: self.node_mapping@.map_values(
                |p: (std::string::String, std::string::String)| (p.0@, p.1@),
            ),
            edge_mapping: self.edge_mapping@.map_values(
                |p: (std::string::String, EdgeMapping)| (p.0@, p.1@),
            ),
        }
    }
}

impl Mapping {
    /// Creates an empty mapping between two named schemas.
    pub fn new(name: &str, source: &str, target: &str) -> (r: Mapping)
        ensures
            r@.name == name@,
            r@.source_schema_name == source@,
            r@.target_schema_name == target@,
            r@.node_mapping.len() == 0,
            r@.edge_mapping.len() == 0,
            r@.wf(),
    {
        let r = Mapping {
            name: name.to_owned(),
            source_schema_name: source.to_owned(),
            target_schema_name: target.to_owned(),
            node_mapping: Vec::new(),
            edge_mapping: Vec::new(),
        };
        proof {
            assert(r@.node_mapping =~= Seq::<(Seq<char>, Seq<char>)>::empty());
            assert(r@.edge_mapping =~= Seq::<(Seq<char>, EdgeMappingView)>::empty());
        }
        r
    }

    /// The index of a node assignment, if any.
    fn find_node_index(&self, n: &str) -> (r: Option<usize>)
        ensures
            match r {
                Some(i) => 0 <= i < self@.node_mapping.len() && self@.node_mapping[i as int].0
                    == n@,
                None => !self@.maps_node(n@),
            },
    {
        let mut i: usize = 0;
        while i < self.node_mapping.len()
            invariant
                0 <= i <= self.node_mapping@.len(),
                forall|j: int| 0 <= j < i ==> (#[trigger] self@.node_mapping[j]).0 != n@,
            decreases self.node_mapping@.len() - i,
        {
            if str_eq(self.node_mapping[i].0.as_str(), n) {
                assert(self@.node_mapping[i as int].0 == n@);
                return Some(i);
            }
            i += 1;
        }
        None
    }

    /// The index of an edge assignment, if any.
    fn find_edge_index(&self, e: &str) -> (r: Option<usize>)
        ensures
            match r {
                Some(i) => 0 <= i < self@.edge_mapping.len() && self@.edge_mapping[i as int].0
                    == e@,
                None => !self@.maps_edge(e@),
            },
    {
        let mut i: usize = 0;
        while i < self.edge_mapping.len()
            invariant
                0 <= i <= self.edge_mapping@.len(),
                forall|j: int| 0 <= j < i ==> (#[trigger] self@.edge_mapping[j]).0 != e@,
            decreases self.edge_mapping@.len() - i,
        {
            if str_eq(self.edge_mapping[i].0.as_str(), e) {
                assert(self@.edge_mapping[i as int].0 == e@);
                return Some(i);
            }
            i += 1;
        }
        None
    }

    /// The image of a source node, if assigned.
    pub fn node_image(&self, n: &str) -> (r: Option<std::string::String>)
        requires
            self@.wf(),
        ensures
            match r {
                Some(img) => self@.maps_node(n@) && img@ == self@.node_image(n@),
                None => !self@.maps_node(n@),
            },
    {
        match self.find_node_index(n) {
            Some(i) => {
                proof {
                    let k = self@.node_index(n@);
                    assert(self@.node_mapping[k].0 == n@);
                    assert(k == i as int);
                }
                Some(self.node_mapping[i].1.clone())
            },
            None => None,
        }
    }

    /// The assignment of a source edge, if any.
    pub fn edge_image(&self, e: &str) -> (r: Option<&EdgeMapping>)
        requires
            self@.wf(),
        ensures
            match r {
                Some(em) => self@.maps_edge(e@) && em@ == self@.edge_image(e@),
                None => !self@.maps_edge(e@),
            },
    {
        match self.find_edge_index(e) {
            Some(i) => {
                proof {
                    let k = self@.edge_index(e@);
                    assert(self@.edge_mapping[k].0 == e@);
                    assert(k == i as int);
                }
                Some(&self.edge_mapping[i].1)
            },
            None => None,
        }
    }

    /// Assigns a target node to a source node, replacing any earlier
    /// assignment of that source node.
    pub fn map_node(&mut self, source: &str, target: &str)
        requires
            old(self)@.wf(),
        ensures
            final(self)@.wf(),
            final(self)@.name == old(self)@.name,
            final(self)@.source_schema_name == old(self)@.source_schema_name,
            final(self)@.target_schema_name == old(self)@.target_schema_name,
            final(self)@.edge_mapping == old(self)@.edge_mapping,
            old(self)@.maps_node(source@) ==> final(self)@.node_mapping
                == old(self)@.node_mapping.update(
                old(self)@.node_index(source@),
                (source@, target@),
            ),
            !old(self)@.maps_node(source@) ==> final(self)@.node_mapping
                == old(self)@.node_mapping.push((source@, target@)),
            final(self)@.maps_node(source@),
            final(self)@.node_image(source@) == target@,
    {
        let ghost pre = self@;
        let entry = (source.to_owned(), target.to_owned());
        match self.find_node_index(source) {
            Some(i) => {
                proof {
                    let k = pre.node_index(source@);
                    assert(pre.node_mapping[k].0 == source@);
                    assert(k == i as int);
                }
                self.node_mapping.set(i, entry);
                proof {
                    assert(final(self)@.node_mapping =~= pre.node_mapping.update(
                        i as int,
                        (source@, target@),
                    ));
                    assert(final(self)@.edge_mapping =~= pre.edge_mapping);
                    assert(final(self)@.node_mapping[i as int].0 == source@);
                    let k2 = final(self)@.node_index(source@);
                    assert(final(self)@.node_mapping[k2].0 == source@);
                    assert(k2 == i as int);
                }
            },
            None => {
                self.node_mapping.push(entry);
                proof {
                    let n = pre.node_mapping.len();
                    assert(final(self)@.node_mapping =~= pre.node_mapping.push(
                        (source@, target@),
                    ));
                    assert(final(self)@.edge_mapping =~= pre.edge_mapping);
                    assert(final(self)@.node_mapping[n as int].0 == source@);
                    let k2 = final(self)@.node_index(source@);
                    assert(final(self)@.node_mapping[k2].0 == source@);
                    assert(k2 == n as int);
                }
            },
        }
    }

    /// Stores an edge assignment under a source-edge name, replacing any
    /// earlier assignment of that name.
    pub(crate) fn upsert_edge_mapping(&mut self, source_edge: &str, em: EdgeMapping)
        requires
            old(self)@.wf(),
        ensures
            final(self)@.wf(),
            final(self)@.name == old(self)@.name,
            final(self)@.source_schema_name == old(self)@.source_schema_name,
            final(self)@.target_schema_name == old(self)@.target_schema_name,
            final(self)@.node_mapping == old(self)@.node_mapping,
            old(self)@.maps_edge(source_edge@) ==> final(self)@.edge_mapping
                == old(self)@.edge_mapping.update(
                old(self)@.edge_index(source_edge@),
                (source_edge@, em@),
            ),
            !old(self)@.maps_edge(source_edge@) ==> final(self)@.edge_mapping
                == old(self)@.edge_mapping.push((source_edge@, em@)),
            final(self)@.maps_edge(source_edge@),
            final(self)@.edge_image(source_edge@) == em@,
    {
        let ghost pre = self@;
        let ghost emv = em@;
        let entry = (source_edge.to_owned(), em);
        match self.find_edge_index(source_edge) {
            Some(i) => {
                proof {
                    let k = pre.edge_index(source_edge@);
                    assert(pre.edge_mapping[k].0 == source_edge@);
                    assert(k == i as int);
                }
                self.edge_mapping.set(i, entry);
                proof {
                    assert(final(self)@.edge_mapping =~= pre.edge_mapping.update(
                        i as int,
                        (source_edge@, emv),
                    ));
                    assert(final(self)@.node_mapping =~= pre.node_mapping);
                    assert(final(self)@.edge_mapping[i as int].0 == source_edge@);
                    let k2 = final(self)@.edge_index(source_edge@);
                    assert(final(self)@.edge_mapping[k2].0 == source_edge@);
                    assert(k2 == i as int);
                }
            },
            None => {
                self.edge_mapping.push(entry);
                proof {
                    let n = pre.edge_mapping.len();
                    assert(final(self)@.edge_mapping =~= pre.edge_mapping.push(
                        (source_edge@, emv),
                    ));
                    assert(final(self)@.node_mapping =~= pre.node_mapping);
                    assert(final(self)@.edge_mapping[n as int].0 == source_edge@);
                    let k2 = final(self)@.edge_index(source_edge@);
                    assert(final(self)@.edge_mapping[k2].0 == source_edge@);
                    assert(k2 == n as int);
                }
            },
        }
    }

    /// Sends a source foreign key to a path of target foreign keys.
    pub fn map_fk(&mut self, source_fk: &str, target_path: Path)
        requires
            old(self)@.wf(),
        ensures
            final(self)@.wf(),
            final(self)@.name == old(self)@.name,
            final(self)@.source_schema_name == old(self)@.source_schema_name,
            final(self)@.target_schema_name == old(self)@.target_schema_name,
            final(self)@.node_mapping == old(self)@.node_mapping,
            final(self)@.maps_edge(source_fk@),
            final(self)@.edge_image(source_fk@) == EdgeMappingView::FkToPath(target_path@),
            old(self)@.maps_edge(source_fk@) ==> final(self)@.edge_mapping
                == old(self)@.edge_mapping.update(
                old(self)@.edge_index(source_fk@),
                (source_fk@, EdgeMappingView::FkToPath(target_path@)),
            ),
            !old(self)@.maps_edge(source_fk@) ==> final(self)@.edge_mapping
                == old(self)@.edge_mapping.push(
                (source_fk@, EdgeMappingView::FkToPath(target_path@)),
            ),
    {
        self.upsert_edge_mapping(source_fk, EdgeMapping::FkToPath(target_path));
    }

    /// Sends a source attribute to a chain of target foreign keys ending
    /// in a target attribute.
    pub fn map_attr(&mut self, source_attr: &str, fk_path: Vec<&str>, target_attr: &str)
        requires
            old(self)@.wf(),
        ensures
            final(self)@.wf(),
            final(self)@.name == old(self)@.name,
            final(self)@.source_schema_name == old(self)@.source_schema_name,
            final(self)@.target_schema_name == old(self)@.target_schema_name,
            final(self)@.node_mapping == old(self)@.node_mapping,
            final(self)@.maps_edge(source_attr@),
            final(self)@.edge_image(source_attr@) == (EdgeMappingView::AttrToPath {
                fk_path: fk_path@.map_values(|e: &str| e@),
                attr_name: target_attr@,
            }),
            old(self)@.maps_edge(source_attr@) ==> final(self)@.edge_mapping
                == old(self)@.edge_mapping.update(
                old(self)@.edge_index(source_attr@),
                (
                    source_attr@,
                    (EdgeMappingView::AttrToPath {
                        fk_path: fk_path@.map_values(|e: &str| e@),
                        attr_name: target_attr@,
                    }),
                ),
            ),
            !old(self)@.maps_edge(source_attr@) ==> final(self)@.edge_mapping
                == old(self)@.edge_mapping.push(
                (
                    source_attr@,
                    (EdgeMappingView::AttrToPath {
                        fk_path: fk_path@.map_values(|e: &str| e@),
                        attr_name: target_attr@,
                    }),
                ),
            ),
    {
        let ghost want = fk_path@.map_values(|e: &str| e@);
        let mut owned: Vec<std::string::String> = Vec::new();
        let mut i: usize = 0;
        while i < fk_path.len()
            invariant
                0 <= i <= fk_path@.len(),
                want == fk_path@.map_values(|e: &str| e@),
                owned@.len() == i,
                forall|j: int| 0 <= j < i ==> names_view(owned@)[j] == want[j],
            decreases fk_path@.len() - i,
        {
            let ghost pre = owned@;
            owned.push(fk_path[i].to_owned());
            proof {
                assert(owned@.last()@ == fk_path@[i as int]@);
                assert(forall|j: int| 0 <= j < i ==> names_view(owned@)[j] == names_view(pre)[j]);
            }
            i += 1;
        }
        proof {
            assert(names_view(owned@) =~= want);
        }
        self.upsert_edge_mapping(
            source_attr,
            EdgeMapping::AttrToPath { fk_path: owned, attr_name: target_attr.to_owned() },
        );
    }

    /// Sends a source attribute directly to a target attribute on the
    /// image node (no foreign-key chain).
    pub fn map_attr_direct(&mut self, source_attr: &str, target_attr: &str)
        requires
            old(self)@.wf(),
        ensures
            final(self)@.wf(),
            final(self)@.name == old(self)@.name,
            final(self)@.source_schema_name == old(self)@.source_schema_name,
            final(self)@.target_schema_name == old(self)@.target_schema_name,
            final(self)@.node_mapping == old(self)@.node_mapping,
            final(self)@.maps_edge(source_attr@),
            final(self)@.edge_image(source_attr@) == (EdgeMappingView::AttrToPath {
                fk_path: Seq::<Seq<char>>::empty(),
                attr_name: target_attr@,
            }),
            old(self)@.maps_edge(source_attr@) ==> final(self)@.edge_mapping
                == old(self)@.edge_mapping.update(
                old(self)@.edge_index(source_attr@),
                (
                    source_attr@,
                    (EdgeMappingView::AttrToPath {
                        fk_path: Seq::<Seq<char>>::empty(),
                        attr_name: target_attr@,
                    }),
                ),
            ),
            !old(self)@.maps_edge(source_attr@) ==> final(self)@.edge_mapping
                == old(self)@.edge_mapping.push(
                (
                    source_attr@,
                    (EdgeMappingView::AttrToPath {
                        fk_path: Seq::<Seq<char>>::empty(),
                        attr_name: target_attr@,
                    }),
                ),
            ),
    {
        let owned: Vec<std::string::String> = Vec::new();
        proof {
            assert(names_view(owned@) =~= Seq::<Seq<char>>::empty());
        }
        self.upsert_edge_mapping(
            source_attr,
            EdgeMapping::AttrToPath { fk_path: owned, attr_name: target_attr.to_owned() },
        );
    }

    /// Whether every node and edge of the source schema is assigned.
    pub fn is_complete(&self, source_schema: &Schema) -> (r: bool)
        ensures
            r == self@.complete_for(source_schema@),
    {
        let mut i: usize = 0;
        while i < source_schema.nodes.len()
            invariant
                0 <= i <= source_schema.nodes@.len(),
                forall|j: int| 0 <= j < i ==> self@.maps_node(#[trigger] source_schema@.nodes[j]),
            decreases source_schema.nodes@.len() - i,
        {
            match self.find_node_index(source_schema.nodes[i].name.as_str()) {
                Some(k) => {
                    proof {
                        assert(self@.maps_node(source_schema@.nodes[i as int]));
                    }
                },
                None => {
                    proof {
                        assert(!self@.maps_node(source_schema@.nodes[i as int]));
                    }
                    return false;
                },
            }
            i += 1;
        }
        let mut e: usize = 0;
        while e < source_schema.edges.len()
            invariant
                0 <= e <= source_schema.edges@.len(),
                forall|j: int| 0 <= j < i ==> self@.maps_node(#[trigger] source_schema@.nodes[j]),
                i == source_schema.nodes@.len(),
                forall|j: int|
                    0 <= j < e ==> self@.maps_edge((#[trigger] source_schema@.edges[j]).name()),
            decreases source_schema.edges@.len() - e,
        {
            match self.find_edge_index(source_schema.edges[e].name()) {
                Some(k) => {
                    proof {
                        assert(self@.maps_edge(source_schema@.edges[e as int].name()));
                    }
                },
                None => {
                    proof {
                        assert(!self@.maps_edge(source_schema@.edges[e as int].name()));
                    }
                    return false;
                },
            }
            e += 1;
        }
        true
    }

    /// Checks that the mapping is complete and consistent for the two
    /// schemas; `Ok` is returned exactly when it is.
    pub fn validate(&self, source: &Schema, target: &Schema) -> (r: Result<
        (),
        std::string::String,
    >)
        requires
            self@.wf(),
            source@.wf(),
            target@.wf(),
        ensures
            r is Ok <==> self@.valid_for(source@, target@),
    {
        if !self.is_complete(source) {
            return Err(std::string::String::from_str(
                "mapping is not complete: some nodes or edges of the source schema are unmapped",
            ));
        }
        let mut i: usize = 0;
        while i < self.node_mapping.len()
            invariant
                self@.wf(),
                source@.wf(),
                target@.wf(),
                self@.complete_for(source@),
                0 <= i <= self.node_mapping@.len(),
                forall|j: int|
                    0 <= j < i ==> target@.has_node((#[trigger] self@.node_mapping[j]).1),
            decreases self.node_mapping@.len() - i,
        {
            if !target.has_node(self.node_mapping[i].1.as_str()) {
                proof {
                    assert(!target@.has_node(self@.node_mapping[i as int].1));
                }
                return Err(std::string::String::from_str(
                    "a mapped target node does not exist in the target schema",
                ));
            }
            i += 1;
        }
        let mut e: usize = 0;
        while e < self.edge_mapping.len()
            invariant
                self@.wf(),
                source@.wf(),
                target@.wf(),
                self@.complete_for(source@),
                forall|j: int|
                    0 <= j < self@.node_mapping.len() ==> target@.has_node(
                        (#[trigger] self@.node_mapping[j]).1,
                    ),
                0 <= e <= self.edge_mapping@.len(),
                forall|j: int|
                    0 <= j < e ==> self@.edge_entry_ok(source@, #[trigger] self@.edge_mapping[j]),
            decreases self.edge_mapping@.len() - e,
        {
            let edge_name = &self.edge_mapping[e].0;
            let em = &self.edge_mapping[e].1;
            let ghost entry = self@.edge_mapping[e as int];
            let source_edge = match source.get_edge(edge_name.as_str()) {
                Some(se) => se,
                None => {
                    proof {
                        assert(!self@.edge_entry_ok(source@, entry));
                    }
                    return Err(std::string::String::from_str(
                        "a mapped edge does not exist in the source schema",
                    ));
                },
            };
            match source_edge {
                crate::schema::Edge::ForeignKey { source: src, target: tgt, .. } => {
                    let mapped_src = match self.node_image(src.as_str()) {
                        Some(m) => m,
                        None => {
                            proof {
                                assert(!self@.edge_entry_ok(source@, entry));
                            }
                            return Err(std::string::String::from_str(
                                "the source node of a mapped foreign key is unmapped",
                            ));
                        },
                    };
                    match self.node_image(tgt.as_str()) {
                        Some(_) => {},
                        None => {
                            proof {
                                assert(!self@.edge_entry_ok(source@, entry));
                            }
                            return Err(std::string::String::from_str(
                                "the target node of a mapped foreign key is unmapped",
                            ));
                        },
                    }
                    match em {
                        EdgeMapping::FkToPath(path) => {
                            if !str_eq(path.start.as_str(), mapped_src.as_str()) {
                                proof {
                                    assert(!self@.edge_entry_ok(source@, entry));
                                }
                                return Err(std::string::String::from_str(
                                    "a foreign-key image path starts at the wrong node",
                                ));
                            }
                            proof {
                                assert(self@.edge_entry_ok(source@, entry));
                            }
                        },
                        EdgeMapping::AttrToPath { .. } => {
                            proof {
                                assert(!self@.edge_entry_ok(source@, entry));
                            }
                            return Err(std::string::String::from_str(
                                "a foreign key is mapped as an attribute",
                            ));
                        },
                    }
                },
                crate::schema::Edge::Attribute { source: src, .. } => {
                    match self.node_image(src.as_str()) {
                        Some(_) => {},
                        None => {
                            proof {
                                assert(!self@.edge_entry_ok(source@, entry));
                            }
                            return Err(std::string::String::from_str(
                                "the source node of a mapped attribute is unmapped",
                            ));
                        },
                    }
                    match em {
                        EdgeMapping::AttrToPath { .. } => {
                            proof {
                                assert(self@.edge_entry_ok(source@, entry));
                            }
                        },
                        EdgeMapping::FkToPath(_) => {
                            proof {
                                assert(!self@.edge_entry_ok(source@, entry));
                            }
                            return Err(std::string::String::from_str(
                                "an attribute is mapped as a foreign key",
                            ));
                        },
                    }
                },
            }
            e += 1;
        }
        Ok(())
    }
}

} // verus!
