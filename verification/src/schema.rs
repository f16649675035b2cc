//! Schemas: finitely presented categories.
//!
//! A schema lists its entities (nodes), its morphisms (foreign-key edges
//! between entities and attribute edges from an entity into a base sort),
//! and path equations: pairs of paths from a common start node that the
//! data must identify.  Node and edge names are kept unique; adding an
//! edge under an existing name replaces the earlier edge, as a keyed store
//! would.

use vstd::prelude::*;

use crate::text::{names_view, render_dotted, spec_dotted, copy_strings, str_eq};
use crate::typeside::{BaseType, SortView};

verus! {

/// An entity of the schema, identified by its name.
#[derive(Debug, Clone, PartialEq, Eq, Hash)]
pub struct Node {
    pub name: std::string::String,
}

impl View for Node {
    type V = Seq<char>;

    open spec fn view(&self) -> Seq<char> {
        self.name@
    }
}

impl Node {
    pub fn new(name: &str) -> (r: Node)
        ensures
            r@ == name@,
    {
        Node { name: name.to_owned() }
    }
}

/// A morphism of the schema: either a foreign key between two entities or
/// an attribute from an entity into a base sort.
#[derive(Debug, Clone)]
pub enum Edge {
    ForeignKey { name: std::string::String, source: std::string::String, target: std::string::String },
    Attribute { name: std::string::String, source: std::string::String, target: BaseType },
}

/// The mathematical value of an edge.
pub enum EdgeView {
    ForeignKey { name: Seq<char>, source: Seq<char>, target: Seq<char> },
    Attribute { name: Seq<char>, source: Seq<char>, target: SortView },
}

impl View for Edge {
    type V = EdgeView;

    open spec fn view(&self) -> EdgeView {
        match self {
            Edge::ForeignKey { name, source, target } => EdgeView::ForeignKey {
                name: name@,
                source: source@,
                target: target@,
            },
            Edge::Attribute { name, source, target } => EdgeView::Attribute {
                name: name@,
                source: source@,
                target: target@,
            },
        }
    }
}

impl EdgeView {
    /// The edge's name.
    pub open spec fn name(&self) -> Seq<char> {
        match self {
            EdgeView::ForeignKey { name, .. } => *name,
            EdgeView::Attribute { name, .. } => *name,
        }
    }

    /// The entity the edge leaves from.
    pub open spec fn source(&self) -> Seq<char> {
        match self {
            EdgeView::ForeignKey { source, .. } => *source,
            EdgeView::Attribute { source, .. } => *source,
        }
    }

    /// Whether the edge is a foreign key.
    pub open spec fn is_fk(&self) -> bool {
        self is ForeignKey
    }

    /// Whether the edge is an attribute.
    pub open spec fn is_attribute(&self) -> bool {
        self is Attribute
    }

    /// The target entity of a foreign key (meaningful only when `is_fk`).
    pub open spec fn fk_target(&self) -> Seq<char> {
        self->ForeignKey_target
    }

    /// The target sort of an attribute (meaningful only when
    /// `is_attribute`).
    pub open spec fn attr_target(&self) -> SortView {
        self->Attribute_target
    }
}

impl Edge {
    /// Builds a foreign-key edge.
    pub fn fk(name: &str, source: &str, target: &str) -> (r: Edge)
        ensures
            r@ == (EdgeView::ForeignKey { name: name@, source: source@, target: target@ }),
    {
        Edge::ForeignKey {
            name: name.to_owned(),
            source: source.to_owned(),
            target: target.to_owned(),
        }
    }

    /// Builds an attribute edge.
    pub fn attr(name: &str, source: &str, target: BaseType) -> (r: Edge)
        ensures
            r@ == (EdgeView::Attribute { name: name@, source: source@, target: target@ }),
    {
        Edge::Attribute { name: name.to_owned(), source: source.to_owned(), target }
    }

    /// The edge's name.
    pub fn name(&self) -> (r: &str)
        ensures
            r@ == self@.name(),
    {
        match self {
            Edge::ForeignKey { name, .. } => name.as_str(),
            Edge::Attribute { name, .. } => name.as_str(),
        }
    }

    /// The entity the edge leaves from.
    pub fn source(&self) -> (r: &str)
        ensures
            r@ == self@.source(),
    {
        match self {
            Edge::ForeignKey { source, .. } => source.as_str(),
            Edge::Attribute { source, .. } => source.as_str(),
        }
    }

    /// Copies the edge, preserving its view.
    pub fn duplicate(&self) -> (r: Edge)
        ensures
            r@ == self@,
    {
        match self {
            Edge::ForeignKey { name, source, target } => Edge::ForeignKey {
                name: name.clone(),
                source: source.clone(),
                target: target.clone(),
            },
            Edge::Attribute { name, source, target } => Edge::Attribute {
                name: name.clone(),
                source: source.clone(),
                target: target.duplicate(),
            },
        }
    }
}

/// A path: a start entity and a chain of edge names to traverse.
#[derive(Debug, Clone, PartialEq, Eq, Hash)]
pub struct Path {
    pub start: std::string::String,
    pub edges: Vec<std::string::String>,
}

/// The mathematical value of a path.
pub struct PathView {
    pub start: Seq<char>,
    pub edges: Seq<Seq<char>>,
}

impl View for Path {
    type V = PathView;

    open spec fn view(&self) -> PathView {
        PathView { start: self.start@, edges: names_view(self.edges@) }
    }
}

impl PathView {
    /// The rendered form `start.e1.e2...`; an identity path renders as
    /// `id_start`.
    pub open spec fn rendered(&self) -> Seq<char> {
        if self.edges.len() == 0 {
            seq!['i', 'd', '_'] + self.start
        } else {
            spec_dotted(self.start, self.edges)
        }
    }
}

impl Path {
    pub fn new(start: &str, edges: Vec<&str>) -> (r: Path)
        ensures
            r@.start == start@,
            r@.edges == edges@.map_values(|e: &str| e@),
    {
        let ghost target = edges@.map_values(|e: &str| e@);
        let mut owned: Vec<std::string::String> = Vec::new();
        let mut i: usize = 0;
        while i < edges.len()
            invariant
                0 <= i <= edges@.len(),
                target == edges@.map_values(|e: &str| e@),
                owned@.len() == i,
                forall|j: int| 0 <= j < i ==> names_view(owned@)[j] == target[j],
            decreases edges@.len() - i,
        {
            let ghost pre = owned@;
            owned.push(edges[i].to_owned());
            proof {
                assert(owned@.last()@ == edges@[i as int]@);
                assert(forall|j: int| 0 <= j < i ==> names_view(owned@)[j] == names_view(pre)[j]);
                assert(names_view(owned@)[i as int] == target[i as int]);
            }
            i += 1;
        }
        proof {
            assert(names_view(owned@) =~= target);
        }
        Path { start: start.to_owned(), edges: owned }
    }

    /// The identity path at a node: it traverses no edge.
    pub fn identity(node: &str) -> (r: Path)
        ensures
            r@.start == node@,
            r@.edges.len() == 0,
    {
        let r = Path { start: node.to_owned(), edges: Vec::new() };
        proof {
            assert(r@.edges =~= Seq::<Seq<char>>::empty());
        }
        r
    }

    /// Composes two paths: the second is traversed after the first.
    pub fn compose(&self, other: &Path) -> (r: Path)
        ensures
            r@.start == self@.start,
            r@.edges == self@.edges + other@.edges,
    {
        let mut edges = copy_strings(&self.edges);
        let n = edges.len();
        let mut i: usize = 0;
        while i < other.edges.len()
            invariant
                0 <= i <= other.edges@.len(),
                n == self.edges@.len(),
                edges@.len() == n + i,
                edges@.subrange(0, n as int) == self.edges@,
                forall|j: int|
                    0 <= j < i ==> names_view(edges@)[n + j] == #[trigger] names_view(
                        other.edges@,
                    )[j],
            decreases other.edges@.len() - i,
        {
            let ghost pre = edges@;
            edges.push(other.edges[i].clone());
            proof {
                assert(edges@.subrange(0, n as int) =~= pre.subrange(0, n as int));
                assert(edges@.last()@ == other.edges@[i as int]@);
                assert(forall|j: int|
                    0 <= j < i ==> names_view(edges@)[n + j] == #[trigger] names_view(pre)[n + j]);
                assert(names_view(edges@)[n + i] == names_view(other.edges@)[i as int]);
            }
            i += 1;
        }
        proof {
            assert(names_view(edges@) =~= names_view(self.edges@) + names_view(other.edges@));
        }
        Path { start: self.start.clone(), edges }
    }

    /// The number of edges traversed.
    pub fn len(&self) -> (r: usize)
        ensures
            r == self@.edges.len(),
    {
        self.edges.len()
    }

    /// Whether this is an identity path.
    pub fn is_identity(&self) -> (r: bool)
        ensures
            r == (self@.edges.len() == 0),
    {
        self.edges.len() == 0
    }

    /// Renders the path as `start.e1.e2...` (`id_start` for the identity).
    pub fn display(&self) -> (r: std::string::String)
        ensures
            r@ == self@.rendered(),
    {
        if self.edges.len() == 0 {
            let mut out = String::from_str("id_");
            out.append(self.start.as_str());
            proof {
                reveal_strlit("id_");
                assert(out@ =~= seq!['i', 'd', '_'] + self.start@);
            }
            out
        } else {
            render_dotted(self.start.as_str(), &self.edges)
        }
    }

    /// Copies the path, preserving its view.
    pub fn duplicate(&self) -> (r: Path)
        ensures
            r@ == self@,
    {
        Path { start: self.start.clone(), edges: copy_strings(&self.edges) }
    }

    /// Decides view equality of two paths.
    pub fn same_as(&self, other: &Path) -> (r: bool)
        ensures
            r == (self@ == other@),
    {
        if !(self.start == other.start) {
            return false;
        }
        let r = crate::text::str_vec_eq(&self.edges, &other.edges);
        if r {
            proof {
                assert(self@ =~= other@);
            }
        }
        r
    }
}

/// An equational law: two paths from the same start node that every
/// instance must identify.
#[derive(Debug, Clone)]
pub struct PathEquation {
    pub lhs: Path,
    pub rhs: Path,
}

/// The mathematical value of a path equation.
pub struct PathEquationView {
    pub lhs: PathView,
    pub rhs: PathView,
}

impl View for PathEquation {
    type V = PathEquationView;

    open spec fn view(&self) -> PathEquationView {
        PathEquationView { lhs: self.lhs@, rhs: self.rhs@ }
    }
}

impl PathEquation {
    /// Copies the equation, preserving its view.
    pub fn duplicate(&self) -> (r: PathEquation)
        ensures
            r@ == self@,
    {
        PathEquation { lhs: self.lhs.duplicate(), rhs: self.rhs.duplicate() }
    }

    pub fn new(lhs: Path, rhs: Path) -> (r: PathEquation)
        ensures
            r@.lhs == lhs@,
            r@.rhs == rhs@,
    {
        PathEquation { lhs, rhs }
    }
}

/// The mathematical value of a schema.
pub struct SchemaView {
    pub name: Seq<char>,
    pub nodes: Seq<Seq<char>>,
    pub edges: Seq<EdgeView>,
    pub equations: Seq<PathEquationView>,
}

impl SchemaView {
    /// Whether a node of this name is declared.
    pub open spec fn has_node(&self, n: Seq<char>) -> bool {
        self.nodes.contains(n)
    }

    /// Whether an edge of this name is declared.
    pub open spec fn has_edge(&self, n: Seq<char>) -> bool {
        exists|i: int| 0 <= i < self.edges.len() && self.edges[i].name() == n
    }

    /// The index of the edge of this name (meaningful when `has_edge`).
    pub open spec fn edge_index(&self, n: Seq<char>) -> int {
        choose|i: int| 0 <= i < self.edges.len() && self.edges[i].name() == n
    }

    /// The edge of this name (meaningful when `has_edge`).
    pub open spec fn edge_named(&self, n: Seq<char>) -> EdgeView {
        self.edges[self.edge_index(n)]
    }

    /// Node names are unique, and so are edge names.
    pub open spec fn wf(&self) -> bool {
        &&& forall|i: int, j: int|
            0 <= i < j < self.nodes.len() ==> self.nodes[i] != self.nodes[j]
        &&& forall|i: int, j: int|
            0 <= i < j < self.edges.len() ==> self.edges[i].name() != self.edges[j].name()
    }
}

/// A schema: entities, edges, and path equations, under a name.
#[derive(Debug, Clone)]
pub struct Schema {
    pub name: std::string::String,
    pub nodes: Vec<Node>,
    pub edges: Vec<Edge>,
    pub path_equations: Vec<PathEquation>,
}

impl View for Schema {
    type V = SchemaView;

    open spec fn view(&self) -> SchemaView {
        SchemaView {
            name: self.name@,
            nodes: self.nodes@.map_values(|n: Node| n@),
            edges: self.edges@.map_values(|e: Edge| e@),
            equations: self.path_equations@.map_values(|q: PathEquation| q@),
        }
    }
}

impl Schema {
    /// Creates an empty schema.
    pub fn new(name: &str) -> (r: Schema)
        ensures
            r@.name == name@,
            r@.nodes.len() == 0,
            r@.edges.len() == 0,
            r@.equations.len() == 0,
            r@.wf(),
    {
        Schema {
            name: name.to_owned(),
            nodes: Vec::new(),
            edges: Vec::new(),
            path_equations: Vec::new(),
        }
    }

    /// Copies the schema, preserving its view.
    pub fn duplicate(&self) -> (r: Schema)
        ensures
            r@ == self@,
    {
        let mut nodes: Vec<Node> = Vec::new();
        let mut i: usize = 0;
        while i < self.nodes.len()
            invariant
                0 <= i <= self.nodes@.len(),
                nodes@.len() == i,
                forall|j: int| 0 <= j < i ==> (#[trigger] nodes@[j])@ == self@.nodes[j],
            decreases self.nodes@.len() - i,
        {
            nodes.push(Node { name: self.nodes[i].name.clone() });
            i += 1;
        }
        let mut edges: Vec<Edge> = Vec::new();
        let mut e: usize = 0;
        while e < self.edges.len()
            invariant
                0 <= e <= self.edges@.len(),
                edges@.len() == e,
                forall|j: int| 0 <= j < e ==> (#[trigger] edges@[j])@ == self@.edges[j],
            decreases self.edges@.len() - e,
        {
            edges.push(self.edges[e].duplicate());
            e += 1;
        }
        let mut eqs: Vec<PathEquation> = Vec::new();
        let mut q: usize = 0;
        while q < self.path_equations.len()
            invariant
                0 <= q <= self.path_equations@.len(),
                eqs@.len() == q,
                forall|j: int| 0 <= j < q ==> (#[trigger] eqs@[j])@ == self@.equations[j],
            decreases self.path_equations@.len() - q,
        {
            eqs.push(self.path_equations[q].duplicate());
            q += 1;
        }
        let r = Schema { name: self.name.clone(), nodes, edges, path_equations: eqs };
        proof {
            assert(r@.nodes =~= self@.nodes);
            assert(r@.edges =~= self@.edges);
            assert(r@.equations =~= self@.equations);
        }
        r
    }

    /// Whether a node of this name is declared.
    pub fn has_node(&self, name: &str) -> (r: bool)
        ensures
            r == self@.has_node(name@),
    {
        let mut i: usize = 0;
        while i < self.nodes.len()
            invariant
                0 <= i <= self.nodes@.len(),
                forall|j: int| 0 <= j < i ==> self.nodes@[j]@ != name@,
            decreases self.nodes@.len() - i,
        {
            if str_eq(self.nodes[i].name.as_str(), name) {
                assert(self@.nodes[i as int] == name@);
                return true;
            }
            i += 1;
        }
        assert(forall|j: int| 0 <= j < self@.nodes.len() ==> self@.nodes[j] != name@);
        false
    }

    /// Adds a node; adding a name a second time leaves the schema as it
    /// was.
    pub fn add_node(&mut self, name: &str)
        requires
            old(self)@.wf(),
        ensures
            final(self)@.wf(),
            final(self)@.name == old(self)@.name,
            final(self)@.edges == old(self)@.edges,
            final(self)@.equations == old(self)@.equations,
            old(self)@.has_node(name@) ==> final(self)@.nodes == old(self)@.nodes,
            !old(self)@.has_node(name@) ==> final(self)@.nodes == old(self)@.nodes.push(name@),
            final(self)@.has_node(name@),
    {
        if !self.has_node(name) {
            self.nodes.push(Node::new(name));
            proof {
                assert(final(self)@.nodes =~= old(self)@.nodes.push(name@));
                assert(final(self)@.edges =~= old(self)@.edges);
                assert(final(self)@.equations =~= old(self)@.equations);
                assert(final(self)@.nodes.last() == name@);
            }
        }
    }

    /// The index of the edge of this name, if any.
    fn find_edge_index(&self, name: &str) -> (r: Option<usize>)
        ensures
            match r {
                Some(i) => 0 <= i < self@.edges.len() && self@.edges[i as int].name() == name@,
                None => !self@.has_edge(name@),
            },
    {
        let mut i: usize = 0;
        while i < self.edges.len()
            invariant
                0 <= i <= self.edges@.len(),
                forall|j: int| 0 <= j < i ==> self.edges@[j]@.name() != name@,
            decreases self.edges@.len() - i,
        {
            if str_eq(self.edges[i].name(), name) {
                assert(self@.edges[i as int].name() == name@);
                return Some(i);
            }
            i += 1;
        }
        assert(forall|j: int| 0 <= j < self@.edges.len() ==> self@.edges[j].name() != name@);
        None
    }

    /// The edge of this name, if any.
    pub fn get_edge(&self, name: &str) -> (r: Option<&Edge>)
        requires
            self@.wf(),
        ensures
            match r {
                Some(e) => self@.has_edge(name@) && e@ == self@.edge_named(name@),
                None => !self@.has_edge(name@),
            },
    {
        match self.find_edge_index(name) {
            Some(i) => {
                let e = &self.edges[i];
                proof {
                    let k = self@.edge_index(name@);
                    assert(self@.edges[k].name() == name@);
                    assert(k == i as int);
                }
                Some(e)
            },
            None => None,
        }
    }

    /// Stores an edge under its name, replacing any edge that already
    /// carried that name.
    fn upsert_edge(&mut self, edge: Edge)
        requires
            old(self)@.wf(),
        ensures
            final(self)@.wf(),
            final(self)@.name == old(self)@.name,
            final(self)@.nodes == old(self)@.nodes,
            final(self)@.equations == old(self)@.equations,
            old(self)@.has_edge(edge@.name()) ==> final(self)@.edges == old(self)@.edges.update(
                old(self)@.edge_index(edge@.name()),
                edge@,
            ),
            !old(self)@.has_edge(edge@.name()) ==> final(self)@.edges == old(self)@.edges.push(
                edge@,
            ),
            final(self)@.has_edge(edge@.name()),
            final(self)@.edge_named(edge@.name()) == edge@,
    {
        let ghost pre = self@;
        match self.find_edge_index(edge.name()) {
            Some(i) => {
                proof {
                    let k = pre.edge_index(edge@.name());
                    assert(pre.edges[k].name() == edge@.name());
                    assert(k == i as int);
                }
                self.edges.set(i, edge);
                proof {
                    assert(final(self)@.edges =~= pre.edges.update(i as int, edge@));
                    assert(final(self)@.nodes =~= pre.nodes);
                    assert(final(self)@.equations =~= pre.equations);
                    assert(final(self)@.edges[i as int].name() == edge@.name());
                    let k2 = final(self)@.edge_index(edge@.name());
                    assert(final(self)@.edges[k2].name() == edge@.name());
                    assert(k2 == i as int);
                }
            },
            None => {
                self.edges.push(edge);
                proof {
                    let n = pre.edges.len();
                    assert(final(self)@.edges =~= pre.edges.push(edge@));
                    assert(final(self)@.nodes =~= pre.nodes);
                    assert(final(self)@.equations =~= pre.equations);
                    assert(final(self)@.edges[n as int].name() == edge@.name());
                    let k2 = final(self)@.edge_index(edge@.name());
                    assert(final(self)@.edges[k2].name() == edge@.name());
                    assert(k2 == n as int);
                }
            },
        }
    }

    /// Adds a foreign key; both endpoint nodes must already be declared.
    pub fn add_fk(&mut self, name: &str, source: &str, target: &str)
        requires
            old(self)@.wf(),
            old(self)@.has_node(source@),
            old(self)@.has_node(target@),
        ensures
            final(self)@.wf(),
            final(self)@.name == old(self)@.name,
            final(self)@.nodes == old(self)@.nodes,
            final(self)@.equations == old(self)@.equations,
            final(self)@.has_edge(name@),
            final(self)@.edge_named(name@) == (EdgeView::ForeignKey {
                name: name@,
                source: source@,
                target: target@,
            }),
            old(self)@.has_edge(name@) ==> final(self)@.edges == old(self)@.edges.update(
                old(self)@.edge_index(name@),
                (EdgeView::ForeignKey { name: name@, source: source@, target: target@ }),
            ),
            !old(self)@.has_edge(name@) ==> final(self)@.edges == old(self)@.edges.push(
                (EdgeView::ForeignKey { name: name@, source: source@, target: target@ }),
            ),
    {
        self.upsert_edge(Edge::fk(name, source, target));
    }

    /// Adds an attribute; the source node must already be declared.
    pub fn add_attribute(&mut self, name: &str, source: &str, ty: BaseType)
        requires
            old(self)@.wf(),
            old(self)@.has_node(source@),
        ensures
            final(self)@.wf(),
            final(self)@.name == old(self)@.name,
            final(self)@.nodes == old(self)@.nodes,
            final(self)@.equations == old(self)@.equations,
            final(self)@.has_edge(name@),
            final(self)@.edge_named(name@) == (EdgeView::Attribute {
                name: name@,
                source: source@,
                target: ty@,
            }),
            old(self)@.has_edge(name@) ==> final(self)@.edges == old(self)@.edges.update(
                old(self)@.edge_index(name@),
                (EdgeView::Attribute { name: name@, source: source@, target: ty@ }),
            ),
            !old(self)@.has_edge(name@) ==> final(self)@.edges == old(self)@.edges.push(
                (EdgeView::Attribute { name: name@, source: source@, target: ty@ }),
            ),
    {
        self.upsert_edge(Edge::attr(name, source, ty));
    }

    /// Appends a path equation; nothing is checked at insertion time.
    pub fn add_path_equation(&mut self, lhs: Path, rhs: Path)
        requires
            old(self)@.wf(),
        ensures
            final(self)@.wf(),
            final(self)@.name == old(self)@.name,
            final(self)@.nodes == old(self)@.nodes,
            final(self)@.edges == old(self)@.edges,
            final(self)@.equations == old(self)@.equations.push(
                (PathEquationView { lhs: lhs@, rhs: rhs@ }),
            ),
    {
        let ghost pre = self@;
        self.path_equations.push(PathEquation { lhs, rhs });
        proof {
            assert(final(self)@.nodes =~= pre.nodes);
            assert(final(self)@.edges =~= pre.edges);
            assert(final(self)@.equations =~= pre.equations.push(
                final(self).path_equations@.last()@,
            ));
        }
    }

    /// All foreign keys, in declaration order.
    pub fn foreign_keys(&self) -> (r: Vec<Edge>)
        ensures
            r@.map_values(|e: Edge| e@) == self@.edges.filter(|e: EdgeView| e.is_fk()),
    {
        let mut r: Vec<Edge> = Vec::new();
        let mut i: usize = 0;
        while i < self.edges.len()
            invariant
                0 <= i <= self.edges@.len(),
                r@.map_values(|e: Edge| e@) =~= self@.edges.subrange(0, i as int).filter(
                    |e: EdgeView| e.is_fk(),
                ),
            decreases self.edges@.len() - i,
        {
            let ghost prefix = self@.edges.subrange(0, i as int);
            if matches!(&self.edges[i], Edge::ForeignKey { .. }) {
                r.push(self.edges[i].duplicate());
            }
            proof {
                assert(self@.edges.subrange(0, i + 1) =~= prefix.push(self@.edges[i as int]));
                reveal_with_fuel(Seq::filter, 2);
                crate::schema::lemma_filter_push(prefix, self@.edges[i as int], |e: EdgeView| e.is_fk());
                assert(r@.map_values(|e: Edge| e@) =~= self@.edges.subrange(0, i + 1).filter(
                    |e: EdgeView| e.is_fk(),
                ));
            }
            i += 1;
        }
        proof {
            assert(self@.edges.subrange(0, self@.edges.len() as int) =~= self@.edges);
        }
        r
    }

    /// All attributes, in declaration order.
    pub fn attributes(&self) -> (r: Vec<Edge>)
        ensures
            r@.map_values(|e: Edge| e@) == self@.edges.filter(|e: EdgeView| e.is_attribute()),
    {
        let mut r: Vec<Edge> = Vec::new();
        let mut i: usize = 0;
        while i < self.edges.len()
            invariant
                0 <= i <= self.edges@.len(),
                r@.map_values(|e: Edge| e@) =~= self@.edges.subrange(0, i as int).filter(
                    |e: EdgeView| e.is_attribute(),
                ),
            decreases self.edges@.len() - i,
        {
            let ghost prefix = self@.edges.subrange(0, i as int);
            if matches!(&self.edges[i], Edge::Attribute { .. }) {
                r.push(self.edges[i].duplicate());
            }
            proof {
                assert(self@.edges.subrange(0, i + 1) =~= prefix.push(self@.edges[i as int]));
                crate::schema::lemma_filter_push(
                    prefix,
                    self@.edges[i as int],
                    |e: EdgeView| e.is_attribute(),
                );
                assert(r@.map_values(|e: Edge| e@) =~= self@.edges.subrange(0, i + 1).filter(
                    |e: EdgeView| e.is_attribute(),
                ));
            }
            i += 1;
        }
        proof {
            assert(self@.edges.subrange(0, self@.edges.len() as int) =~= self@.edges);
        }
        r
    }

    /// The edges leaving a node, in declaration order.
    pub fn edges_from(&self, node_name: &str) -> (r: Vec<Edge>)
        ensures
            r@.map_values(|e: Edge| e@) == self@.edges.filter(
                |e: EdgeView| e.source() == node_name@,
            ),
    {
        let mut r: Vec<Edge> = Vec::new();
        let mut i: usize = 0;
        while i < self.edges.len()
            invariant
                0 <= i <= self.edges@.len(),
                r@.map_values(|e: Edge| e@) =~= self@.edges.subrange(0, i as int).filter(
                    |e: EdgeView| e.source() == node_name@,
                ),
            decreases self.edges@.len() - i,
        {
            let ghost prefix = self@.edges.subrange(0, i as int);
            if str_eq(self.edges[i].source(), node_name) {
                r.push(self.edges[i].duplicate());
            }
            proof {
                assert(self@.edges.subrange(0, i + 1) =~= prefix.push(self@.edges[i as int]));
                crate::schema::lemma_filter_push(
                    prefix,
                    self@.edges[i as int],
                    |e: EdgeView| e.source() == node_name@,
                );
                assert(r@.map_values(|e: Edge| e@) =~= self@.edges.subrange(0, i + 1).filter(
                    |e: EdgeView| e.source() == node_name@,
                ));
            }
            i += 1;
        }
        proof {
            assert(self@.edges.subrange(0, self@.edges.len() as int) =~= self@.edges);
        }
        r
    }

    /// The foreign keys pointing at a node, in declaration order.
    pub fn fks_targeting(&self, node_name: &str) -> (r: Vec<Edge>)
        ensures
            r@.map_values(|e: Edge| e@) == self@.edges.filter(
                |e: EdgeView| e.is_fk() && e.fk_target() == node_name@,
            ),
    {
        let mut r: Vec<Edge> = Vec::new();
        let mut i: usize = 0;
        while i < self.edges.len()
            invariant
                0 <= i <= self.edges@.len(),
                r@.map_values(|e: Edge| e@) =~= self@.edges.subrange(0, i as int).filter(
                    |e: EdgeView| e.is_fk() && e.fk_target() == node_name@,
                ),
            decreases self.edges@.len() - i,
        {
            let ghost prefix = self@.edges.subrange(0, i as int);
            let hit = match &self.edges[i] {
                Edge::ForeignKey { target, .. } => str_eq(target.as_str(), node_name),
                _ => false,
            };
            if hit {
                r.push(self.edges[i].duplicate());
            }
            proof {
                assert(self@.edges.subrange(0, i + 1) =~= prefix.push(self@.edges[i as int]));
                crate::schema::lemma_filter_push(
                    prefix,
                    self@.edges[i as int],
                    |e: EdgeView| e.is_fk() && e.fk_target() == node_name@,
                );
                assert(r@.map_values(|e: Edge| e@) =~= self@.edges.subrange(0, i + 1).filter(
                    |e: EdgeView| e.is_fk() && e.fk_target() == node_name@,
                ));
            }
            i += 1;
        }
        proof {
            assert(self@.edges.subrange(0, self@.edges.len() as int) =~= self@.edges);
        }
        r
    }

    /// The attributes of a node, in declaration order.
    pub fn attributes_of(&self, node_name: &str) -> (r: Vec<Edge>)
        ensures
            r@.map_values(|e: Edge| e@) == self@.edges.filter(
                |e: EdgeView| e.is_attribute() && e.source() == node_name@,
            ),
    {
        let mut r: Vec<Edge> = Vec::new();
        let mut i: usize = 0;
        while i < self.edges.len()
            invariant
                0 <= i <= self.edges@.len(),
                r@.map_values(|e: Edge| e@) =~= self@.edges.subrange(0, i as int).filter(
                    |e: EdgeView| e.is_attribute() && e.source() == node_name@,
                ),
            decreases self.edges@.len() - i,
        {
            let ghost prefix = self@.edges.subrange(0, i as int);
            let hit = match &self.edges[i] {
                Edge::Attribute { source, .. } => str_eq(source.as_str(), node_name),
                _ => false,
            };
            if hit {
                r.push(self.edges[i].duplicate());
            }
            proof {
                assert(self@.edges.subrange(0, i + 1) =~= prefix.push(self@.edges[i as int]));
                crate::schema::lemma_filter_push(
                    prefix,
                    self@.edges[i as int],
                    |e: EdgeView| e.is_attribute() && e.source() == node_name@,
                );
                assert(r@.map_values(|e: Edge| e@) =~= self@.edges.subrange(0, i + 1).filter(
                    |e: EdgeView| e.is_attribute() && e.source() == node_name@,
                ));
            }
            i += 1;
        }
        proof {
            assert(self@.edges.subrange(0, self@.edges.len() as int) =~= self@.edges);
        }
        r
    }
}

/// Filtering a sequence extended by one element keeps the filtered prefix
/// and appends the element exactly when it satisfies the predicate.
pub proof fn lemma_filter_push(s: Seq<EdgeView>, e: EdgeView, p: spec_fn(EdgeView) -> bool)
    ensures
        p(e) ==> s.push(e).filter(p) == s.filter(p).push(e),
        !p(e) ==> s.push(e).filter(p) == s.filter(p),
{
    reveal_with_fuel(Seq::filter, 2);
    assert(s.push(e).drop_last() =~= s);
    assert(s.push(e).last() == e);
}

} // verus!
