//! Instances: functors from a schema into sets.
//!
//! An instance assigns to every entity a table of rows.  A row has an
//! identifier that is unique within its entity, attribute cells (name to
//! scalar value) and foreign-key cells (name to the identifier of a row of
//! the target entity).  Fresh identifiers come from a monotonic per-entity
//! counter starting at 1.

use vstd::prelude::*;

use crate::schema::{Edge, EdgeView, Schema, SchemaView};
use crate::text::{names_view, str_eq};
use crate::typeside::{Value, ValueView};

verus! {

/// A row identifier, unique within one entity.
pub type RowId = u64;

/// One row: its identifier, attribute cells, and foreign-key cells.
#[derive(Debug, Clone)]
pub struct Row {
    pub id: RowId,
    pub attrs: Vec<(std::string::String, Value)>,
    pub fks: Vec<(std::string::String, RowId)>,
}

/// The mathematical value of a row.
pub struct RowView {
    pub id: RowId,
    pub attrs: Seq<(Seq<char>, ValueView)>,
    pub fks: Seq<(Seq<char>, RowId)>,
}

impl View for Row {
    type V = RowView;

    open spec fn view(&self) -> RowView {
        RowView {
            id: self.id,
            attrs: self.attrs@.map_values(|p: (std::string::String, Value)| (p.0@, p.1@)),
            fks: self.fks@.map_values(|p: (std::string::String, RowId)| (p.0@, p.1)),
        }
    }
}

/// The views of a vector of attribute cells.
pub open spec fn attrs_view(v: Seq<(std::string::String, Value)>) -> Seq<(Seq<char>, ValueView)> {
    v.map_values(|p: (std::string::String, Value)| (p.0@, p.1@))
}

/// The views of a vector of foreign-key cells.
pub open spec fn fks_view(v: Seq<(std::string::String, RowId)>) -> Seq<(Seq<char>, RowId)> {
    v.map_values(|p: (std::string::String, RowId)| (p.0@, p.1))
}

/// The first attribute cell of this name, if any.
pub open spec fn attr_lookup(cells: Seq<(Seq<char>, ValueView)>, name: Seq<char>) -> Option<
    ValueView,
>
    decreases cells.len(),
{
    if cells.len() == 0 {
        None
    } else if cells[0].0 == name {
        Some(cells[0].1)
    } else {
        attr_lookup(cells.skip(1), name)
    }
}

/// The first foreign-key cell of this name, if any.
pub open spec fn fk_lookup(cells: Seq<(Seq<char>, RowId)>, name: Seq<char>) -> Option<RowId>
    decreases cells.len(),
{
    if cells.len() == 0 {
        None
    } else if cells[0].0 == name {
        Some(cells[0].1)
    } else {
        fk_lookup(cells.skip(1), name)
    }
}

/// Foreign-key cells with the cell of this name replaced, or appended when
/// no cell carried the name.
pub open spec fn fk_upsert(
    cells: Seq<(Seq<char>, RowId)>,
    name: Seq<char>,
    target: RowId,
) -> Seq<(Seq<char>, RowId)>
    decreases cells.len(),
{
    if cells.len() == 0 {
        seq![(name, target)]
    } else if cells[0].0 == name {
        seq![(name, target)] + cells.skip(1)
    } else {
        seq![cells[0]] + fk_upsert(cells.skip(1), name, target)
    }
}

/// The table of one entity: its rows and the fresh-identifier counter.
#[derive(Debug, Clone)]
pub struct EntityData {
    pub next_id: RowId,
    pub rows: Vec<Row>,
}

/// The mathematical value of an entity table.
pub struct EntityDataView {
    pub next_id: RowId,
    pub rows: Seq<RowView>,
}

impl View for EntityData {
    type V = EntityDataView;

    open spec fn view(&self) -> EntityDataView {
        EntityDataView { next_id: self.next_id, rows: self.rows@.map_values(|r: Row| r@) }
    }
}

impl EntityDataView {
    /// Whether a row with this identifier exists.
    pub open spec fn has_row(&self, id: RowId) -> bool {
        exists|i: int| 0 <= i < self.rows.len() && self.rows[i].id == id
    }

    /// The index of the row with this identifier (meaningful when
    /// `has_row`).
    pub open spec fn row_index(&self, id: RowId) -> int {
        choose|i: int| 0 <= i < self.rows.len() && self.rows[i].id == id
    }

    /// The row with this identifier (meaningful when `has_row`).
    pub open spec fn row(&self, id: RowId) -> RowView {
        self.rows[self.row_index(id)]
    }

    /// The attribute cell `name` of row `id`, if both exist.
    pub open spec fn attr_value(&self, id: RowId, name: Seq<char>) -> Option<ValueView> {
        if self.has_row(id) {
            attr_lookup(self.row(id).attrs, name)
        } else {
            None
        }
    }

    /// The foreign-key cell `name` of row `id`, if both exist.
    pub open spec fn fk_value(&self, id: RowId, name: Seq<char>) -> Option<RowId> {
        if self.has_row(id) {
            fk_lookup(self.row(id).fks, name)
        } else {
            None
        }
    }

    /// The row identifiers, in storage order.
    pub open spec fn ids(&self) -> Seq<RowId> {
        self.rows.map_values(|r: RowView| r.id)
    }

    /// The counter starts at 1, identifiers are unique, and every stored
    /// identifier is below the counter.
    pub open spec fn wf(&self) -> bool {
        &&& self.next_id >= 1
        &&& forall|i: int, j: int|
            0 <= i < j < self.rows.len() ==> self.rows[i].id != self.rows[j].id
        &&& forall|i: int| 0 <= i < self.rows.len() ==> #[trigger] self.rows[i].id < self.next_id
    }
}

impl EntityData {
    /// An empty table; the first identifier handed out will be 1.
    pub fn new() -> (r: EntityData)
        ensures
            r@.next_id == 1,
            r@.rows.len() == 0,
            r@.wf(),
    {
        let r = EntityData { next_id: 1, rows: Vec::new() };
        proof {
            assert(r@.rows =~= Seq::<RowView>::empty());
        }
        r
    }

    /// The fresh-identifier counter.
    pub fn next_id(&self) -> (r: RowId)
        ensures
            r == self@.next_id,
    {
        self.next_id
    }

    /// Inserts a row under a fresh identifier and returns it.
    pub fn insert(
        &mut self,
        attrs: Vec<(std::string::String, Value)>,
        fks: Vec<(std::string::String, RowId)>,
    ) -> (r: RowId)
        requires
            old(self)@.next_id < RowId::MAX,
        ensures
            r == old(self)@.next_id,
            final(self)@.next_id == old(self)@.next_id + 1,
            final(self)@.rows == old(self)@.rows.push(
                (RowView { id: r, attrs: attrs_view(attrs@), fks: fks_view(fks@) }),
            ),
            old(self)@.wf() ==> final(self)@.wf(),
    {
        let id = self.next_id;
        self.next_id = id + 1;
        self.rows.push(Row { id, attrs, fks });
        proof {
            assert(final(self)@.rows =~= old(self)@.rows.push(final(self).rows@.last()@));
        }
        id
    }

    /// Inserts a row under an explicit identifier, replacing any row that
    /// carried it, and bumps the counter past the identifier.
    pub fn insert_with_id(
        &mut self,
        id: RowId,
        attrs: Vec<(std::string::String, Value)>,
        fks: Vec<(std::string::String, RowId)>,
    )
        requires
            old(self)@.wf(),
            id < RowId::MAX,
        ensures
            final(self)@.next_id == if id >= old(self)@.next_id {
                (id + 1) as RowId
            } else {
                old(self)@.next_id
            },
            old(self)@.has_row(id) ==> final(self)@.rows == old(self)@.rows.update(
                old(self)@.row_index(id),
                (RowView { id, attrs: attrs_view(attrs@), fks: fks_view(fks@) }),
            ),
            !old(self)@.has_row(id) ==> final(self)@.rows == old(self)@.rows.push(
                (RowView { id, attrs: attrs_view(attrs@), fks: fks_view(fks@) }),
            ),
            final(self)@.wf(),
    {
        let ghost pre = self@;
        if id >= self.next_id {
            self.next_id = id + 1;
        }
        let row = Row { id, attrs, fks };
        match self.find_row_index(id) {
            Some(i) => {
                proof {
                    let k = pre.row_index(id);
                    assert(pre.rows[k].id == id);
                    assert(k == i as int);
                }
                self.rows.set(i, row);
                proof {
                    assert(final(self)@.rows =~= pre.rows.update(i as int, row@));
                }
            },
            None => {
                self.rows.push(row);
                proof {
                    assert(final(self)@.rows =~= pre.rows.push(row@));
                }
            },
        }
    }

    /// The index of the row with this identifier, if any.
    fn find_row_index(&self, id: RowId) -> (r: Option<usize>)
        ensures
            match r {
                Some(i) => 0 <= i < self@.rows.len() && self@.rows[i as int].id == id,
                None => !self@.has_row(id),
            },
    {
        let mut i: usize = 0;
        while i < self.rows.len()
            invariant
                0 <= i <= self.rows@.len(),
                forall|j: int| 0 <= j < i ==> self@.rows[j].id != id,
            decreases self.rows@.len() - i,
        {
            if self.rows[i].id == id {
                assert(self@.rows[i as int].id == id);
                return Some(i);
            }
            i += 1;
        }
        None
    }

    /// The number of rows.
    pub fn len(&self) -> (r: usize)
        ensures
            r == self@.rows.len(),
    {
        self.rows.len()
    }

    /// Whether the table has no rows.
    pub fn is_empty(&self) -> (r: bool)
        ensures
            r == (self@.rows.len() == 0),
    {
        self.rows.len() == 0
    }

    /// Whether a row with this identifier exists.
    pub fn has_row(&self, id: RowId) -> (r: bool)
        ensures
            r == self@.has_row(id),
    {
        match self.find_row_index(id) {
            Some(_) => true,
            None => false,
        }
    }

    /// All row identifiers, in storage order.
    pub fn row_ids(&self) -> (r: Vec<RowId>)
        ensures
            r@ == self@.ids(),
    {
        let mut r: Vec<RowId> = Vec::new();
        let mut i: usize = 0;
        while i < self.rows.len()
            invariant
                0 <= i <= self.rows@.len(),
                r@.len() == i,
                forall|j: int| 0 <= j < i ==> r@[j] == self@.ids()[j],
            decreases self.rows@.len() - i,
        {
            r.push(self.rows[i].id);
            i += 1;
        }
        proof {
            assert(r@ =~= self@.ids());
        }
        r
    }

    /// The value of attribute `attr_name` on row `row_id`, if present.
    pub fn get_attr(&self, row_id: RowId, attr_name: &str) -> (r: Option<Value>)
        requires
            self@.wf(),
        ensures
            match r {
                Some(v) => self@.attr_value(row_id, attr_name@) == Some(v@),
                None => self@.attr_value(row_id, attr_name@) is None,
            },
    {
        match self.find_row_index(row_id) {
            Some(i) => {
                proof {
                    let k = self@.row_index(row_id);
                    assert(self@.rows[k].id == row_id);
                    assert(k == i as int);
                }
                let row = &self.rows[i];
                let ghost cells = self@.rows[i as int].attrs;
                let mut j: usize = 0;
                proof {
                    assert(cells.skip(0) =~= cells);
                }
                while j < row.attrs.len()
                    invariant
                        self@.wf(),
                        0 <= i < self@.rows.len(),
                        self@.rows[i as int].id == row_id,
                        self@.row_index(row_id) == i as int,
                        cells == self@.rows[i as int].attrs,
                        0 <= j <= row.attrs@.len(),
                        cells == attrs_view(row.attrs@),
                        attr_lookup(cells, attr_name@) == attr_lookup(
                            cells.skip(j as int),
                            attr_name@,
                        ),
                    decreases row.attrs@.len() - j,
                {
                    if str_eq(row.attrs[j].0.as_str(), attr_name) {
                        proof {
                            assert(cells[j as int] == (row.attrs@[j as int].0@, row.attrs@[
                                j as int
                            ].1@));
                            assert(cells.skip(j as int)[0] == cells[j as int]);
                            assert(attr_lookup(cells.skip(j as int), attr_name@) == Some(
                                cells[j as int].1,
                            ));
                            assert(self@.has_row(row_id));
                        }
                        return Some(row.attrs[j].1.duplicate());
                    }
                    proof {
                        assert(cells.skip(j as int)[0].0 != attr_name@);
                        assert(cells.skip(j as int).skip(1) =~= cells.skip(j as int + 1));
                    }
                    j += 1;
                }
                proof {
                    assert(cells.skip(j as int) =~= Seq::<(Seq<char>, ValueView)>::empty());
                }
                None
            },
            None => None,
        }
    }

    /// The target of foreign key `fk_name` on row `row_id`, if present.
    pub fn get_fk(&self, row_id: RowId, fk_name: &str) -> (r: Option<RowId>)
        requires
            self@.wf(),
        ensures
            r == self@.fk_value(row_id, fk_name@),
    {
        match self.find_row_index(row_id) {
            Some(i) => {
                proof {
                    let k = self@.row_index(row_id);
                    assert(self@.rows[k].id == row_id);
                    assert(k == i as int);
                }
                let row = &self.rows[i];
                let ghost cells = self@.rows[i as int].fks;
                let mut j: usize = 0;
                proof {
                    assert(cells.skip(0) =~= cells);
                }
                while j < row.fks.len()
                    invariant
                        self@.wf(),
                        0 <= i < self@.rows.len(),
                        self@.rows[i as int].id == row_id,
                        self@.row_index(row_id) == i as int,
                        cells == self@.rows[i as int].fks,
                        0 <= j <= row.fks@.len(),
                        cells == fks_view(row.fks@),
                        fk_lookup(cells, fk_name@) == fk_lookup(cells.skip(j as int), fk_name@),
                    decreases row.fks@.len() - j,
                {
                    if str_eq(row.fks[j].0.as_str(), fk_name) {
                        proof {
                            assert(cells[j as int] == (row.fks@[j as int].0@, row.fks@[
                                j as int
                            ].1));
                            assert(cells.skip(j as int)[0] == cells[j as int]);
                            assert(fk_lookup(cells.skip(j as int), fk_name@) == Some(
                                cells[j as int].1,
                            ));
                            assert(self@.has_row(row_id));
                        }
                        return Some(row.fks[j].1);
                    }
                    proof {
                        assert(cells.skip(j as int)[0].0 != fk_name@);
                        assert(cells.skip(j as int).skip(1) =~= cells.skip(j as int + 1));
                    }
                    j += 1;
                }
                proof {
                    assert(cells.skip(j as int) =~= Seq::<(Seq<char>, RowId)>::empty());
                }
                None
            },
            None => None,
        }
    }

    /// Sets (or overwrites) a foreign-key cell on an existing row.
    pub fn set_fk(&mut self, row_id: RowId, fk_name: &str, target: RowId)
        requires
            old(self)@.wf(),
            old(self)@.has_row(row_id),
        ensures
            final(self)@.wf(),
            final(self)@.next_id == old(self)@.next_id,
            final(self)@.rows == old(self)@.rows.update(
                old(self)@.row_index(row_id),
                (RowView {
                    id: row_id,
                    attrs: old(self)@.row(row_id).attrs,
                    fks: fk_upsert(old(self)@.row(row_id).fks, fk_name@, target),
                }),
            ),
    {
        let ghost pre = self@;
        let i = match self.find_row_index(row_id) {
            Some(i) => i,
            None => {
                proof {
                    assert(false);
                }
                0
            },
        };
        proof {
            let k = pre.row_index(row_id);
            assert(pre.rows[k].id == row_id);
            assert(k == i as int);
        }
        let mut tmp = Row { id: 0, attrs: Vec::new(), fks: Vec::new() };
        self.rows.set_and_swap(i, &mut tmp);
        let Row { id: rid, attrs, fks: mut fks } = tmp;
        let ghost oldcells = fks_view(fks@);
        match fk_cell_index(&fks, fk_name) {
            Some(j) => {
                let ghost prefks = fks@;
                fks.set(j, (fk_name.to_owned(), target));
                proof {
                    lemma_fk_upsert_at(oldcells, fk_name@, target, j as int);
                    assert(fks_view(fks@) =~= oldcells.update(j as int, (fk_name@, target)));
                }
            },
            None => {
                let ghost prefks = fks@;
                fks.push((fk_name.to_owned(), target));
                proof {
                    lemma_fk_upsert_missing(oldcells, fk_name@, target);
                    assert(fks_view(fks@) =~= oldcells.push((fk_name@, target)));
                }
            },
        }
        let mut back = Row { id: rid, attrs, fks };
        self.rows.set_and_swap(i, &mut back);
        proof {
            assert(final(self)@.rows =~= pre.rows.update(
                i as int,
                (RowView {
                    id: row_id,
                    attrs: pre.row(row_id).attrs,
                    fks: fk_upsert(pre.row(row_id).fks, fk_name@, target),
                }),
            ));
        }
    }
}

/// The first foreign-key cell whose name matches, with everything before
/// it known not to match.
fn fk_cell_index(cells: &Vec<(std::string::String, RowId)>, name: &str) -> (r: Option<usize>)
    ensures
        match r {
            Some(i) => {
                &&& 0 <= i < cells@.len()
                &&& fks_view(cells@)[i as int].0 == name@
                &&& forall|j: int| 0 <= j < i ==> #[trigger] fks_view(cells@)[j].0 != name@
            },
            None => forall|j: int|
                0 <= j < cells@.len() ==> #[trigger] fks_view(cells@)[j].0 != name@,
        },
{
    let mut i: usize = 0;
    while i < cells.len()
        invariant
            0 <= i <= cells@.len(),
            forall|j: int| 0 <= j < i ==> #[trigger] fks_view(cells@)[j].0 != name@,
        decreases cells@.len() - i,
    {
        if str_eq(cells[i].0.as_str(), name) {
            assert(fks_view(cells@)[i as int].0 == name@);
            return Some(i);
        }
        i += 1;
    }
    None
}

/// When the first matching cell sits at index `i`, the upsert replaces
/// exactly that cell.
proof fn lemma_fk_upsert_at(cells: Seq<(Seq<char>, RowId)>, name: Seq<char>, target: RowId, i: int)
    requires
        0 <= i < cells.len(),
        cells[i].0 == name,
        forall|j: int| 0 <= j < i ==> cells[j].0 != name,
    ensures
        fk_upsert(cells, name, target) == cells.update(i, (name, target)),
    decreases i,
{
    if i == 0 {
        assert(fk_upsert(cells, name, target) == seq![(name, target)] + cells.skip(1));
        assert(seq![(name, target)] + cells.skip(1) =~= cells.update(0, (name, target)));
    } else {
        assert(cells[0].0 != name);
        assert(forall|j: int| 0 <= j < i - 1 ==> cells.skip(1)[j].0 != name);
        assert(cells.skip(1)[i - 1] == cells[i]);
        lemma_fk_upsert_at(cells.skip(1), name, target, i - 1);
        assert(fk_upsert(cells, name, target) == seq![cells[0]] + cells.skip(1).update(
            i - 1,
            (name, target),
        ));
        assert(seq![cells[0]] + cells.skip(1).update(i - 1, (name, target)) =~= cells.update(
            i,
            (name, target),
        ));
    }
}

/// When no cell matches, the upsert appends a new cell.
proof fn lemma_fk_upsert_missing(cells: Seq<(Seq<char>, RowId)>, name: Seq<char>, target: RowId)
    requires
        forall|j: int| 0 <= j < cells.len() ==> cells[j].0 != name,
    ensures
        fk_upsert(cells, name, target) == cells.push((name, target)),
    decreases cells.len(),
{
    if cells.len() == 0 {
        assert(fk_upsert(cells, name, target) =~= cells.push((name, target)));
    } else {
        assert(cells[0].0 != name);
        assert(forall|j: int| 0 <= j < cells.len() - 1 ==> cells.skip(1)[j].0 != name);
        lemma_fk_upsert_missing(cells.skip(1), name, target);
        assert(seq![cells[0]] + cells.skip(1).push((name, target)) =~= cells.push(
            (name, target),
        ));
    }
}


/// An instance: one entity table per schema node, under a name, attached
/// to a schema by that schema's name.
#[derive(Debug, Clone)]
pub struct Instance {
    pub name: std::string::String,
    pub schema_name: std::string::String,
    pub data: Vec<(std::string::String, EntityData)>,
}

/// The mathematical value of an instance.
pub struct InstanceView {
    pub name: Seq<char>,
    pub schema_name: Seq<char>,
    pub data: Seq<(Seq<char>, EntityDataView)>,
}

impl View for Instance {
    type V = InstanceView;

    open spec fn view(&self) -> InstanceView {
        InstanceView {
            name: self.name@,
            schema_name: self.schema_name@,
            data: self.data@.map_values(|p: (std::string::String, EntityData)| (p.0@, p.1@)),
        }
    }
}

/// The total number of rows over a sequence of entity tables.
pub open spec fn rows_total(data: Seq<(Seq<char>, EntityDataView)>) -> int
    decreases data.len(),
{
    if data.len() == 0 {
        0
    } else {
        data[0].1.rows.len() + rows_total(data.skip(1))
    }
}

/// A row-count total is never negative.
pub proof fn lemma_rows_total_nonneg(data: Seq<(Seq<char>, EntityDataView)>)
    ensures
        rows_total(data) >= 0,
    decreases data.len(),
{
    if data.len() > 0 {
        lemma_rows_total_nonneg(data.skip(1));
    }
}

impl InstanceView {
    /// Whether an entity table of this name exists.
    pub open spec fn has_entity(&self, n: Seq<char>) -> bool {
        exists|i: int| 0 <= i < self.data.len() && self.data[i].0 == n
    }

    /// The index of the entity table of this name (meaningful when
    /// `has_entity`).
    pub open spec fn entity_index(&self, n: Seq<char>) -> int {
        choose|i: int| 0 <= i < self.data.len() && self.data[i].0 == n
    }

    /// The entity table of this name (meaningful when `has_entity`).
    pub open spec fn entity(&self, n: Seq<char>) -> EntityDataView {
        self.data[self.entity_index(n)].1
    }

    /// Entity names are unique and every table is well-formed.
    pub open spec fn wf(&self) -> bool {
        &&& forall|i: int, j: int|
            0 <= i < j < self.data.len() ==> self.data[i].0 != self.data[j].0
        &&& forall|i: int| 0 <= i < self.data.len() ==> (#[trigger] self.data[i].1).wf()
    }
}

/// Walking a chain of foreign keys from a row: each step must name a
/// foreign-key edge of the schema whose cell is present on the current
/// row; the walk fails with `None` otherwise.  The result carries the
/// entity reached together with the row.
pub open spec fn spec_walk(
    iv: InstanceView,
    sv: SchemaView,
    entity: Seq<char>,
    row: RowId,
    path: Seq<Seq<char>>,
) -> Option<(Seq<char>, RowId)>
    decreases path.len(),
{
    if path.len() == 0 {
        Some((entity, row))
    } else if !sv.has_edge(path[0]) {
        None
    } else {
        let e = sv.edge_named(path[0]);
        if !e.is_fk() {
            None
        } else if !iv.has_entity(entity) {
            None
        } else {
            match iv.entity(entity).fk_value(row, path[0]) {
                Some(next) => spec_walk(iv, sv, e.fk_target(), next, path.skip(1)),
                None => None,
            }
        }
    }
}

/// The row that a chain of foreign keys reaches, without the entity.
pub open spec fn spec_follow_path(
    iv: InstanceView,
    sv: SchemaView,
    entity: Seq<char>,
    row: RowId,
    path: Seq<Seq<char>>,
) -> Option<RowId> {
    match spec_walk(iv, sv, entity, row, path) {
        Some(p) => Some(p.1),
        None => None,
    }
}

impl Instance {
    /// Creates an instance with an empty table for every node of the
    /// schema.
    pub fn new(name: &str, schema: &Schema) -> (r: Instance)
        requires
            schema@.wf(),
        ensures
            r@.name == name@,
            r@.schema_name == schema@.name,
            r@.data.len() == schema@.nodes.len(),
            forall|i: int|
                0 <= i < schema@.nodes.len() ==> (#[trigger] r@.data[i]).0 == schema@.nodes[i],
            forall|i: int|
                0 <= i < schema@.nodes.len() ==> (#[trigger] r@.data[i]).1.next_id == 1
                    && r@.data[i].1.rows.len() == 0,
            r@.wf(),
    {
        let mut data: Vec<(std::string::String, EntityData)> = Vec::new();
        let mut i: usize = 0;
        while i < schema.nodes.len()
            invariant
                0 <= i <= schema.nodes@.len(),
                data@.len() == i,
                forall|j: int|
                    0 <= j < i ==> (#[trigger] data@[j]).0@ == schema@.nodes[j],
                forall|j: int|
                    0 <= j < i ==> (#[trigger] data@[j]).1@.next_id == 1 && data@[j].1@.rows.len()
                        == 0,
            decreases schema.nodes@.len() - i,
        {
            data.push((schema.nodes[i].name.clone(), EntityData::new()));
            i += 1;
        }
        let r = Instance { name: name.to_owned(), schema_name: schema.name.clone(), data };
        proof {
            assert(forall|j: int|
                0 <= j < schema@.nodes.len() ==> (#[trigger] r@.data[j]).0 == schema@.nodes[j]
                    && r@.data[j].1.next_id == 1 && r@.data[j].1.rows.len() == 0);
        }
        r
    }

    /// The index of the entity table of this name, if any.
    fn find_entity_index(&self, name: &str) -> (r: Option<usize>)
        ensures
            match r {
                Some(i) => 0 <= i < self@.data.len() && self@.data[i as int].0 == name@,
                None => !self@.has_entity(name@),
            },
    {
        let mut i: usize = 0;
        while i < self.data.len()
            invariant
                0 <= i <= self.data@.len(),
                forall|j: int| 0 <= j < i ==> (#[trigger] self@.data[j]).0 != name@,
            decreases self.data@.len() - i,
        {
            if str_eq(self.data[i].0.as_str(), name) {
                assert(self@.data[i as int].0 == name@);
                return Some(i);
            }
            i += 1;
        }
        None
    }

    /// The entity table of this name, if any.
    pub fn entity_data(&self, entity: &str) -> (r: Option<&EntityData>)
        requires
            self@.wf(),
        ensures
            match r {
                Some(ed) => self@.has_entity(entity@) && ed@ == self@.entity(entity@),
                None => !self@.has_entity(entity@),
            },
    {
        match self.find_entity_index(entity) {
            Some(i) => {
                proof {
                    let k = self@.entity_index(entity@);
                    assert(self@.data[k].0 == entity@);
                    assert(k == i as int);
                }
                Some(&self.data[i].1)
            },
            None => None,
        }
    }

    /// Inserts a row into an entity and returns its fresh identifier.
    pub fn insert(
        &mut self,
        entity: &str,
        attrs: Vec<(std::string::String, Value)>,
        fks: Vec<(std::string::String, RowId)>,
    ) -> (r: RowId)
        requires
            old(self)@.wf(),
            old(self)@.has_entity(entity@),
            old(self)@.entity(entity@).next_id < RowId::MAX,
        ensures
            final(self)@.wf(),
            final(self)@.name == old(self)@.name,
            final(self)@.schema_name == old(self)@.schema_name,
            r == old(self)@.entity(entity@).next_id,
            final(self)@.data == old(self)@.data.update(
                old(self)@.entity_index(entity@),
                (
                    entity@,
                    (EntityDataView {
                        next_id: (old(self)@.entity(entity@).next_id + 1) as RowId,
                        rows: old(self)@.entity(entity@).rows.push(
                            (RowView { id: r, attrs: attrs_view(attrs@), fks: fks_view(fks@) }),
                        ),
                    }),
                ),
            ),
    {
        let ghost pre = self@;
        let i = match self.find_entity_index(entity) {
            Some(i) => i,
            None => {
                proof {
                    assert(false);
                }
                0
            },
        };
        proof {
            let k = pre.entity_index(entity@);
            assert(pre.data[k].0 == entity@);
            assert(k == i as int);
        }
        let mut tmp: (std::string::String, EntityData) = (std::string::String::new(),
        EntityData::new());
        self.data.set_and_swap(i, &mut tmp);
        let (nm, mut ed) = tmp;
        proof {
            assert(ed@ == pre.data[i as int].1);
            assert(pre.data[i as int].1.wf());
        }
        let id = ed.insert(attrs, fks);
        let mut back = (nm, ed);
        self.data.set_and_swap(i, &mut back);
        proof {
            assert(final(self)@.data =~= pre.data.update(
                i as int,
                (
                    entity@,
                    (EntityDataView {
                        next_id: (pre.entity(entity@).next_id + 1) as RowId,
                        rows: pre.entity(entity@).rows.push(
                            (RowView {
                                id,
                                attrs: attrs_view(attrs@),
                                fks: fks_view(fks@),
                            }),
                        ),
                    }),
                ),
            ));
        }
        id
    }

    /// Inserts a row into an entity under an explicit identifier,
    /// replacing any row that carried it.
    pub fn insert_with_id(
        &mut self,
        entity: &str,
        id: RowId,
        attrs: Vec<(std::string::String, Value)>,
        fks: Vec<(std::string::String, RowId)>,
    )
        requires
            old(self)@.wf(),
            old(self)@.has_entity(entity@),
            id < RowId::MAX,
        ensures
            final(self)@.wf(),
            final(self)@.name == old(self)@.name,
            final(self)@.schema_name == old(self)@.schema_name,
            final(self)@.data.len() == old(self)@.data.len(),
            forall|j: int|
                0 <= j < old(self)@.data.len() && j != old(self)@.entity_index(entity@)
                    ==> final(self)@.data[j] == old(self)@.data[j],
            final(self)@.data[old(self)@.entity_index(entity@)].0 == entity@,
            ({
                let pre = old(self)@.entity(entity@);
                let post = final(self)@.data[old(self)@.entity_index(entity@)].1;
                let rv = (RowView { id, attrs: attrs_view(attrs@), fks: fks_view(fks@) });
                &&& post.next_id == if id >= pre.next_id {
                    (id + 1) as RowId
                } else {
                    pre.next_id
                }
                &&& pre.has_row(id) ==> post.rows == pre.rows.update(pre.row_index(id), rv)
                &&& !pre.has_row(id) ==> post.rows == pre.rows.push(rv)
            }),
    {
        let ghost pre = self@;
        let i = match self.find_entity_index(entity) {
            Some(i) => i,
            None => {
                proof {
                    assert(false);
                }
                0
            },
        };
        proof {
            let k = pre.entity_index(entity@);
            assert(pre.data[k].0 == entity@);
            assert(k == i as int);
        }
        let mut tmp: (std::string::String, EntityData) = (std::string::String::new(),
        EntityData::new());
        self.data.set_and_swap(i, &mut tmp);
        let (nm, mut ed) = tmp;
        proof {
            assert(ed@ == pre.data[i as int].1);
            assert(pre.data[i as int].1.wf());
        }
        ed.insert_with_id(id, attrs, fks);
        let ghost newed = ed@;
        let mut back = (nm, ed);
        self.data.set_and_swap(i, &mut back);
        proof {
            assert(final(self)@.data =~= pre.data.update(i as int, (entity@, newed)));
        }
    }

    /// Sets (or overwrites) a foreign-key cell on an existing row of an
    /// entity.
    pub fn set_fk(&mut self, entity: &str, row_id: RowId, fk_name: &str, target: RowId)
        requires
            old(self)@.wf(),
            old(self)@.has_entity(entity@),
            old(self)@.entity(entity@).has_row(row_id),
        ensures
            final(self)@.wf(),
            final(self)@.name == old(self)@.name,
            final(self)@.schema_name == old(self)@.schema_name,
            final(self)@.data == old(self)@.data.update(
                old(self)@.entity_index(entity@),
                (
                    entity@,
                    (EntityDataView {
                        next_id: old(self)@.entity(entity@).next_id,
                        rows: old(self)@.entity(entity@).rows.update(
                            old(self)@.entity(entity@).row_index(row_id),
                            (RowView {
                                id: row_id,
                                attrs: old(self)@.entity(entity@).row(row_id).attrs,
                                fks: fk_upsert(
                                    old(self)@.entity(entity@).row(row_id).fks,
                                    fk_name@,
                                    target,
                                ),
                            }),
                        ),
                    }),
                ),
            ),
    {
        let ghost pre = self@;
        let i = match self.find_entity_index(entity) {
            Some(i) => i,
            None => {
                proof {
                    assert(false);
                }
                0
            },
        };
        proof {
            let k = pre.entity_index(entity@);
            assert(pre.data[k].0 == entity@);
            assert(k == i as int);
        }
        let mut tmp: (std::string::String, EntityData) = (std::string::String::new(),
        EntityData::new());
        self.data.set_and_swap(i, &mut tmp);
        let (nm, mut ed) = tmp;
        proof {
            assert(ed@ == pre.data[i as int].1);
            assert(pre.data[i as int].1.wf());
        }
        ed.set_fk(row_id, fk_name, target);
        let ghost newed = ed@;
        let mut back = (nm, ed);
        self.data.set_and_swap(i, &mut back);
        proof {
            assert(final(self)@.data =~= pre.data.update(i as int, (entity@, newed)));
        }
    }

    /// Walks a chain of foreign keys from a starting row, returning the
    /// entity and row reached.
    pub fn walk_fks(
        &self,
        start_entity: &str,
        start_row: RowId,
        fk_path: &Vec<std::string::String>,
        schema: &Schema,
    ) -> (r: Option<(std::string::String, RowId)>)
        requires
            self@.wf(),
            schema@.wf(),
        ensures
            match r {
                Some(p) => spec_walk(self@, schema@, start_entity@, start_row, names_view(fk_path@))
                    == Some((p.0@, p.1)),
                None => spec_walk(self@, schema@, start_entity@, start_row, names_view(fk_path@))
                    is None,
            },
    {
        let ghost whole = names_view(fk_path@);
        let mut entity: std::string::String = start_entity.to_owned();
        let mut row: RowId = start_row;
        let mut i: usize = 0;
        proof {
            assert(whole.skip(0) =~= whole);
        }
        while i < fk_path.len()
            invariant
                self@.wf(),
                schema@.wf(),
                0 <= i <= fk_path@.len(),
                whole == names_view(fk_path@),
                spec_walk(self@, schema@, start_entity@, start_row, whole) == spec_walk(
                    self@,
                    schema@,
                    entity@,
                    row,
                    whole.skip(i as int),
                ),
            decreases fk_path@.len() - i,
        {
            let ghost rest = whole.skip(i as int);
            proof {
                assert(rest[0] == whole[i as int]);
                assert(rest.skip(1) =~= whole.skip(i as int + 1));
            }
            let step = &fk_path[i];
            match schema.get_edge(step.as_str()) {
                None => {
                    return None;
                },
                Some(e) => {
                    match e {
                        Edge::ForeignKey { target, .. } => {
                            let ed = match self.find_entity_index(entity.as_str()) {
                                None => {
                                    return None;
                                },
                                Some(k) => {
                                    proof {
                                        let c = self@.entity_index(entity@);
                                        assert(self@.data[c].0 == entity@);
                                        assert(c == k as int);
                                        assert(self@.data[k as int].1.wf());
                                    }
                                    &self.data[k].1
                                },
                            };
                            match ed.get_fk(row, step.as_str()) {
                                None => {
                                    return None;
                                },
                                Some(next) => {
                                    row = next;
                                    entity = target.clone();
                                },
                            }
                        },
                        Edge::Attribute { .. } => {
                            return None;
                        },
                    }
                },
            }
            i += 1;
        }
        proof {
            assert(whole.skip(i as int) =~= Seq::<Seq<char>>::empty());
        }
        Some((entity, row))
    }

    /// Walks a chain of foreign keys from a starting row.
    pub fn follow_path(
        &self,
        start_entity: &str,
        start_row: RowId,
        fk_path: &Vec<std::string::String>,
        schema: &Schema,
    ) -> (r: Option<RowId>)
        requires
            self@.wf(),
            schema@.wf(),
        ensures
            r == spec_follow_path(self@, schema@, start_entity@, start_row, names_view(fk_path@)),
    {
        match self.walk_fks(start_entity, start_row, fk_path, schema) {
            Some(p) => Some(p.1),
            None => None,
        }
    }

    /// The number of rows over all entities.
    pub fn total_rows(&self) -> (r: usize)
        requires
            rows_total(self@.data) <= usize::MAX,
        ensures
            r == rows_total(self@.data),
    {
        let ghost whole = self@.data;
        let mut acc: usize = 0;
        let mut i: usize = 0;
        proof {
            assert(whole.skip(0) =~= whole);
        }
        while i < self.data.len()
            invariant
                whole == self@.data,
                rows_total(whole) <= usize::MAX,
                0 <= i <= self.data@.len(),
                acc + rows_total(whole.skip(i as int)) == rows_total(whole),
            decreases self.data@.len() - i,
        {
            proof {
                assert(whole.skip(i as int)[0] == whole[i as int]);
                assert(whole.skip(i as int).skip(1) =~= whole.skip(i as int + 1));
                lemma_rows_total_nonneg(whole.skip(i as int + 1));
            }
            acc = acc + self.data[i].1.len();
            i += 1;
        }
        proof {
            assert(whole.skip(i as int) =~= Seq::<(Seq<char>, EntityDataView)>::empty());
        }
        acc
    }
}

} // verus!
