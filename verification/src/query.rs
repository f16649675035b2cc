//! Query blocks: FROM variables, WHERE clauses and projections, plus the
//! rewrite-driven optimization of every path a query mentions.

use vstd::prelude::*;

use crate::optimize::PathOptimizer;
use crate::schema::{Path, Schema, SchemaView};
use crate::text::{copy_strings, names_view, str_eq};
use crate::typeside::{Value, ValueView};

verus! {

/// A comparison operator of a WHERE clause.
#[derive(Debug, Clone, Copy, PartialEq, Eq, Structural)]
pub enum CompOp {
    Eq,
    Neq,
    Lt,
    Gt,
    Lte,
    Gte,
}

/// Binds a result attribute to a chain of foreign keys ending in an
/// attribute, read from a FROM variable.
#[derive(Debug, Clone)]
pub struct AttributeBinding {
    pub from_var: std::string::String,
    pub path: Vec<std::string::String>,
    pub attribute: std::string::String,
}

/// The mathematical value of an attribute binding.
pub struct AttributeBindingView {
    pub from_var: Seq<char>,
    pub path: Seq<Seq<char>>,
    pub attribute: Seq<char>,
}

impl View for AttributeBinding {
    type V = AttributeBindingView;

    open spec fn view(&self) -> AttributeBindingView {
        AttributeBindingView {
            from_var: self.from_var@,
            path: names_view(self.path@),
            attribute: self.attribute@,
        }
    }
}

/// Binds a result foreign key to a chain of foreign keys read from a
/// FROM variable.
#[derive(Debug, Clone)]
pub struct FkBinding {
    pub from_var: std::string::String,
    pub path: Vec<std::string::String>,
}

/// The mathematical value of a foreign-key binding.
pub struct FkBindingView {
    pub from_var: Seq<char>,
    pub path: Seq<Seq<char>>,
}

impl View for FkBinding {
    type V = FkBindingView;

    open spec fn view(&self) -> FkBindingView {
        FkBindingView { from_var: self.from_var@, path: names_view(self.path@) }
    }
}

/// One WHERE clause: a comparison of a path against a constant, or the
/// equality of two paths.
#[derive(Debug, Clone)]
pub enum WhereClause {
    Comparison {
        var: std::string::String,
        path: Vec<std::string::String>,
        op: CompOp,
        value: Value,
    },
    PathEqual {
        var1: std::string::String,
        path1: Vec<std::string::String>,
        var2: std::string::String,
        path2: Vec<std::string::String>,
    },
}

/// The mathematical value of a WHERE clause.
pub enum WhereClauseView {
    Comparison { var: Seq<char>, path: Seq<Seq<char>>, op: CompOp, value: ValueView },
    PathEqual { var1: Seq<char>, path1: Seq<Seq<char>>, var2: Seq<char>, path2: Seq<Seq<char>> },
}

impl View for WhereClause {
    type V = WhereClauseView;

    open spec fn view(&self) -> WhereClauseView {
        match self {
            WhereClause::Comparison { var, path, op, value } => WhereClauseView::Comparison {
                var: var@,
                path: names_view(path@),
                op: *op,
                value: value@,
            },
            WhereClause::PathEqual { var1, path1, var2, path2 } => WhereClauseView::PathEqual {
                var1: var1@,
                path1: names_view(path1@),
                var2: var2@,
                path2: names_view(path2@),
            },
        }
    }
}

/// One block of a query: a target entity fed by the tuples of its FROM
/// variables that pass every WHERE clause, projected through the
/// bindings.
#[derive(Debug, Clone)]
pub struct QueryBlock {
    pub target_entity: std::string::String,
    pub from_vars: Vec<(std::string::String, std::string::String)>,
    pub where_clauses: Vec<WhereClause>,
    pub attribute_bindings: Vec<(std::string::String, AttributeBinding)>,
    pub fk_bindings: Vec<(std::string::String, FkBinding)>,
}

/// The mathematical value of a query block.
pub struct QueryBlockView {
    pub target_entity: Seq<char>,
    pub from_vars: Seq<(Seq<char>, Seq<char>)>,
    pub where_clauses: Seq<WhereClauseView>,
    pub attribute_bindings: Seq<(Seq<char>, AttributeBindingView)>,
    pub fk_bindings: Seq<(Seq<char>, FkBindingView)>,
}

impl View for QueryBlock {
    type V = QueryBlockView;

    open spec fn view(&self) -> QueryBlockView {
        QueryBlockView {
            target_entity: self.target_entity@,
            from_vars: self.from_vars@.map_values(
                |p: (std::string::String, std::string::String)| (p.0@, p.1@),
            ),
            where_clauses: self.where_clauses@.map_values(|c: WhereClause| c@),
            attribute_bindings: self.attribute_bindings@.map_values(
                |p: (std::string::String, AttributeBinding)| (p.0@, p.1@),
            ),
            fk_bindings: self.fk_bindings@.map_values(
                |p: (std::string::String, FkBinding)| (p.0@, p.1@),
            ),
        }
    }
}

/// The entity bound to a FROM variable: the first declaration wins.
pub open spec fn bound_entity(vars: Seq<(Seq<char>, Seq<char>)>, v: Seq<char>) -> Option<
    Seq<char>,
>
    decreases vars.len(),
{
    if vars.len() == 0 {
        None
    } else if vars[0].0 == v {
        Some(vars[0].1)
    } else {
        bound_entity(vars.skip(1), v)
    }
}

/// The rewriting of one edge chain: a chain of at least two edges whose
/// variable is bound is replaced by its normal form under the rules,
/// anchored at the bound entity; every other chain is kept as it is.
pub open spec fn spec_opt_chain(
    rules: Seq<(crate::schema::PathView, crate::schema::PathView)>,
    vars: Seq<(Seq<char>, Seq<char>)>,
    var: Seq<char>,
    path: Seq<Seq<char>>,
) -> Seq<Seq<char>> {
    if path.len() >= 2 {
        match bound_entity(vars, var) {
            Some(entity) => crate::optimize::spec_norm(
                rules,
                (crate::schema::PathView { start: entity, edges: path }),
                100,
            ).edges,
            None => path,
        }
    } else {
        path
    }
}

/// The rewriting of one WHERE clause: each chain goes through
/// `spec_opt_chain`; everything else is kept.
pub open spec fn spec_opt_clause(
    rules: Seq<(crate::schema::PathView, crate::schema::PathView)>,
    vars: Seq<(Seq<char>, Seq<char>)>,
    c: WhereClauseView,
) -> WhereClauseView {
    match c {
        WhereClauseView::Comparison { var, path, op, value } => WhereClauseView::Comparison {
            var: var,
            path: spec_opt_chain(rules, vars, var, path),
            op: op,
            value: value,
        },
        WhereClauseView::PathEqual { var1, path1, var2, path2 } => WhereClauseView::PathEqual {
            var1: var1,
            path1: spec_opt_chain(rules, vars, var1, path1),
            var2: var2,
            path2: spec_opt_chain(rules, vars, var2, path2),
        },
    }
}

/// The rewriting of one block: every clause chain and attribute-binding
/// chain goes through `spec_opt_chain`; the target entity, FROM
/// variables and foreign-key bindings are kept as they are.
pub open spec fn spec_opt_block(
    rules: Seq<(crate::schema::PathView, crate::schema::PathView)>,
    b: QueryBlockView,
) -> QueryBlockView {
    QueryBlockView {
        target_entity: b.target_entity,
        from_vars: b.from_vars,
        where_clauses: b.where_clauses.map_values(
            |c: WhereClauseView| spec_opt_clause(rules, b.from_vars, c),
        ),
        attribute_bindings: b.attribute_bindings.map_values(
            |p: (Seq<char>, AttributeBindingView)|
                (
                    p.0,
                    (AttributeBindingView {
                        from_var: p.1.from_var,
                        path: spec_opt_chain(rules, b.from_vars, p.1.from_var, p.1.path),
                        attribute: p.1.attribute,
                    }),
                ),
        ),
        fk_bindings: b.fk_bindings,
    }
}

/// Two blocks agree on everything except possibly the edge chains of
/// their clauses and bindings, which the right block may have shortened.
pub open spec fn block_shape_eq(b1: QueryBlockView, b2: QueryBlockView) -> bool {
    &&& b2.target_entity == b1.target_entity
    &&& b2.from_vars == b1.from_vars
    &&& b2.where_clauses.len() == b1.where_clauses.len()
    &&& forall|j: int|
        0 <= j < b1.where_clauses.len() ==> match (b1.where_clauses[j], #[trigger] b2.where_clauses[j]) {
            (
                WhereClauseView::Comparison { var: v1, path: p1, op: o1, value: c1 },
                WhereClauseView::Comparison { var: v2, path: p2, op: o2, value: c2 },
            ) => v2 == v1 && o2 == o1 && c2 == c1 && p2.len() <= p1.len(),
            (
                WhereClauseView::PathEqual { var1: a1, path1: p1, var2: a2, path2: p2 },
                WhereClauseView::PathEqual { var1: b1v, path1: q1, var2: b2v, path2: q2 },
            ) => b1v == a1 && b2v == a2 && q1.len() <= p1.len() && q2.len() <= p2.len(),
            _ => false,
        }
    &&& b2.attribute_bindings.len() == b1.attribute_bindings.len()
    &&& forall|j: int|
        0 <= j < b1.attribute_bindings.len() ==> {
            let x = b1.attribute_bindings[j];
            let y = #[trigger] b2.attribute_bindings[j];
            y.0 == x.0 && y.1.from_var == x.1.from_var && y.1.attribute == x.1.attribute
                && y.1.path.len() <= x.1.path.len()
        }
    &&& b2.fk_bindings == b1.fk_bindings
}

/// A query: a name, the schema it reads, the schema its blocks build,
/// and the blocks.
#[derive(Debug, Clone)]
pub struct CqlQuery {
    pub name: std::string::String,
    pub source_schema_name: std::string::String,
    pub result_schema: Schema,
    pub blocks: Vec<QueryBlock>,
}

impl CqlQuery {
    /// Creates an empty query over a source schema.
    pub fn new(name: &str, source_schema: &str) -> (r: CqlQuery)
        ensures
            r.name@ == name@,
            r.source_schema_name@ == source_schema@,
            r.result_schema@.wf(),
            r.result_schema@.nodes.len() == 0,
            r.blocks@.len() == 0,
    {
        let mut rs_name = std::string::String::new();
        rs_name.append(name);
        rs_name.append("_result");
        CqlQuery {
            name: name.to_owned(),
            source_schema_name: source_schema.to_owned(),
            result_schema: Schema::new(rs_name.as_str()),
            blocks: Vec::new(),
        }
    }

    /// Appends a block and declares its target entity in the result
    /// schema.
    pub fn add_block(&mut self, block: QueryBlock)
        requires
            old(self).result_schema@.wf(),
        ensures
            final(self).result_schema@.wf(),
            final(self).name@ == old(self).name@,
            final(self).source_schema_name@ == old(self).source_schema_name@,
            final(self).blocks@.map_values(|b: QueryBlock| b@) == old(self).blocks@.map_values(
                |b: QueryBlock| b@,
            ).push(block@),
            final(self).result_schema@.has_node(block@.target_entity),
    {
        let ghost pre = self.blocks@.map_values(|b: QueryBlock| b@);
        let ghost bv = block@;
        self.result_schema.add_node(block.target_entity.as_str());
        self.blocks.push(block);
        proof {
            assert(self.blocks@.map_values(|b: QueryBlock| b@) =~= pre.push(bv));
        }
    }

    /// Rewrites every edge chain of length at least 2 in the WHERE
    /// clauses and attribute bindings through the schema's path
    /// equations; everything else is kept as it stands.
    pub fn optimize(&self, source_schema: &Schema) -> (r: CqlQuery)
        ensures
            r.name@ == self.name@,
            r.source_schema_name@ == self.source_schema_name@,
            r.result_schema@ == self.result_schema@,
            r.blocks@.len() == self.blocks@.len(),
            forall|i: int|
                0 <= i < self.blocks@.len() ==> (#[trigger] r.blocks@[i])@ == spec_opt_block(
                    crate::optimize::schema_rules_core(source_schema@.equations),
                    self.blocks@[i]@,
                ),
            forall|i: int|
                0 <= i < self.blocks@.len() ==> block_shape_eq(
                    (#[trigger] self.blocks@[i])@,
                    r.blocks@[i]@,
                ),
    {
        let optimizer = PathOptimizer::from_schema(source_schema);
        let ghost rules = crate::optimize::schema_rules_core(source_schema@.equations);
        proof {
            assert(crate::optimize::core_of(optimizer@) == rules);
        }
        let mut new_blocks: Vec<QueryBlock> = Vec::new();
        let mut i: usize = 0;
        while i < self.blocks.len()
            invariant
                crate::optimize::rules_wf(optimizer@),
                rules == crate::optimize::core_of(optimizer@),
                rules == crate::optimize::schema_rules_core(source_schema@.equations),
                0 <= i <= self.blocks@.len(),
                new_blocks@.len() == i,
                forall|j: int|
                    0 <= j < i ==> (#[trigger] new_blocks@[j])@ == spec_opt_block(
                        rules,
                        self.blocks@[j]@,
                    ),
                forall|j: int|
                    0 <= j < i ==> block_shape_eq(
                        (#[trigger] self.blocks@[j])@,
                        new_blocks@[j]@,
                    ),
            decreases self.blocks@.len() - i,
        {
            let block = &self.blocks[i];
            let nb = optimize_block(block, &optimizer);
            new_blocks.push(nb);
            i += 1;
        }
        CqlQuery {
            name: self.name.clone(),
            source_schema_name: self.source_schema_name.clone(),
            result_schema: self.result_schema.duplicate(),
            blocks: new_blocks,
        }
    }
}

/// `bound_entity` answers at the first matching slot, and `None` exactly
/// when no slot matches.
proof fn lemma_bound_entity_correct(vars: Seq<(Seq<char>, Seq<char>)>, v: Seq<char>)
    ensures
        match bound_entity(vars, v) {
            Some(ent) => exists|i: int|
                0 <= i < vars.len() && vars[i].0 == v && vars[i].1 == ent && forall|j: int|
                    0 <= j < i ==> vars[j].0 != v,
            None => forall|j: int| 0 <= j < vars.len() ==> vars[j].0 != v,
        },
    decreases vars.len(),
{
    if vars.len() > 0 && vars[0].0 != v {
        lemma_bound_entity_correct(vars.skip(1), v);
        assert(forall|j: int| 1 <= j < vars.len() ==> vars.skip(1)[j - 1] == vars[j]);
        if bound_entity(vars.skip(1), v) is Some {
            let i = choose|i: int|
                0 <= i < vars.skip(1).len() && vars.skip(1)[i].0 == v && vars.skip(1)[i].1
                    == bound_entity(vars.skip(1), v)->Some_0 && forall|j: int|
                    0 <= j < i ==> vars.skip(1)[j].0 != v;
            assert(vars[i + 1].0 == v && vars[i + 1].1 == bound_entity(vars, v)->Some_0);
            assert(forall|j: int| 0 <= j < i + 1 ==> vars[j].0 != v);
        }
    }
}

/// Finds the entity bound to a FROM variable, if any.
fn lookup_var(
    from_vars: &Vec<(std::string::String, std::string::String)>,
    var: &str,
) -> (r: Option<std::string::String>)
    ensures
        ({
            let vv = from_vars@.map_values(
                |p: (std::string::String, std::string::String)| (p.0@, p.1@),
            );
            match r {
                Some(ent) => bound_entity(vv, var@) == Some(ent@),
                None => bound_entity(vv, var@) is None,
            }
        }),
{
    let ghost vv = from_vars@.map_values(
        |p: (std::string::String, std::string::String)| (p.0@, p.1@),
    );
    let mut i: usize = 0;
    while i < from_vars.len()
        invariant
            vv == from_vars@.map_values(
                |p: (std::string::String, std::string::String)| (p.0@, p.1@),
            ),
            0 <= i <= vv.len(),
            forall|j: int| 0 <= j < i ==> (#[trigger] vv[j]).0 != var@,
        decreases from_vars@.len() - i,
    {
        if str_eq(from_vars[i].0.as_str(), var) {
            proof {
                assert(vv[i as int].0 == var@ && vv[i as int].1 == from_vars@[i as int].1@);
                lemma_bound_entity_correct(vv, var@);
                match bound_entity(vv, var@) {
                    Some(ent) => {
                        let k = choose|k: int|
                            0 <= k < vv.len() && vv[k].0 == var@ && vv[k].1 == ent && forall|
                                j: int,
                            | 0 <= j < k ==> vv[j].0 != var@;
                        assert(!(k < i) && !(i < k));
                    },
                    None => {
                        assert(false);
                    },
                }
            }
            return Some(from_vars[i].1.clone());
        }
        i += 1;
    }
    proof {
        lemma_bound_entity_correct(vv, var@);
        if bound_entity(vv, var@) is Some {
            let k = choose|k: int|
                0 <= k < vv.len() && vv[k].0 == var@ && vv[k].1 == bound_entity(vv, var@)->Some_0
                    && forall|j: int| 0 <= j < k ==> vv[j].0 != var@;
            assert(vv[k].0 != var@);
        }
    }
    None
}

/// Rewrites one chain through the optimizer when it is at least two
/// edges long and its variable is bound; otherwise returns it as it is.
fn optimize_chain(
    path: &Vec<std::string::String>,
    var: &str,
    from_vars: &Vec<(std::string::String, std::string::String)>,
    optimizer: &PathOptimizer,
) -> (r: Vec<std::string::String>)
    requires
        crate::optimize::rules_wf(optimizer@),
    ensures
        names_view(r@) == spec_opt_chain(
            crate::optimize::core_of(optimizer@),
            from_vars@.map_values(
                |p: (std::string::String, std::string::String)| (p.0@, p.1@),
            ),
            var@,
            names_view(path@),
        ),
        names_view(r@).len() <= names_view(path@).len(),
{
    if path.len() >= 2 {
        match lookup_var(from_vars, var) {
            Some(entity) => {
                let full = Path { start: entity, edges: copy_strings(path) };
                let opt = optimizer.optimize_path(&full);
                opt.edges
            },
            None => copy_strings(path),
        }
    } else {
        copy_strings(path)
    }
}

/// Rewrites the paths of one block: the result is exactly
/// `spec_opt_block` of it under the optimizer's rules.
fn optimize_block(block: &QueryBlock, optimizer: &PathOptimizer) -> (r: QueryBlock)
    requires
        crate::optimize::rules_wf(optimizer@),
    ensures
        r@ == spec_opt_block(crate::optimize::core_of(optimizer@), block@),
        block_shape_eq(block@, r@),
{
    let ghost rules = crate::optimize::core_of(optimizer@);
    let ghost vv = block@.from_vars;
    let mut clauses: Vec<WhereClause> = Vec::new();
    let mut j: usize = 0;
    while j < block.where_clauses.len()
        invariant
            crate::optimize::rules_wf(optimizer@),
            rules == crate::optimize::core_of(optimizer@),
            vv == block@.from_vars,
            0 <= j <= block.where_clauses@.len(),
            clauses@.len() == j,
            forall|k: int|
                0 <= k < j ==> (#[trigger] clauses@[k])@ == spec_opt_clause(
                    rules,
                    vv,
                    block@.where_clauses[k],
                ),
            forall|k: int|
                0 <= k < j ==> match (block@.where_clauses[k], (#[trigger] clauses@[k])@) {
                    (
                        WhereClauseView::Comparison { var: v1, path: p1, op: o1, value: c1 },
                        WhereClauseView::Comparison { var: v2, path: p2, op: o2, value: c2 },
                    ) => v2 == v1 && o2 == o1 && c2 == c1 && p2.len() <= p1.len(),
                    (
                        WhereClauseView::PathEqual { var1: a1, path1: p1, var2: a2, path2: p2 },
                        WhereClauseView::PathEqual { var1: b1v, path1: q1, var2: b2v, path2: q2 },
                    ) => b1v == a1 && b2v == a2 && q1.len() <= p1.len() && q2.len() <= p2.len(),
                    _ => false,
                },
        decreases block.where_clauses@.len() - j,
    {
        let ghost cv = block@.where_clauses[j as int];
        let nc = match &block.where_clauses[j] {
            WhereClause::Comparison { var, path, op, value } => WhereClause::Comparison {
                var: var.clone(),
                path: optimize_chain(path, var.as_str(), &block.from_vars, optimizer),
                op: *op,
                value: value.duplicate(),
            },
            WhereClause::PathEqual { var1, path1, var2, path2 } => WhereClause::PathEqual {
                var1: var1.clone(),
                path1: optimize_chain(path1, var1.as_str(), &block.from_vars, optimizer),
                var2: var2.clone(),
                path2: optimize_chain(path2, var2.as_str(), &block.from_vars, optimizer),
            },
        };
        proof {
            assert(nc@ == spec_opt_clause(rules, vv, cv));
        }
        clauses.push(nc);
        j += 1;
    }
    let mut abinds: Vec<(std::string::String, AttributeBinding)> = Vec::new();
    let mut k: usize = 0;
    while k < block.attribute_bindings.len()
        invariant
            crate::optimize::rules_wf(optimizer@),
            rules == crate::optimize::core_of(optimizer@),
            vv == block@.from_vars,
            0 <= k <= block.attribute_bindings@.len(),
            abinds@.len() == k,
            forall|m: int|
                0 <= m < k ==> {
                    let x = block@.attribute_bindings[m];
                    let y = (#[trigger] abinds@[m]);
                    (y.0@, y.1@) == (
                        x.0,
                        (AttributeBindingView {
                            from_var: x.1.from_var,
                            path: spec_opt_chain(rules, vv, x.1.from_var, x.1.path),
                            attribute: x.1.attribute,
                        }),
                    )
                },
            forall|m: int|
                0 <= m < k ==> {
                    let x = block@.attribute_bindings[m];
                    let y = (#[trigger] abinds@[m]);
                    y.0@ == x.0 && y.1@.from_var == x.1.from_var && y.1@.attribute
                        == x.1.attribute && y.1@.path.len() <= x.1.path.len()
                },
        decreases block.attribute_bindings@.len() - k,
    {
        let ghost xv = block@.attribute_bindings[k as int];
        let (rname, ab) = (&block.attribute_bindings[k].0, &block.attribute_bindings[k].1);
        proof {
            assert(xv == (rname@, ab@));
        }
        let nb = AttributeBinding {
            from_var: ab.from_var.clone(),
            path: optimize_chain(&ab.path, ab.from_var.as_str(), &block.from_vars, optimizer),
            attribute: ab.attribute.clone(),
        };
        proof {
            assert(nb@ == (AttributeBindingView {
                from_var: xv.1.from_var,
                path: spec_opt_chain(rules, vv, xv.1.from_var, xv.1.path),
                attribute: xv.1.attribute,
            }));
        }
        abinds.push((rname.clone(), nb));
        k += 1;
    }
    let mut fbinds: Vec<(std::string::String, FkBinding)> = Vec::new();
    let mut m: usize = 0;
    while m < block.fk_bindings.len()
        invariant
            0 <= m <= block.fk_bindings@.len(),
            fbinds@.len() == m,
            forall|n: int| 0 <= n < m ==> (#[trigger] fbinds@[n]).0@ == block@.fk_bindings[n].0
                && fbinds@[n].1@ == block@.fk_bindings[n].1,
        decreases block.fk_bindings@.len() - m,
    {
        let (rname, fb) = (&block.fk_bindings[m].0, &block.fk_bindings[m].1);
        fbinds.push(
            (
                rname.clone(),
                FkBinding { from_var: fb.from_var.clone(), path: copy_strings(&fb.path) },
            ),
        );
        m += 1;
    }
    let mut fvars: Vec<(std::string::String, std::string::String)> = Vec::new();
    let mut v: usize = 0;
    while v < block.from_vars.len()
        invariant
            0 <= v <= block.from_vars@.len(),
            fvars@.len() == v,
            forall|n: int|
                0 <= n < v ==> (#[trigger] fvars@[n]).0@ == block@.from_vars[n].0 && fvars@[n].1@
                    == block@.from_vars[n].1,
        decreases block.from_vars@.len() - v,
    {
        fvars.push((block.from_vars[v].0.clone(), block.from_vars[v].1.clone()));
        v += 1;
    }
    let r = QueryBlock {
        target_entity: block.target_entity.clone(),
        from_vars: fvars,
        where_clauses: clauses,
        attribute_bindings: abinds,
        fk_bindings: fbinds,
    };
    proof {
        assert(r@.from_vars =~= block@.from_vars);
        assert(r@.fk_bindings =~= block@.fk_bindings);
        let want = spec_opt_block(rules, block@);
        assert(r@.where_clauses =~= want.where_clauses);
        assert(r@.attribute_bindings =~= want.attribute_bindings);
        assert(r@ == want);
    }
    r
}

} // verus!
