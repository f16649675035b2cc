//! The path rewrite engine.
//!
//! Every path equation of a schema is oriented into a rewrite rule whose
//! pattern (the left side) is at least as long as its replacement, so a
//! rewrite never lengthens a path.  Optimizing a path repeatedly replaces
//! the first occurrence of the first applicable pattern until no rule
//! changes the path any more, or a fixed pass cap is reached.

use vstd::prelude::*;

use crate::mapping::{
    compose_defined, composed_image, edge_image_composable, expand_fk_chain, EdgeMapping,
    EdgeMappingView, Mapping,
};
use crate::schema::{Edge, Path, PathView, PathEquationView, Schema, SchemaView};
use crate::text::{copy_strings, dec_string, names_view, str_eq, str_lt, str_vec_eq};

verus! {

/// A rewrite rule: replace the pattern `lhs` by `rhs`.
#[derive(Debug, Clone)]
pub struct RewriteRule {
    pub lhs: Path,
    pub rhs: Path,
    pub name: std::string::String,
}

/// The mathematical value of a rewrite rule.
pub struct RewriteRuleView {
    pub lhs: PathView,
    pub rhs: PathView,
    pub name: Seq<char>,
}

impl View for RewriteRule {
    type V = RewriteRuleView;

    open spec fn view(&self) -> RewriteRuleView {
        RewriteRuleView { lhs: self.lhs@, rhs: self.rhs@, name: self.name@ }
    }
}

impl RewriteRuleView {
    /// A rule never lengthens: the replacement is at most as long as the
    /// pattern.
    pub open spec fn wf(&self) -> bool {
        self.rhs.edges.len() <= self.lhs.edges.len()
    }
}

/// Whether the pattern occurs in `edges` starting at position `i`.
pub open spec fn match_at(edges: Seq<Seq<char>>, pat: Seq<Seq<char>>, i: int) -> bool {
    0 <= i && i + pat.len() <= edges.len() && edges.subrange(i, i + pat.len()) == pat
}

/// The position of the first occurrence of a non-empty pattern, if any.
pub open spec fn first_match(edges: Seq<Seq<char>>, pat: Seq<Seq<char>>) -> Option<int>
    decreases edges.len(),
{
    if pat.len() == 0 || pat.len() > edges.len() {
        None
    } else if edges.subrange(0, pat.len() as int) == pat {
        Some(0)
    } else {
        match first_match(edges.skip(1), pat) {
            Some(i) => Some(i + 1),
            None => None,
        }
    }
}

/// `edges` with the `patlen` elements at position `i` replaced by `rep`.
pub open spec fn splice(
    edges: Seq<Seq<char>>,
    i: int,
    patlen: int,
    rep: Seq<Seq<char>>,
) -> Seq<Seq<char>> {
    edges.subrange(0, i) + rep + edges.skip(i + patlen)
}

/// The result of applying the rule with pattern `lhs` and replacement
/// `rhs` to a path: the pattern must be non-empty, anchored at the same
/// start node, and occur in the path; the first occurrence is replaced.
pub open spec fn apply_core(lhs: PathView, rhs: PathView, p: PathView) -> Option<PathView> {
    if p.start != lhs.start || lhs.edges.len() == 0 {
        None
    } else {
        match first_match(p.edges, lhs.edges) {
            Some(i) => Some(
                (PathView {
                    start: p.start,
                    edges: splice(p.edges, i, lhs.edges.len() as int, rhs.edges),
                }),
            ),
            None => None,
        }
    }
}

/// The result of applying a rule to a path.
pub open spec fn spec_apply(rule: RewriteRuleView, p: PathView) -> Option<PathView> {
    apply_core(rule.lhs, rule.rhs, p)
}

/// The pattern and replacement of every rule, without the rule names.
pub open spec fn core_of(rules: Seq<RewriteRuleView>) -> Seq<(PathView, PathView)> {
    rules.map_values(|r: RewriteRuleView| (r.lhs, r.rhs))
}

/// The first rule at or after position `ri` that changes the path, with
/// the path it produces; `None` when no rule from `ri` on changes it.
pub open spec fn step_from(rules: Seq<(PathView, PathView)>, p: PathView, ri: int) -> Option<
    PathView,
>
    decreases rules.len() - ri,
{
    if ri < 0 || ri >= rules.len() {
        None
    } else {
        match apply_core(rules[ri].0, rules[ri].1, p) {
            Some(q) => if q != p {
                Some(q)
            } else {
                step_from(rules, p, ri + 1)
            },
            None => step_from(rules, p, ri + 1),
        }
    }
}

/// The path after up to `fuel` passes, each applying the first rule that
/// changes the path and restarting from the head of the rule list.  This
/// is the exact normal form the optimizer computes with `fuel` of 100.
pub open spec fn spec_norm(rules: Seq<(PathView, PathView)>, p: PathView, fuel: nat) -> PathView
    decreases fuel,
{
    if fuel == 0 {
        p
    } else {
        match step_from(rules, p, 0) {
            None => p,
            Some(q) => spec_norm(rules, q, (fuel - 1) as nat),
        }
    }
}

/// How many rewrites the normalization with `fuel` passes applies.
pub open spec fn spec_norm_count(rules: Seq<(PathView, PathView)>, p: PathView, fuel: nat) -> nat
    decreases fuel,
{
    if fuel == 0 {
        0
    } else {
        match step_from(rules, p, 0) {
            None => 0,
            Some(q) => 1 + spec_norm_count(rules, q, (fuel - 1) as nat),
        }
    }
}

/// The name of the first rule at or after position `ri` that changes
/// the path, with the path it produces.
pub open spec fn trace_step_from(rules: Seq<RewriteRuleView>, p: PathView, ri: int) -> Option<
    (Seq<char>, PathView),
>
    decreases rules.len() - ri,
{
    if ri < 0 || ri >= rules.len() {
        None
    } else {
        match spec_apply(rules[ri], p) {
            Some(q) => if q != p {
                Some((rules[ri].name, q))
            } else {
                trace_step_from(rules, p, ri + 1)
            },
            None => trace_step_from(rules, p, ri + 1),
        }
    }
}

/// The names of the rules the normalization applies, in application
/// order, under `fuel` passes.
pub open spec fn spec_norm_trace(rules: Seq<RewriteRuleView>, p: PathView, fuel: nat) -> Seq<
    Seq<char>,
>
    decreases fuel,
{
    if fuel == 0 {
        Seq::empty()
    } else {
        match trace_step_from(rules, p, 0) {
            None => Seq::empty(),
            Some(s) => seq![s.0] + spec_norm_trace(rules, s.1, (fuel - 1) as nat),
        }
    }
}

/// When every rule before `ri` leaves the path unchanged, the named scan
/// from the head agrees with the scan from `ri`.
proof fn lemma_trace_step_skips(rules: Seq<RewriteRuleView>, p: PathView, ri: int)
    requires
        0 <= ri <= rules.len(),
        forall|rj: int|
            0 <= rj < ri ==> (#[trigger] spec_apply(rules[rj], p)) is None || spec_apply(
                rules[rj],
                p,
            ) == Some(p),
    ensures
        trace_step_from(rules, p, 0) == trace_step_from(rules, p, ri),
    decreases ri,
{
    if ri > 0 {
        lemma_trace_step_skips(rules, p, ri - 1);
        assert(trace_step_from(rules, p, ri - 1) == trace_step_from(rules, p, ri));
    }
}

/// When every rule before `ri` leaves the path unchanged, the scan from
/// the head agrees with the scan from `ri`.
proof fn lemma_step_from_skips(rules: Seq<(PathView, PathView)>, p: PathView, ri: int)
    requires
        0 <= ri <= rules.len(),
        forall|rj: int|
            0 <= rj < ri ==> (#[trigger] apply_core(rules[rj].0, rules[rj].1, p)) is None
                || apply_core(rules[rj].0, rules[rj].1, p) == Some(p),
    ensures
        step_from(rules, p, 0) == step_from(rules, p, ri),
    decreases ri,
{
    if ri > 0 {
        lemma_step_from_skips(rules, p, ri - 1);
        assert(step_from(rules, p, ri - 1) == step_from(rules, p, ri));
    }
}

/// One rewrite: some rule of the set applies and yields `q`.
pub open spec fn rewrite_step(rules: Seq<RewriteRuleView>, p: PathView, q: PathView) -> bool {
    exists|ri: int| 0 <= ri < rules.len() && spec_apply(rules[ri], p) == Some(q)
}

/// `q` is reached from `p` by at most `n` rewrites.
pub open spec fn reachable(rules: Seq<RewriteRuleView>, p: PathView, q: PathView, n: nat) -> bool
    decreases n,
{
    p == q || (n > 0 && exists|m: PathView|
        rewrite_step(rules, p, m) && reachable(rules, m, q, (n - 1) as nat))
}

/// No rule of the set changes the path: every rule either does not apply
/// or reproduces the path unchanged.
pub open spec fn inert(rules: Seq<RewriteRuleView>, p: PathView) -> bool {
    forall|ri: int|
        0 <= ri < rules.len() ==> (#[trigger] spec_apply(rules[ri], p)) is None || spec_apply(
            rules[ri],
            p,
        ) == Some(p)
}

/// Every rule of the set keeps lengths from growing.
pub open spec fn rules_wf(rules: Seq<RewriteRuleView>) -> bool {
    forall|ri: int| 0 <= ri < rules.len() ==> (#[trigger] rules[ri]).wf()
}

/// Shifting a match index under `skip(1)`.
proof fn lemma_match_shift(edges: Seq<Seq<char>>, pat: Seq<Seq<char>>, i: int)
    requires
        i >= 1,
        edges.len() >= 1,
    ensures
        match_at(edges, pat, i) == match_at(edges.skip(1), pat, i - 1),
{
    if i + pat.len() <= edges.len() {
        assert(edges.subrange(i, i + pat.len()) =~= edges.skip(1).subrange(
            i - 1,
            i - 1 + pat.len(),
        ));
    } else {
        assert(!match_at(edges, pat, i));
        assert(!match_at(edges.skip(1), pat, i - 1));
    }
}

/// `first_match` returns the smallest position at which the pattern
/// occurs, and `None` exactly when it occurs nowhere.
proof fn lemma_first_match_correct(edges: Seq<Seq<char>>, pat: Seq<Seq<char>>)
    requires
        pat.len() > 0,
    ensures
        match first_match(edges, pat) {
            Some(i) => match_at(edges, pat, i) && forall|j: int|
                0 <= j < i ==> !match_at(edges, pat, j),
            None => forall|j: int| !match_at(edges, pat, j),
        },
    decreases edges.len(),
{
    if pat.len() > edges.len() {
        assert(forall|j: int| !match_at(edges, pat, j));
    } else if edges.subrange(0, pat.len() as int) == pat {
        assert(match_at(edges, pat, 0));
    } else {
        lemma_first_match_correct(edges.skip(1), pat);
        assert(!match_at(edges, pat, 0));
        assert(forall|j: int| j >= 1 ==> match_at(edges, pat, j) == match_at(
            edges.skip(1),
            pat,
            j - 1,
        )) by {
            assert forall|j: int| j >= 1 implies match_at(edges, pat, j) == match_at(
                edges.skip(1),
                pat,
                j - 1,
            ) by {
                lemma_match_shift(edges, pat, j);
            }
        }
    }
}

/// Applying a well-formed rule never lengthens the path and keeps its
/// start node.
proof fn lemma_apply_shrinks(rule: RewriteRuleView, p: PathView, q: PathView)
    requires
        rule.wf(),
        spec_apply(rule, p) == Some(q),
    ensures
        q.start == p.start,
        q.edges.len() <= p.edges.len(),
{
    lemma_first_match_correct(p.edges, rule.lhs.edges);
    let i = first_match(p.edges, rule.lhs.edges)->Some_0;
    assert(match_at(p.edges, rule.lhs.edges, i));
}

/// Reaching in `n` steps and stepping once more reaches in `n + 1`.
proof fn lemma_reachable_extend(
    rules: Seq<RewriteRuleView>,
    p: PathView,
    m: PathView,
    q: PathView,
    n: nat,
)
    requires
        reachable(rules, p, m, n),
        rewrite_step(rules, m, q),
    ensures
        reachable(rules, p, q, n + 1),
    decreases n,
{
    if p == m {
        assert(reachable(rules, q, q, n));
    } else {
        let m1 = choose|m1: PathView|
            rewrite_step(rules, p, m1) && reachable(rules, m1, m, (n - 1) as nat);
        lemma_reachable_extend(rules, m1, m, q, (n - 1) as nat);
    }
}

/// From a path that no rule rewrites, nothing else is reachable.
proof fn lemma_reachable_stuck(rules: Seq<RewriteRuleView>, p: PathView, q: PathView, n: nat)
    requires
        reachable(rules, p, q, n),
        forall|ri: int| 0 <= ri < rules.len() ==> (#[trigger] spec_apply(rules[ri], p)) is None,
    ensures
        q == p,
    decreases n,
{
    if p != q {
        let m = choose|m: PathView|
            rewrite_step(rules, p, m) && reachable(rules, m, q, (n - 1) as nat);
        let ri = choose|ri: int| 0 <= ri < rules.len() && spec_apply(rules[ri], p) == Some(m);
        assert(spec_apply(rules[ri], p) is None);
    }
}

/// For a single strictly shortening rule, the only path reachable from
/// the rule's own pattern at which the rule is inert is the rule's
/// replacement: the normal form of the pattern is the replacement.
pub proof fn lemma_single_rule_normal_form(rule: RewriteRuleView, q: PathView, n: nat)
    requires
        rule.wf(),
        rule.rhs.edges.len() < rule.lhs.edges.len(),
        reachable(
            seq![rule],
            (PathView { start: rule.lhs.start, edges: rule.lhs.edges }),
            q,
            n,
        ),
        inert(seq![rule], q),
    ensures
        q == (PathView { start: rule.lhs.start, edges: rule.rhs.edges }),
{
    let rules = seq![rule];
    let l = PathView { start: rule.lhs.start, edges: rule.lhs.edges };
    let r = PathView { start: rule.lhs.start, edges: rule.rhs.edges };
    // The rule applies to its own pattern, replacing the whole edge list.
    assert(l.edges.subrange(0, rule.lhs.edges.len() as int) =~= rule.lhs.edges);
    assert(first_match(l.edges, rule.lhs.edges) == Some(0int));
    assert(splice(l.edges, 0, rule.lhs.edges.len() as int, rule.rhs.edges) =~= rule.rhs.edges);
    assert(spec_apply(rule, l) == Some(r));
    // The rule cannot apply to the replacement: the pattern is longer.
    assert(first_match(r.edges, rule.lhs.edges) is None);
    assert(spec_apply(rule, r) is None);
    assert(forall|ri: int|
        0 <= ri < rules.len() ==> (#[trigger] spec_apply(rules[ri], r)) is None);
    if q == l {
        assert(spec_apply(rules[0], q) == Some(r));
        assert(r != l);
        assert(false);
    } else {
        let m = choose|m: PathView|
            rewrite_step(rules, l, m) && reachable(rules, m, q, (n - 1) as nat);
        let ri = choose|ri: int| 0 <= ri < rules.len() && spec_apply(rules[ri], l) == Some(m);
        assert(m == r);
        lemma_reachable_stuck(rules, r, q, (n - 1) as nat);
    }
}

/// The result of one optimization: the path before and after, the names
/// of the rules applied, and how many edges were saved.
#[derive(Debug, Clone)]
pub struct OptimizationResult {
    pub original: Path,
    pub optimized: Path,
    pub rules_applied: Vec<std::string::String>,
    pub joins_eliminated: usize,
}

/// The rewrite system derived from a schema's path equations.
#[derive(Debug, Clone)]
pub struct PathOptimizer {
    pub rules: Vec<RewriteRule>,
}

impl View for PathOptimizer {
    type V = Seq<RewriteRuleView>;

    open spec fn view(&self) -> Seq<RewriteRuleView> {
        self.rules@.map_values(|r: RewriteRule| r@)
    }
}

impl PathOptimizer {
    /// Tries one rule on one path: replaces the first occurrence of the
    /// rule's pattern, provided the path is anchored at the rule's start
    /// node.
    fn apply_rule(&self, path: &Path, rule: &RewriteRule) -> (r: Option<Path>)
        ensures
            match r {
                Some(p) => spec_apply(rule@, path@) == Some(p@),
                None => spec_apply(rule@, path@) is None,
            },
    {
        if !str_eq(path.start.as_str(), rule.lhs.start.as_str()) {
            return None;
        }
        let plen = rule.lhs.edges.len();
        if plen == 0 || path.edges.len() < plen {
            proof {
                if plen > 0 {
                    assert(first_match(path@.edges, rule@.lhs.edges) is None);
                }
            }
            return None;
        }
        let ghost tview = path@.edges;
        let ghost pview = rule@.lhs.edges;
        let tlen = path.edges.len();
        let mut i: usize = 0;
        while i <= tlen - plen
            invariant
                tview == path@.edges,
                pview == rule@.lhs.edges,
                path@.start == rule@.lhs.start,
                tlen == tview.len(),
                plen == pview.len(),
                0 < plen <= tlen,
                0 <= i <= tlen - plen + 1,
                forall|j: int| 0 <= j < i ==> !match_at(tview, pview, j),
            decreases tlen - plen - i + 1,
        {
            if window_eq(&path.edges, i, &rule.lhs.edges) {
                proof {
                    assert(match_at(tview, pview, i as int));
                    lemma_first_match_correct(tview, pview);
                    match first_match(tview, pview) {
                        Some(k) => {
                            assert(!(k < i) && !(i < k));
                        },
                        None => {
                            assert(false);
                        },
                    }
                }
                let ghost rview = rule@.rhs.edges;
                let rlen = rule.rhs.edges.len();
                let mut out: Vec<std::string::String> = Vec::new();
                let mut k: usize = 0;
                while k < i
                    invariant
                        tview == path@.edges,
                        0 <= k <= i <= tview.len(),
                        out@.len() == k,
                        forall|j: int| 0 <= j < k ==> names_view(out@)[j] == tview[j],
                    decreases i - k,
                {
                    let ghost pre = out@;
                    out.push(path.edges[k].clone());
                    proof {
                        assert(out@.last()@ == tview[k as int]);
                        assert(forall|j: int|
                            0 <= j < k ==> names_view(out@)[j] == names_view(pre)[j]);
                    }
                    k += 1;
                }
                let mut k2: usize = 0;
                while k2 < rlen
                    invariant
                        tview == path@.edges,
                        rview == rule@.rhs.edges,
                        rlen == rview.len(),
                        0 <= i <= tview.len(),
                        0 <= k2 <= rlen,
                        out@.len() == i + k2,
                        forall|j: int| 0 <= j < i ==> names_view(out@)[j] == tview[j],
                        forall|j: int|
                            0 <= j < k2 ==> names_view(out@)[i + j] == #[trigger] rview[j],
                    decreases rlen - k2,
                {
                    let ghost pre = out@;
                    out.push(rule.rhs.edges[k2].clone());
                    proof {
                        assert(out@.last()@ == rview[k2 as int]);
                        assert(forall|j: int|
                            0 <= j < i + k2 ==> names_view(out@)[j] == names_view(pre)[j]);
                    }
                    k2 += 1;
                }
                let mut k3: usize = i + plen;
                while k3 < tlen
                    invariant
                        tview == path@.edges,
                        rview == rule@.rhs.edges,
                        rlen == rview.len(),
                        tlen == tview.len(),
                        plen == rule@.lhs.edges.len(),
                        0 <= i,
                        i + plen <= k3 <= tlen,
                        out@.len() == i + rlen + k3 - i - plen,
                        forall|j: int| 0 <= j < i ==> names_view(out@)[j] == tview[j],
                        forall|j: int|
                            0 <= j < rlen ==> names_view(out@)[i + j] == #[trigger] rview[j],
                        forall|j: int|
                            i + plen <= j < k3 ==> names_view(out@)[j - plen + rlen]
                                == #[trigger] tview[j],
                    decreases tlen - k3,
                {
                    let ghost pre = out@;
                    out.push(path.edges[k3].clone());
                    proof {
                        assert(out@.last()@ == tview[k3 as int]);
                        assert(forall|j: int|
                            0 <= j < pre.len() ==> names_view(out@)[j] == names_view(pre)[j]);
                        assert(names_view(out@)[k3 - plen + rlen] == tview[k3 as int]);
                    }
                    k3 += 1;
                }
                proof {
                    assert(names_view(out@) =~= splice(
                        tview,
                        i as int,
                        plen as int,
                        rview,
                    ));
                    lemma_first_match_correct(tview, pview);
                    assert(match_at(tview, pview, i as int));
                    let fm = first_match(tview, pview);
                    if fm is None {
                        assert(false);
                    }
                    let k = fm->Some_0;
                    if k < i {
                        assert(!match_at(tview, pview, k));
                        assert(false);
                    }
                    if i < k {
                        assert(!match_at(tview, pview, i as int));
                        assert(false);
                    }
                    assert(first_match(tview, pview) == Some(i as int));
                    assert(spec_apply(rule@, path@) is Some);
                }
                return Some(Path { start: path.start.clone(), edges: out });
            }
            i += 1;
        }
        proof {
            assert(forall|j: int| !match_at(tview, pview, j));
            lemma_first_match_correct(tview, pview);
            match first_match(tview, pview) {
                Some(k) => {
                    assert(match_at(tview, pview, k));
                    assert(false);
                },
                None => {},
            }
        }
        None
    }

    /// Rewrites a path to a normal form under the rule set.
    ///
    /// The result is exactly `spec_norm` of the path under the rules with
    /// a fuel of 100 passes, and as many rules are recorded as that
    /// normalization applies.  It never lengthens the path and keeps its
    /// start node; `joins_eliminated` is exactly the number of edges
    /// saved.  A path that no rule changes comes back untouched; unless
    /// the pass cap was exhausted the result is a fixed point, and it is
    /// always reachable from the input by rule applications.
    pub fn optimize(&self, path: &Path) -> (r: OptimizationResult)
        requires
            rules_wf(self@),
        ensures
            r.original@ == path@,
            r.optimized@ == spec_norm(core_of(self@), path@, 100),
            r.rules_applied@.len() == spec_norm_count(core_of(self@), path@, 100),
            names_view(r.rules_applied@) == spec_norm_trace(self@, path@, 100),
            r.optimized@.start == path@.start,
            r.optimized@.edges.len() <= path@.edges.len(),
            r.joins_eliminated == path@.edges.len() - r.optimized@.edges.len(),
            inert(self@, path@) ==> r.optimized@ == path@ && r.rules_applied@.len() == 0,
            r.rules_applied@.len() < 100 ==> inert(self@, r.optimized@),
            exists|n: nat| reachable(self@, path@, r.optimized@, n),
    {
        let original = path.duplicate();
        let mut current = path.duplicate();
        let mut rules_applied: Vec<std::string::String> = Vec::new();
        let mut changed = true;
        let mut iteration: usize = 0;
        let ghost core = core_of(self@);
        proof {
            assert(reachable(self@, path@, current@, 0nat));
        }
        while changed && iteration < 100
            invariant
                rules_wf(self@),
                core == core_of(self@),
                current@.start == path@.start,
                current@.edges.len() <= path@.edges.len(),
                exists|n: nat| reachable(self@, path@, current@, n),
                inert(self@, path@) ==> current@ == path@ && rules_applied@.len() == 0,
                changed ==> rules_applied@.len() == iteration,
                iteration == 0 ==> changed,
                !changed && iteration > 0 ==> inert(self@, current@),
                rules_applied@.len() <= iteration <= 100,
                spec_norm(core, path@, 100) == spec_norm(
                    core,
                    current@,
                    (100 - rules_applied@.len()) as nat,
                ),
                spec_norm_count(core, path@, 100) == rules_applied@.len() + spec_norm_count(
                    core,
                    current@,
                    (100 - rules_applied@.len()) as nat,
                ),
                spec_norm_trace(self@, path@, 100) == names_view(rules_applied@)
                    + spec_norm_trace(self@, current@, (100 - rules_applied@.len()) as nat),
            decreases 100 - iteration,
        {
            changed = false;
            iteration += 1;
            let ghost entry = current@;
            let ghost entry_len = rules_applied@.len();
            let ghost entry_applied = rules_applied@;
            let mut ri: usize = 0;
            while ri < self.rules.len() && !changed
                invariant
                    rules_wf(self@),
                    core == core_of(self@),
                    0 <= ri <= self.rules@.len(),
                    self@.len() == self.rules@.len(),
                    entry.start == path@.start,
                    entry.edges.len() <= path@.edges.len(),
                    exists|n: nat| reachable(self@, path@, entry, n),
                    inert(self@, path@) ==> entry == path@ && entry_len == 0,
                    !changed ==> current@ == entry && rules_applied@ == entry_applied
                        && rules_applied@.len() == entry_len && forall|rj: int|
                        0 <= rj < ri ==> (#[trigger] spec_apply(self@[rj], entry)) is None
                            || spec_apply(self@[rj], entry) == Some(entry),
                    changed ==> (exists|rj: int|
                        0 <= rj < self@.len() && #[trigger] spec_apply(self@[rj], entry) == Some(
                            current@,
                        )) && current@ != entry && current@.start == entry.start
                        && current@.edges.len() <= entry.edges.len() && rules_applied@.len()
                        == entry_len + 1 && step_from(core, entry, 0) == Some(current@)
                        && trace_step_from(self@, entry, 0) == Some(
                        (rules_applied@.last()@, current@),
                    ) && rules_applied@ == entry_applied.push(rules_applied@.last()),
                decreases self.rules@.len() - ri,
            {
                let rule = &self.rules[ri];
                match self.apply_rule(&current, rule) {
                    Some(new_path) => {
                        if !new_path.same_as(&current) {
                            proof {
                                assert(spec_apply(self@[ri as int], entry) == Some(new_path@));
                                lemma_apply_shrinks(self@[ri as int], entry, new_path@);
                                assert forall|rj: int| 0 <= rj < ri implies (
                                #[trigger] apply_core(core[rj].0, core[rj].1, entry)) is None
                                    || apply_core(core[rj].0, core[rj].1, entry) == Some(
                                    entry,
                                ) by {
                                    assert(core[rj] == (self@[rj].lhs, self@[rj].rhs));
                                    assert(spec_apply(self@[rj], entry) is None || spec_apply(
                                        self@[rj],
                                        entry,
                                    ) == Some(entry));
                                }
                                lemma_step_from_skips(core, entry, ri as int);
                                assert(apply_core(core[ri as int].0, core[ri as int].1, entry)
                                    == Some(new_path@));
                                assert(step_from(core, entry, ri as int) == Some(new_path@));
                                lemma_trace_step_skips(self@, entry, ri as int);
                                assert(trace_step_from(self@, entry, ri as int) == Some(
                                    (self@[ri as int].name, new_path@),
                                ));
                                assert(rule.name@ == self@[ri as int].name);
                            }
                            rules_applied.push(rule.name.clone());
                            current = new_path;
                            changed = true;
                        }
                    },
                    None => {},
                }
                ri += 1;
            }
            proof {
                if changed {
                    let n0 = choose|n: nat| reachable(self@, path@, entry, n);
                    assert(rewrite_step(self@, entry, current@));
                    lemma_reachable_extend(self@, path@, entry, current@, n0);
                    if inert(self@, path@) {
                        let rj = choose|rj: int|
                            0 <= rj < self@.len() && spec_apply(self@[rj], entry) == Some(
                                current@,
                            );
                        assert(spec_apply(self@[rj], path@) is None || spec_apply(
                            self@[rj],
                            path@,
                        ) == Some(path@));
                        assert(false);
                    }
                    // One pass consumed one unit of fuel.
                    let fuel = (100 - entry_len) as nat;
                    assert(entry_len <= 99);
                    assert(fuel >= 1);
                    assert(spec_norm(core, entry, fuel) == spec_norm(
                        core,
                        current@,
                        (fuel - 1) as nat,
                    ));
                    assert(spec_norm_count(core, entry, fuel) == 1 + spec_norm_count(
                        core,
                        current@,
                        (fuel - 1) as nat,
                    ));
                    assert(spec_norm_trace(self@, entry, fuel) == seq![
                        rules_applied@.last()@,
                    ] + spec_norm_trace(self@, current@, (fuel - 1) as nat));
                    assert(names_view(rules_applied@) =~= names_view(entry_applied).push(
                        rules_applied@.last()@,
                    ));
                    assert(names_view(entry_applied) + (seq![rules_applied@.last()@]
                        + spec_norm_trace(self@, current@, (fuel - 1) as nat)) =~= names_view(
                        rules_applied@,
                    ) + spec_norm_trace(self@, current@, (fuel - 1) as nat));
                } else {
                    assert(inert(self@, current@));
                    assert forall|rj: int| 0 <= rj < core.len() implies (#[trigger] apply_core(
                        core[rj].0,
                        core[rj].1,
                        current@,
                    )) is None || apply_core(core[rj].0, core[rj].1, current@) == Some(
                        current@,
                    ) by {
                        assert(core[rj] == (self@[rj].lhs, self@[rj].rhs));
                        assert(spec_apply(self@[rj], current@) is None || spec_apply(
                            self@[rj],
                            current@,
                        ) == Some(current@));
                    }
                    lemma_step_from_skips(core, current@, core.len() as int);
                    assert(step_from(core, current@, 0) is None);
                    lemma_trace_step_skips(self@, current@, self@.len() as int);
                    assert(trace_step_from(self@, current@, 0) is None);
                }
            }
        }
        proof {
            // At exit the path is a fixed point, or the fuel is spent.
            let fuel = (100 - rules_applied@.len()) as nat;
            if !changed {
                assert(inert(self@, current@));
                assert forall|rj: int| 0 <= rj < core.len() implies (#[trigger] apply_core(
                    core[rj].0,
                    core[rj].1,
                    current@,
                )) is None || apply_core(core[rj].0, core[rj].1, current@) == Some(current@) by {
                    assert(core[rj] == (self@[rj].lhs, self@[rj].rhs));
                    assert(spec_apply(self@[rj], current@) is None || spec_apply(
                        self@[rj],
                        current@,
                    ) == Some(current@));
                }
                lemma_step_from_skips(core, current@, core.len() as int);
                assert(step_from(core, current@, 0) is None);
                lemma_trace_step_skips(self@, current@, self@.len() as int);
                assert(trace_step_from(self@, current@, 0) is None);
                assert(spec_norm(core, current@, fuel) == current@);
                assert(spec_norm_count(core, current@, fuel) == 0);
                assert(spec_norm_trace(self@, current@, fuel) =~= Seq::<Seq<char>>::empty());
            } else {
                assert(rules_applied@.len() == 100);
                assert(spec_norm(core, current@, 0nat) == current@);
                assert(spec_norm_count(core, current@, 0nat) == 0);
                assert(spec_norm_trace(self@, current@, 0nat) =~= Seq::<Seq<char>>::empty());
            }
            assert(names_view(rules_applied@) + Seq::<Seq<char>>::empty() =~= names_view(
                rules_applied@,
            ));
        }
        let je = original.len() - current.len();
        OptimizationResult { original, optimized: current, rules_applied, joins_eliminated: je }
    }

    /// Rewrites a path and returns only the normal form.
    pub fn optimize_path(&self, path: &Path) -> (r: Path)
        requires
            rules_wf(self@),
        ensures
            r@ == spec_norm(core_of(self@), path@, 100),
            r@.start == path@.start,
            r@.edges.len() <= path@.edges.len(),
            inert(self@, path@) ==> r@ == path@,
            exists|n: nat| reachable(self@, path@, r@, n),
    {
        self.optimize(path).optimized
    }

    /// The number of edges that optimizing this path eliminates.
    pub fn joins_saved(&self, path: &Path) -> (r: usize)
        requires
            rules_wf(self@),
        ensures
            r == path@.edges.len() - spec_norm(core_of(self@), path@, 100).edges.len(),
            r <= path@.edges.len(),
            inert(self@, path@) ==> r == 0,
    {
        self.optimize(path).joins_eliminated
    }
}

/// `a` is a prefix of `b`.
pub open spec fn is_prefix(a: Seq<Seq<char>>, b: Seq<Seq<char>>) -> bool {
    a.len() <= b.len() && a == b.subrange(0, a.len() as int)
}

/// The rule's pattern begins with one side of one of the equations,
/// anchored at that side's start node.
pub open spec fn rule_rooted(rule: RewriteRuleView, eqs: Seq<PathEquationView>) -> bool {
    exists|j: int|
        0 <= j < eqs.len() && ((rule.lhs.start == (#[trigger] eqs[j]).lhs.start && is_prefix(
            eqs[j].lhs.edges,
            rule.lhs.edges,
        )) || (rule.lhs.start == eqs[j].rhs.start && is_prefix(eqs[j].rhs.edges, rule.lhs.edges)))
}

/// One side of an equation occurs in the path: same start node, and the
/// side's edge chain appears contiguously.
pub open spec fn occurs_in(p: PathView, side: PathView) -> bool {
    p.start == side.start && exists|i: int| match_at(p.edges, side.edges, i)
}

/// A prefix of something is also a prefix of its extension.
proof fn lemma_prefix_extend(a: Seq<Seq<char>>, b: Seq<Seq<char>>, c: Seq<Seq<char>>)
    requires
        is_prefix(a, b),
    ensures
        is_prefix(a, b + c),
{
    assert((b + c).subrange(0, a.len() as int) =~= b.subrange(0, a.len() as int));
}

/// Where a pattern matches, so does any prefix of it.
proof fn lemma_match_prefix(edges: Seq<Seq<char>>, pat: Seq<Seq<char>>, pre: Seq<Seq<char>>, i: int)
    requires
        match_at(edges, pat, i),
        is_prefix(pre, pat),
    ensures
        match_at(edges, pre, i),
{
    assert(edges.subrange(i, i + pre.len()) =~= edges.subrange(i, i + pat.len()).subrange(
        0,
        pre.len() as int,
    ));
}

/// A path in which no equation side occurs is untouched by every rule
/// rooted in those equations: no such rule can apply to it at all.
pub proof fn lemma_equations_inert(
    rules: Seq<RewriteRuleView>,
    eqs: Seq<PathEquationView>,
    p: PathView,
)
    requires
        forall|ri: int| 0 <= ri < rules.len() ==> rule_rooted(#[trigger] rules[ri], eqs),
        forall|j: int|
            0 <= j < eqs.len() ==> !occurs_in(p, (#[trigger] eqs[j]).lhs) && !occurs_in(
                p,
                eqs[j].rhs,
            ),
    ensures
        inert(rules, p),
{
    assert forall|ri: int|
        0 <= ri < rules.len() implies (#[trigger] spec_apply(rules[ri], p)) is None by {
        let rule = rules[ri];
        if spec_apply(rule, p) is Some {
            assert(p.start == rule.lhs.start);
            assert(rule.lhs.edges.len() > 0);
            lemma_first_match_correct(p.edges, rule.lhs.edges);
            let i = first_match(p.edges, rule.lhs.edges)->Some_0;
            assert(match_at(p.edges, rule.lhs.edges, i));
            assert(rule_rooted(rule, eqs));
            let j = choose|j: int|
                0 <= j < eqs.len() && ((rule.lhs.start == (#[trigger] eqs[j]).lhs.start
                    && is_prefix(eqs[j].lhs.edges, rule.lhs.edges)) || (rule.lhs.start
                    == eqs[j].rhs.start && is_prefix(eqs[j].rhs.edges, rule.lhs.edges)));
            if rule.lhs.start == eqs[j].lhs.start && is_prefix(eqs[j].lhs.edges, rule.lhs.edges) {
                lemma_match_prefix(p.edges, rule.lhs.edges, eqs[j].lhs.edges, i);
                assert(occurs_in(p, eqs[j].lhs));
            } else {
                lemma_match_prefix(p.edges, rule.lhs.edges, eqs[j].rhs.edges, i);
                assert(occurs_in(p, eqs[j].rhs));
            }
        }
    }
}

impl RewriteRule {
    /// Copies the rule, preserving its view.
    pub fn duplicate(&self) -> (r: RewriteRule)
        ensures
            r@ == self@,
    {
        RewriteRule { lhs: self.lhs.duplicate(), rhs: self.rhs.duplicate(), name: self.name.clone() }
    }
}

/// Decides whether the names in `a` form a prefix of the names in `b`.
fn prefix_eq(a: &Vec<std::string::String>, b: &Vec<std::string::String>) -> (r: bool)
    ensures
        r == is_prefix(names_view(a@), names_view(b@)),
{
    let ghost av = names_view(a@);
    let ghost bv = names_view(b@);
    if a.len() > b.len() {
        return false;
    }
    let mut j: usize = 0;
    while j < a.len()
        invariant
            av == names_view(a@),
            bv == names_view(b@),
            av.len() <= bv.len(),
            0 <= j <= av.len(),
            forall|k: int| 0 <= k < j ==> av[k] == bv[k],
        decreases a@.len() - j,
    {
        if !(a[j] == b[j]) {
            proof {
                assert(av[j as int] != bv.subrange(0, av.len() as int)[j as int]);
            }
            return false;
        }
        j += 1;
    }
    proof {
        assert(av =~= bv.subrange(0, av.len() as int));
    }
    true
}

/// The orientation of one equation into (pattern, replacement): the
/// longer side becomes the pattern; at equal lengths the side with the
/// lexicographically larger printed form does.
pub open spec fn oriented_core(q: PathEquationView) -> (PathView, PathView) {
    if q.lhs.edges.len() > q.rhs.edges.len() {
        (q.lhs, q.rhs)
    } else if q.rhs.edges.len() > q.lhs.edges.len() {
        (q.rhs, q.lhs)
    } else if crate::text::lex_lt(q.rhs.rendered(), q.lhs.rendered()) {
        (q.lhs, q.rhs)
    } else {
        (q.rhs, q.lhs)
    }
}

/// One oriented rule per equation, in equation order.
pub open spec fn base_rules_core(eqs: Seq<PathEquationView>) -> Seq<(PathView, PathView)> {
    eqs.map_values(|q: PathEquationView| oriented_core(q))
}

/// The transitive rule combined from two rules: defined when the first
/// rule's replacement is a non-empty prefix of the second rule's
/// pattern, anchored at the same node, and the combination strictly
/// shortens; its pattern is the first pattern followed by the unshared
/// tail of the second, its replacement the second replacement.
pub open spec fn combined_core(r1: (PathView, PathView), r2: (PathView, PathView)) -> Option<
    (PathView, PathView),
> {
    if r1.1.start == r2.0.start && r1.1.edges.len() > 0 && r2.0.edges.len() > 0 && is_prefix(
        r1.1.edges,
        r2.0.edges,
    ) && r1.0.edges.len() + r2.0.edges.len() - r1.1.edges.len() > r2.1.edges.len() {
        Some(
            (
                (PathView {
                    start: r1.0.start,
                    edges: r1.0.edges + r2.0.edges.skip(r1.1.edges.len() as int),
                }),
                r2.1,
            ),
        )
    } else {
        None
    }
}

/// The derived transitive rules of all ordered pairs from `(a, b)` on,
/// the second index scanning innermost; a rule combines with every other
/// rule but not with itself.
pub open spec fn derived_from(base: Seq<(PathView, PathView)>, a: int, b: int) -> Seq<
    (PathView, PathView),
>
    decreases base.len() - a, base.len() - b,
{
    if a < 0 || b < 0 || a >= base.len() {
        Seq::empty()
    } else if b >= base.len() {
        derived_from(base, a + 1, 0)
    } else if a == b {
        derived_from(base, a, b + 1)
    } else {
        match combined_core(base[a], base[b]) {
            Some(c) => seq![c] + derived_from(base, a, b + 1),
            None => derived_from(base, a, b + 1),
        }
    }
}

/// The full rule set of a schema: the oriented equations followed by
/// their derived transitive rules.
pub open spec fn schema_rules_core(eqs: Seq<PathEquationView>) -> Seq<(PathView, PathView)> {
    base_rules_core(eqs) + derived_from(base_rules_core(eqs), 0, 0)
}

impl PathOptimizer {
    /// Builds the rewrite system of a schema.
    ///
    /// Each path equation is oriented so that the longer side becomes the
    /// pattern; equally long sides are oriented by the lexicographic order
    /// of their printed forms, the larger one becoming the pattern.  On
    /// top of these, a transitive rule is derived for every pair whose
    /// replacement is a prefix of another pattern, provided the combined
    /// rule strictly shortens.  The patterns and replacements built are
    /// exactly `schema_rules_core` of the schema's equations, and every
    /// rule's pattern extends one side of one of those equations.
    pub fn from_schema(schema: &Schema) -> (r: PathOptimizer)
        ensures
            rules_wf(r@),
            core_of(r@) == schema_rules_core(schema@.equations),
            forall|ri: int|
                0 <= ri < r@.len() ==> rule_rooted(#[trigger] r@[ri], schema@.equations),
    {
        let ghost eqs = schema@.equations;
        let ghost base = base_rules_core(eqs);
        let mut rules: Vec<RewriteRule> = Vec::new();
        let mut i: usize = 0;
        while i < schema.path_equations.len()
            invariant
                eqs == schema@.equations,
                base == base_rules_core(eqs),
                0 <= i <= schema.path_equations@.len(),
                rules@.len() == i,
                forall|ri: int|
                    0 <= ri < i ==> ((#[trigger] rules@[ri])@.lhs, rules@[ri]@.rhs) == base[ri],
                forall|ri: int| 0 <= ri < rules@.len() ==> (#[trigger] rules@[ri])@.wf(),
                forall|ri: int|
                    0 <= ri < rules@.len() ==> rule_rooted(
                        (#[trigger] rules@[ri])@,
                        schema@.equations,
                    ),
            decreases schema.path_equations@.len() - i,
        {
            let eq = &schema.path_equations[i];
            let mut name = String::from_str("eq_");
            let digits = dec_string(i);
            name.append(digits.as_str());
            let oriented: RewriteRule = if eq.lhs.len() > eq.rhs.len() {
                RewriteRule { lhs: eq.lhs.duplicate(), rhs: eq.rhs.duplicate(), name }
            } else if eq.rhs.len() > eq.lhs.len() {
                RewriteRule { lhs: eq.rhs.duplicate(), rhs: eq.lhs.duplicate(), name }
            } else {
                let ls = eq.lhs.display();
                let rs = eq.rhs.display();
                if str_lt(rs.as_str(), ls.as_str()) {
                    RewriteRule { lhs: eq.lhs.duplicate(), rhs: eq.rhs.duplicate(), name }
                } else {
                    RewriteRule { lhs: eq.rhs.duplicate(), rhs: eq.lhs.duplicate(), name }
                }
            };
            let ghost ov = oriented@;
            proof {
                assert(schema@.equations[i as int] == schema.path_equations@[i as int]@);
                assert((ov.lhs, ov.rhs) == oriented_core(eqs[i as int]));
                assert(base[i as int] == oriented_core(eqs[i as int]));
                assert(ov.lhs.edges =~= ov.lhs.edges.subrange(0, ov.lhs.edges.len() as int));
                assert(is_prefix(ov.lhs.edges, ov.lhs.edges));
                assert(rule_rooted(ov, schema@.equations));
            }
            rules.push(oriented);
            i += 1;
        }
        let base_len = rules.len();
        proof {
            assert(base =~= core_of(rules@.map_values(|r: RewriteRule| r@)));
        }
        let mut derived: Vec<RewriteRule> = Vec::new();
        let mut a: usize = 0;
        while a < base_len
            invariant
                eqs == schema@.equations,
                base == base_rules_core(eqs),
                base_len == rules@.len(),
                base.len() == base_len,
                0 <= a <= base_len,
                forall|ri: int|
                    0 <= ri < base_len ==> ((#[trigger] rules@[ri])@.lhs, rules@[ri]@.rhs)
                        == base[ri],
                forall|ri: int| 0 <= ri < rules@.len() ==> (#[trigger] rules@[ri])@.wf(),
                forall|ri: int|
                    0 <= ri < rules@.len() ==> rule_rooted(
                        (#[trigger] rules@[ri])@,
                        schema@.equations,
                    ),
                forall|ri: int| 0 <= ri < derived@.len() ==> (#[trigger] derived@[ri])@.wf(),
                forall|ri: int|
                    0 <= ri < derived@.len() ==> rule_rooted(
                        (#[trigger] derived@[ri])@,
                        schema@.equations,
                    ),
                derived_from(base, 0, 0) == core_of(derived@.map_values(|r: RewriteRule| r@))
                    + derived_from(base, a as int, 0),
            decreases base_len - a,
        {
            let mut b: usize = 0;
            while b < base_len
                invariant
                    eqs == schema@.equations,
                    base == base_rules_core(eqs),
                    base_len == rules@.len(),
                    base.len() == base_len,
                    0 <= a < base_len,
                    0 <= b <= base_len,
                    forall|ri: int|
                        0 <= ri < base_len ==> ((#[trigger] rules@[ri])@.lhs, rules@[ri]@.rhs)
                            == base[ri],
                    forall|ri: int| 0 <= ri < rules@.len() ==> (#[trigger] rules@[ri])@.wf(),
                    forall|ri: int|
                    0 <= ri < rules@.len() ==> rule_rooted(
                        (#[trigger] rules@[ri])@,
                        schema@.equations,
                    ),
                    forall|ri: int| 0 <= ri < derived@.len() ==> (#[trigger] derived@[ri])@.wf(),
                    forall|ri: int|
                    0 <= ri < derived@.len() ==> rule_rooted(
                        (#[trigger] derived@[ri])@,
                        schema@.equations,
                    ),
                    derived_from(base, 0, 0) == core_of(derived@.map_values(|r: RewriteRule| r@))
                        + derived_from(base, a as int, b as int),
                decreases base_len - b,
            {
                let ghost dpre = derived@.map_values(|r: RewriteRule| r@);
                if a != b {
                    let r1 = &rules[a];
                    let r2 = &rules[b];
                    let ghost c1 = base[a as int];
                    let ghost c2 = base[b as int];
                    proof {
                        assert((r1@.lhs, r1@.rhs) == c1);
                        assert((r2@.lhs, r2@.rhs) == c2);
                    }
                    if str_eq(r1.rhs.start.as_str(), r2.lhs.start.as_str()) && r1.rhs.edges.len()
                        > 0 && r2.lhs.edges.len() > 0 && prefix_eq(&r1.rhs.edges, &r2.lhs.edges) {
                        let cut = r1.rhs.edges.len();
                        let combined_len: u128 = r1.lhs.edges.len() as u128 + (r2.lhs.edges.len()
                            - cut) as u128;
                        let result_len: u128 = r2.rhs.edges.len() as u128;
                        if combined_len > result_len {
                            let ghost r1v = rules@[a as int]@;
                            let ghost r2v = rules@[b as int]@;
                            let mut ext = copy_strings(&r1.lhs.edges);
                            let mut k: usize = cut;
                            while k < r2.lhs.edges.len()
                                invariant
                                    r1v == rules@[a as int]@,
                                    r2v == rules@[b as int]@,
                                    r1v == r1@,
                                    r2v == r2@,
                                    base_len == rules@.len(),
                                    0 <= a < base_len,
                                    0 <= b < base_len,
                                    cut == r1v.rhs.edges.len(),
                                    cut <= k <= r2v.lhs.edges.len(),
                                    r1v.lhs.edges == names_view(rules@[a as int].lhs.edges@),
                                    r2v.lhs.edges == names_view(rules@[b as int].lhs.edges@),
                                    ext@.len() == r1v.lhs.edges.len() + k - cut,
                                    forall|j: int|
                                        0 <= j < r1v.lhs.edges.len() ==> names_view(ext@)[j]
                                            == #[trigger] r1v.lhs.edges[j],
                                    forall|j: int|
                                        cut <= j < k ==> names_view(ext@)[r1v.lhs.edges.len() + j
                                            - cut] == #[trigger] r2v.lhs.edges[j],
                                decreases r2.lhs.edges@.len() - k,
                            {
                                let ghost prev = ext@;
                                ext.push(r2.lhs.edges[k].clone());
                                proof {
                                    assert(ext@.last()@ == r2v.lhs.edges[k as int]);
                                    assert(forall|j: int|
                                        0 <= j < prev.len() ==> names_view(ext@)[j] == names_view(
                                            prev,
                                        )[j]);
                                }
                                k += 1;
                            }
                            proof {
                                assert(names_view(ext@) =~= r1v.lhs.edges + r2v.lhs.edges.skip(
                                    cut as int,
                                ));
                            }
                            let mut dname = String::from_str("derived_");
                            let da = dec_string(a);
                            dname.append(da.as_str());
                            dname.append("_");
                            let db = dec_string(b);
                            dname.append(db.as_str());
                            let newrule = RewriteRule {
                                lhs: Path { start: r1.lhs.start.clone(), edges: ext },
                                rhs: r2.rhs.duplicate(),
                                name: dname,
                            };
                            let ghost nv = newrule@;
                            proof {
                                assert(nv.lhs.edges == r1v.lhs.edges + r2v.lhs.edges.skip(
                                    cut as int,
                                ));
                                assert(nv.wf());
                                assert(rule_rooted(r1v, schema@.equations));
                                let j = choose|j: int|
                                    0 <= j < schema@.equations.len() && ((r1v.lhs.start == (
                                    #[trigger] schema@.equations[j]).lhs.start && is_prefix(
                                        schema@.equations[j].lhs.edges,
                                        r1v.lhs.edges,
                                    )) || (r1v.lhs.start == schema@.equations[j].rhs.start
                                        && is_prefix(
                                        schema@.equations[j].rhs.edges,
                                        r1v.lhs.edges,
                                    )));
                                if r1v.lhs.start == schema@.equations[j].lhs.start && is_prefix(
                                    schema@.equations[j].lhs.edges,
                                    r1v.lhs.edges,
                                ) {
                                    lemma_prefix_extend(
                                        schema@.equations[j].lhs.edges,
                                        r1v.lhs.edges,
                                        r2v.lhs.edges.skip(cut as int),
                                    );
                                } else {
                                    lemma_prefix_extend(
                                        schema@.equations[j].rhs.edges,
                                        r1v.lhs.edges,
                                        r2v.lhs.edges.skip(cut as int),
                                    );
                                }
                                assert(rule_rooted(nv, schema@.equations));
                                // The pushed rule is exactly the combined
                                // rule of this pair.
                                assert(combined_core(c1, c2) == Some((nv.lhs, nv.rhs)));
                                assert(derived_from(base, a as int, b as int) == seq![
                                    (nv.lhs, nv.rhs),
                                ] + derived_from(base, a as int, b as int + 1));
                            }
                            derived.push(newrule);
                            proof {
                                assert(derived@.map_values(|r: RewriteRule| r@) =~= dpre.push(nv));
                                assert(core_of(dpre.push(nv)) =~= core_of(dpre).push(
                                    (nv.lhs, nv.rhs),
                                ));
                                assert(core_of(dpre).push((nv.lhs, nv.rhs)) + derived_from(
                                    base,
                                    a as int,
                                    b as int + 1,
                                ) =~= core_of(dpre) + (seq![(nv.lhs, nv.rhs)] + derived_from(
                                    base,
                                    a as int,
                                    b as int + 1,
                                )));
                            }
                        } else {
                            proof {
                                assert(combined_core(c1, c2) is None);
                                assert(derived_from(base, a as int, b as int) == derived_from(
                                    base,
                                    a as int,
                                    b as int + 1,
                                ));
                            }
                        }
                    } else {
                        proof {
                            assert(combined_core(c1, c2) is None);
                            assert(derived_from(base, a as int, b as int) == derived_from(
                                base,
                                a as int,
                                b as int + 1,
                            ));
                        }
                    }
                } else {
                    proof {
                        assert(derived_from(base, a as int, b as int) == derived_from(
                            base,
                            a as int,
                            b as int + 1,
                        ));
                    }
                }
                b += 1;
            }
            proof {
                assert(derived_from(base, a as int, base_len as int) == derived_from(
                    base,
                    a as int + 1,
                    0,
                ));
            }
            a += 1;
        }
        let ghost dcore = core_of(derived@.map_values(|r: RewriteRule| r@));
        proof {
            assert(derived_from(base, base_len as int, 0) =~= Seq::<(PathView, PathView)>::empty());
            assert(dcore + derived_from(base, base_len as int, 0) =~= dcore);
            assert(derived_from(base, 0, 0) == dcore);
        }
        let mut d: usize = 0;
        while d < derived.len()
            invariant
                base_len <= rules@.len(),
                rules@.len() == base_len + d,
                0 <= d <= derived@.len(),
                dcore == core_of(derived@.map_values(|r: RewriteRule| r@)),
                dcore.len() == derived@.len(),
                forall|ri: int|
                    0 <= ri < base_len ==> ((#[trigger] rules@[ri])@.lhs, rules@[ri]@.rhs)
                        == base[ri],
                forall|k: int|
                    0 <= k < d ==> ((#[trigger] rules@[base_len + k])@.lhs, rules@[base_len
                        + k]@.rhs) == dcore[k],
                forall|ri: int| 0 <= ri < rules@.len() ==> (#[trigger] rules@[ri])@.wf(),
                forall|ri: int|
                    0 <= ri < rules@.len() ==> rule_rooted(
                        (#[trigger] rules@[ri])@,
                        schema@.equations,
                    ),
                forall|ri: int| 0 <= ri < derived@.len() ==> (#[trigger] derived@[ri])@.wf(),
                forall|ri: int|
                    0 <= ri < derived@.len() ==> rule_rooted(
                        (#[trigger] derived@[ri])@,
                        schema@.equations,
                    ),
            decreases derived@.len() - d,
        {
            let cp = derived[d].duplicate();
            proof {
                assert(dcore[d as int] == (derived@[d as int]@.lhs, derived@[d as int]@.rhs));
            }
            rules.push(cp);
            d += 1;
        }
        let r = PathOptimizer { rules };
        proof {
            assert forall|ri: int| 0 <= ri < r@.len() implies (#[trigger] r@[ri]).wf()
                && rule_rooted(r@[ri], schema@.equations) by {
                assert(r@[ri] == rules@[ri]@);
            }
            assert(core_of(r@).len() == base.len() + dcore.len());
            assert forall|ri: int| 0 <= ri < core_of(r@).len() implies core_of(r@)[ri] == (base
                + dcore)[ri] by {
                assert(r@[ri] == rules@[ri]@);
                if ri < base_len {
                    assert((rules@[ri]@.lhs, rules@[ri]@.rhs) == base[ri]);
                } else {
                    let k = ri - base_len;
                    assert((rules@[base_len + k]@.lhs, rules@[base_len + k]@.rhs) == dcore[k]);
                }
            }
            assert(core_of(r@) =~= base + dcore);
            assert(core_of(r@) =~= schema_rules_core(eqs));
        }
        r
    }

    /// Lists every optimization that the schema's own foreign-key paths
    /// admit: all chains of length 2 up to a depth of 4 are enumerated
    /// from every node, and exactly those that the rewrite system
    /// shortens are reported, in enumeration order, each with its normal
    /// form and the number of edges saved.
    pub fn analyze_schema(&self, schema: &Schema) -> (r: Vec<OptimizationResult>)
        requires
            rules_wf(self@),
        ensures
            ({
                let wins = all_chains_from(schema@, 0).filter(
                    |p: PathView| spec_norm(core_of(self@), p, 100).edges.len() < p.edges.len(),
                );
                &&& r@.len() == wins.len()
                &&& forall|k: int|
                    0 <= k < wins.len() ==> (#[trigger] r@[k]).original@ == wins[k] && r@[
                        k
                    ].optimized@ == spec_norm(core_of(self@), wins[k], 100) && r@[
                        k
                    ].joins_eliminated == wins[k].edges.len() - r@[k].optimized@.edges.len()
            }),
            forall|k: int|
                0 <= k < r@.len() ==> (#[trigger] r@[k]).joins_eliminated > 0 && r@[
                    k
                ].optimized@.edges.len() < r@[k].original@.edges.len(),
    {
        let ghost sv = schema@;
        let ghost core = core_of(self@);
        let ghost win = |p: PathView| spec_norm(core_of(self@), p, 100).edges.len()
            < p.edges.len();
        let mut results: Vec<OptimizationResult> = Vec::new();
        let ghost mut seen: Seq<PathView> = Seq::empty();
        proof {
            assert(seen + all_chains_from(sv, 0) =~= all_chains_from(sv, 0));
            assert(seen.filter(win) =~= Seq::<PathView>::empty());
        }
        let mut i: usize = 0;
        while i < schema.nodes.len()
            invariant
                rules_wf(self@),
                sv == schema@,
                core == core_of(self@),
                win == (|p: PathView| spec_norm(core_of(self@), p, 100).edges.len()
                    < p.edges.len()),
                0 <= i <= schema.nodes@.len(),
                seen + all_chains_from(sv, i as int) == all_chains_from(sv, 0),
                results@.len() == seen.filter(win).len(),
                forall|k: int|
                    0 <= k < results@.len() ==> (#[trigger] results@[k]).original@ == seen.filter(
                        win,
                    )[k] && results@[k].optimized@ == spec_norm(
                        core,
                        seen.filter(win)[k],
                        100,
                    ) && results@[k].joins_eliminated == seen.filter(win)[k].edges.len()
                        - results@[k].optimized@.edges.len() && results@[k].joins_eliminated > 0
                        && results@[k].optimized@.edges.len() < results@[k].original@.edges.len(),
            decreases schema.nodes@.len() - i,
        {
            let base = Vec::new();
            let mut paths: Vec<Path> = Vec::new();
            let node_name = self_node_name(schema, i);
            proof {
                assert(names_view(base@) =~= Seq::<Seq<char>>::empty());
            }
            enumerate_from(schema, node_name.as_str(), node_name.as_str(), &base, 4, &mut paths);
            let ghost nodechains = chains_at(sv, sv.nodes[i as int], sv.nodes[i as int], Seq::empty(), 4, 0);
            proof {
                assert(paths@.map_values(|p: Path| p@) =~= nodechains);
                assert(all_chains_from(sv, i as int) == nodechains + all_chains_from(
                    sv,
                    i as int + 1,
                ));
            }
            let mut j: usize = 0;
            while j < paths.len()
                invariant
                    rules_wf(self@),
                    sv == schema@,
                    core == core_of(self@),
                    win == (|p: PathView| spec_norm(core_of(self@), p, 100).edges.len()
                        < p.edges.len()),
                    0 <= j <= paths@.len(),
                    paths@.map_values(|p: Path| p@) == nodechains,
                    seen + all_chains_from(sv, i as int) == all_chains_from(sv, 0),
                    0 <= i < sv.nodes.len(),
                    all_chains_from(sv, i as int) == nodechains + all_chains_from(
                        sv,
                        i as int + 1,
                    ),
                    results@.len() == (seen + nodechains.subrange(0, j as int)).filter(win).len(),
                    forall|k: int|
                        0 <= k < results@.len() ==> {
                            let fw = (seen + nodechains.subrange(0, j as int)).filter(win);
                            (#[trigger] results@[k]).original@ == fw[k] && results@[k].optimized@
                                == spec_norm(core, fw[k], 100) && results@[k].joins_eliminated
                                == fw[k].edges.len() - results@[k].optimized@.edges.len()
                                && results@[k].joins_eliminated > 0 && results@[
                                k
                            ].optimized@.edges.len() < results@[k].original@.edges.len()
                        },
                decreases paths@.len() - j,
            {
                let ghost before = seen + nodechains.subrange(0, j as int);
                let ghost pv = nodechains[j as int];
                proof {
                    assert(paths@.map_values(|p: Path| p@)[j as int] == pv);
                }
                let res = self.optimize(&paths[j]);
                proof {
                    assert(res.original@ == pv);
                    assert(before.push(pv) =~= seen + nodechains.subrange(0, j as int + 1));
                    lemma_filter_push_path(before, pv, win);
                }
                if res.joins_eliminated > 0 {
                    proof {
                        assert(win(pv));
                        assert(before.push(pv).filter(win) == before.filter(win).push(pv));
                    }
                    results.push(res);
                } else {
                    proof {
                        assert(!win(pv));
                        assert(before.push(pv).filter(win) == before.filter(win));
                    }
                }
                j += 1;
            }
            proof {
                assert(nodechains.subrange(0, nodechains.len() as int) =~= nodechains);
                assert((seen + nodechains) + all_chains_from(sv, i as int + 1) =~= seen + (
                nodechains + all_chains_from(sv, i as int + 1)));
                seen = seen + nodechains;
            }
            i += 1;
        }
        proof {
            assert(all_chains_from(sv, schema.nodes@.len() as int) =~= Seq::<PathView>::empty());
            assert(seen + all_chains_from(sv, schema.nodes@.len() as int) =~= seen);
            assert(seen == all_chains_from(sv, 0));
        }
        results
    }
}

/// The foreign-key chains of length 2 up to `maxd` that leave `node`
/// extending `cur`, scanning the schema's edges from position `e`: a
/// matching edge extends the chain, contributes it once it is at least
/// two edges long, and is explored deeper before the scan goes on.
pub open spec fn chains_at(
    sv: SchemaView,
    start: Seq<char>,
    node: Seq<char>,
    cur: Seq<Seq<char>>,
    maxd: int,
    e: int,
) -> Seq<PathView>
    decreases maxd - cur.len(), sv.edges.len() - e,
{
    if cur.len() >= maxd || e < 0 || e >= sv.edges.len() {
        Seq::empty()
    } else {
        let rest = chains_at(sv, start, node, cur, maxd, e + 1);
        if sv.edges[e].is_fk() && sv.edges[e].source() == node {
            let newe = cur.push(sv.edges[e].name());
            let hd: Seq<PathView> = if newe.len() >= 2 {
                seq![(PathView { start: start, edges: newe })]
            } else {
                Seq::empty()
            };
            hd + chains_at(sv, start, sv.edges[e].fk_target(), newe, maxd, 0) + rest
        } else {
            rest
        }
    }
}

/// The candidate chains of the whole schema: those of every node from
/// position `i` on, at the fixed depth of 4.
pub open spec fn all_chains_from(sv: SchemaView, i: int) -> Seq<PathView>
    decreases sv.nodes.len() - i,
{
    if i < 0 || i >= sv.nodes.len() {
        Seq::empty()
    } else {
        chains_at(sv, sv.nodes[i], sv.nodes[i], Seq::empty(), 4, 0) + all_chains_from(sv, i + 1)
    }
}

/// Filtering a path family extended by one path keeps the filtered
/// prefix and appends the path exactly when it satisfies the predicate.
proof fn lemma_filter_push_path(s: Seq<PathView>, x: PathView, p: spec_fn(PathView) -> bool)
    ensures
        p(x) ==> s.push(x).filter(p) == s.filter(p).push(x),
        !p(x) ==> s.push(x).filter(p) == s.filter(p),
{
    reveal_with_fuel(Seq::filter, 2);
    assert(s.push(x).drop_last() =~= s);
    assert(s.push(x).last() == x);
}

/// The name of the `i`-th node of the schema.
fn self_node_name(schema: &Schema, i: usize) -> (r: std::string::String)
    requires
        i < schema.nodes@.len(),
    ensures
        r@ == schema@.nodes[i as int],
{
    schema.nodes[i].name.clone()
}

/// Collects every foreign-key chain of length 2 up to `max_depth` that
/// leaves `current_node`, extending `current_edges`: exactly the chains
/// of `chains_at`, appended in enumeration order.
fn enumerate_from(
    schema: &Schema,
    start: &str,
    current_node: &str,
    current_edges: &Vec<std::string::String>,
    max_depth: usize,
    out: &mut Vec<Path>,
)
    requires
        current_edges@.len() <= max_depth,
    ensures
        final(out)@.map_values(|p: Path| p@) == old(out)@.map_values(|p: Path| p@) + chains_at(
            schema@,
            start@,
            current_node@,
            names_view(current_edges@),
            max_depth as int,
            0,
        ),
    decreases max_depth - current_edges@.len(),
{
    let ghost sv = schema@;
    let ghost curv = names_view(current_edges@);
    let ghost maxd = max_depth as int;
    let ghost base = old(out)@.map_values(|p: Path| p@);
    if current_edges.len() >= max_depth {
        proof {
            assert(chains_at(sv, start@, current_node@, curv, maxd, 0) =~= Seq::<
                PathView,
            >::empty());
            assert(out@.map_values(|p: Path| p@) =~= base + chains_at(
                sv,
                start@,
                current_node@,
                curv,
                maxd,
                0,
            ));
        }
        return ;
    }
    let mut e: usize = 0;
    while e < schema.edges.len()
        invariant
            sv == schema@,
            curv == names_view(current_edges@),
            maxd == max_depth as int,
            base == old(out)@.map_values(|p: Path| p@),
            current_edges@.len() < max_depth,
            0 <= e <= schema.edges@.len(),
            base + chains_at(sv, start@, current_node@, curv, maxd, 0) == out@.map_values(
                |p: Path| p@,
            ) + chains_at(sv, start@, current_node@, curv, maxd, e as int),
        decreases schema.edges@.len() - e,
    {
        let ghost outpre = out@.map_values(|p: Path| p@);
        let is_hit = match &schema.edges[e] {
            Edge::ForeignKey { source, .. } => str_eq(source.as_str(), current_node),
            _ => false,
        };
        if is_hit {
            match &schema.edges[e] {
                Edge::ForeignKey { name, target, .. } => {
                    proof {
                        assert(sv.edges[e as int].is_fk());
                        assert(sv.edges[e as int].source() == current_node@);
                        assert(sv.edges[e as int].name() == name@);
                        assert(sv.edges[e as int].fk_target() == target@);
                    }
                    let mut new_edges = copy_strings(current_edges);
                    new_edges.push(name.clone());
                    let ghost newv = curv.push(sv.edges[e as int].name());
                    proof {
                        assert(names_view(new_edges@) =~= newv);
                    }
                    let ghost hd: Seq<PathView> = if newv.len() >= 2 {
                        seq![(PathView { start: start@, edges: newv })]
                    } else {
                        Seq::<PathView>::empty()
                    };
                    if new_edges.len() >= 2 {
                        out.push(Path { start: start.to_owned(), edges: new_edges.clone() });
                        proof {
                            assert(out@.last()@ == (PathView { start: start@, edges: newv }));
                            assert(out@.map_values(|p: Path| p@) =~= outpre + hd);
                        }
                    } else {
                        proof {
                            assert(out@.map_values(|p: Path| p@) =~= outpre + hd);
                        }
                    }
                    enumerate_from(
                        schema,
                        start,
                        target.as_str(),
                        &new_edges,
                        max_depth,
                        out,
                    );
                    proof {
                        let rec = chains_at(sv, start@, target@, newv, maxd, 0);
                        let rest = chains_at(sv, start@, current_node@, curv, maxd, e as int + 1);
                        assert(out@.map_values(|p: Path| p@) =~= outpre + hd + rec);
                        assert(chains_at(sv, start@, current_node@, curv, maxd, e as int) == hd
                            + rec + rest);
                        assert((outpre + hd + rec) + rest =~= outpre + (hd + rec + rest));
                    }
                },
                _ => {},
            }
        } else {
            proof {
                assert(chains_at(sv, start@, current_node@, curv, maxd, e as int) == chains_at(
                    sv,
                    start@,
                    current_node@,
                    curv,
                    maxd,
                    e as int + 1,
                ));
            }
        }
        e += 1;
    }
    proof {
        assert(chains_at(sv, start@, current_node@, curv, maxd, e as int) =~= Seq::<
            PathView,
        >::empty());
        assert(out@.map_values(|p: Path| p@) + chains_at(
            sv,
            start@,
            current_node@,
            curv,
            maxd,
            e as int,
        ) =~= out@.map_values(|p: Path| p@));
    }
}

/// Composes two mappings: the result sends each node to the image of
/// its image, and expands each assigned edge chain through the second
/// mapping.  Success comes exactly when the composition is defined: the
/// schema names agree, every node image of the first mapping is mapped
/// by the second, and every edge image expands through it.  On success
/// the composed mapping is well-formed, runs from the first mapping's
/// source schema to the second's target schema, and assigns exactly the
/// nodes and edges the first mapping assigns: each node goes to the
/// image of its image, and each edge to the expansion of its image.
pub fn compose_mappings(f: &Mapping, g: &Mapping, target_of_f: &Schema) -> (r: Result<
    Mapping,
    std::string::String,
>)
    requires
        f@.wf(),
        g@.wf(),
    ensures
        r is Ok <==> compose_defined(f@, g@),
        r matches Ok(c) ==> {
            &&& c@.wf()
            &&& f@.target_schema_name == g@.source_schema_name
            &&& c@.source_schema_name == f@.source_schema_name
            &&& c@.target_schema_name == g@.target_schema_name
            &&& c@.node_mapping.len() == f@.node_mapping.len()
            &&& forall|i: int|
                0 <= i < f@.node_mapping.len() ==> g@.maps_node(
                    (#[trigger] f@.node_mapping[i]).1,
                ) && c@.node_mapping[i] == (
                    f@.node_mapping[i].0,
                    g@.node_image(f@.node_mapping[i].1),
                )
            &&& c@.edge_mapping.len() == f@.edge_mapping.len()
            &&& forall|i: int|
                0 <= i < f@.edge_mapping.len() ==> (#[trigger] c@.edge_mapping[i]) == (
                    f@.edge_mapping[i].0,
                    composed_image(g@, f@.edge_mapping[i].1),
                )
        },
{
    let _ = target_of_f;
    if !(f.target_schema_name == g.source_schema_name) {
        proof {
            assert(!compose_defined(f@, g@));
        }
        return Err(
            std::string::String::from_str(
                "the first mapping's target schema differs from the second mapping's source schema",
            ),
        );
    }
    let mut name = std::string::String::new();
    name.append(g.name.as_str());
    name.append("_after_");
    name.append(f.name.as_str());
    let mut composed = Mapping::new(
        name.as_str(),
        f.source_schema_name.as_str(),
        g.target_schema_name.as_str(),
    );
    let mut i: usize = 0;
    while i < f.node_mapping.len()
        invariant
            f@.wf(),
            g@.wf(),
            0 <= i <= f@.node_mapping.len(),
            composed@.wf(),
            composed@.source_schema_name == f@.source_schema_name,
            composed@.target_schema_name == g@.target_schema_name,
            composed@.edge_mapping.len() == 0,
            composed@.node_mapping.len() == i,
            forall|j: int|
                0 <= j < i ==> g@.maps_node((#[trigger] f@.node_mapping[j]).1)
                    && composed@.node_mapping[j] == (
                    f@.node_mapping[j].0,
                    g@.node_image(f@.node_mapping[j].1),
                ),
        decreases f.node_mapping@.len() - i,
    {
        let src = &f.node_mapping[i].0;
        let mid = &f.node_mapping[i].1;
        proof {
            assert(f@.node_mapping[i as int] == (src@, mid@));
        }
        let tgt = match g.node_image(mid.as_str()) {
            Some(t) => t,
            None => {
                proof {
                    assert(!g@.maps_node(f@.node_mapping[i as int].1));
                    assert(!compose_defined(f@, g@));
                }
                return Err(
                    std::string::String::from_str(
                        "an intermediate node is not assigned by the second mapping",
                    ),
                );
            },
        };
        let ghost pre = composed@;
        proof {
            if pre.maps_node(src@) {
                let k = pre.node_index(src@);
                assert(pre.node_mapping[k].0 == src@);
                assert(pre.node_mapping[k].0 == f@.node_mapping[k].0);
                assert(false);
            }
        }
        composed.map_node(src.as_str(), tgt.as_str());
        i += 1;
    }
    let mut e: usize = 0;
    while e < f.edge_mapping.len()
        invariant
            f@.wf(),
            g@.wf(),
            0 <= e <= f@.edge_mapping.len(),
            composed@.wf(),
            composed@.source_schema_name == f@.source_schema_name,
            composed@.target_schema_name == g@.target_schema_name,
            composed@.node_mapping.len() == f@.node_mapping.len(),
            forall|j: int|
                0 <= j < f@.node_mapping.len() ==> g@.maps_node(
                    (#[trigger] f@.node_mapping[j]).1,
                ) && composed@.node_mapping[j] == (
                    f@.node_mapping[j].0,
                    g@.node_image(f@.node_mapping[j].1),
                ),
            composed@.edge_mapping.len() == e,
            forall|j: int|
                0 <= j < e ==> edge_image_composable(g@, (#[trigger] f@.edge_mapping[j]).1),
            forall|j: int|
                0 <= j < e ==> (#[trigger] composed@.edge_mapping[j]) == (
                    f@.edge_mapping[j].0,
                    composed_image(g@, f@.edge_mapping[j].1),
                ),
        decreases f.edge_mapping@.len() - e,
    {
        let src_edge = &f.edge_mapping[e].0;
        let em = &f.edge_mapping[e].1;
        let ghost entry = f@.edge_mapping[e as int];
        proof {
            assert(f@.edge_mapping[e as int] == (src_edge@, em@));
        }
        let ghost pre = composed@;
        proof {
            if pre.maps_edge(src_edge@) {
                let k = pre.edge_index(src_edge@);
                assert(pre.edge_mapping[k].0 == src_edge@);
                assert(pre.edge_mapping[k].0 == f@.edge_mapping[k].0);
                assert(false);
            }
        }
        match em {
            EdgeMapping::FkToPath(f_path) => {
                let ghost fpe = f_path@.edges;
                let mut composed_edges: Vec<std::string::String> = Vec::new();
                let mut m: usize = 0;
                proof {
                    assert(em@ == EdgeMappingView::FkToPath(f_path@));
                    assert(entry.1 == EdgeMappingView::FkToPath(f_path@));
                    assert(fpe.skip(0) =~= fpe);
                    assert(names_view(composed_edges@) =~= Seq::<Seq<char>>::empty());
                }
                while m < f_path.edges.len()
                    invariant
                        g@.wf(),
                        0 <= e < f.edge_mapping@.len(),
                        entry == f@.edge_mapping[e as int],
                        entry.1 == EdgeMappingView::FkToPath(f_path@),
                        fpe == f_path@.edges,
                        0 <= m <= fpe.len(),
                        match expand_fk_chain(g@, fpe.skip(m as int)) {
                            Some(rest) => expand_fk_chain(g@, fpe) == Some(
                                names_view(composed_edges@) + rest,
                            ),
                            None => expand_fk_chain(g@, fpe) is None,
                        },
                    decreases f_path.edges@.len() - m,
                {
                    let ghost rest0 = fpe.skip(m as int);
                    proof {
                        assert(rest0[0] == fpe[m as int]);
                        assert(rest0.skip(1) =~= fpe.skip(m as int + 1));
                    }
                    match g.edge_image(f_path.edges[m].as_str()) {
                        Some(EdgeMapping::FkToPath(g_path)) => {
                            let ghost gpe = g_path@.edges;
                            let ghost cpre = names_view(composed_edges@);
                            proof {
                                assert(g@.edge_image(fpe[m as int]) == EdgeMappingView::FkToPath(
                                    g_path@,
                                ));
                            }
                            let mut t: usize = 0;
                            while t < g_path.edges.len()
                                invariant
                                    gpe == g_path@.edges,
                                    cpre.len() + t == composed_edges@.len(),
                                    0 <= t <= gpe.len(),
                                    forall|k: int|
                                        0 <= k < cpre.len() ==> names_view(composed_edges@)[k]
                                            == cpre[k],
                                    forall|k: int|
                                        0 <= k < t ==> names_view(composed_edges@)[cpre.len() + k]
                                            == #[trigger] gpe[k],
                                decreases g_path.edges@.len() - t,
                            {
                                let ghost before = composed_edges@;
                                composed_edges.push(g_path.edges[t].clone());
                                proof {
                                    assert(composed_edges@.last()@ == gpe[t as int]);
                                    assert(forall|k: int|
                                        0 <= k < before.len() ==> names_view(composed_edges@)[k]
                                            == names_view(before)[k]);
                                }
                                t += 1;
                            }
                            proof {
                                assert(names_view(composed_edges@) =~= cpre + gpe);
                            }
                        },
                        Some(EdgeMapping::AttrToPath { .. }) => {
                            proof {
                                assert(expand_fk_chain(g@, rest0) is None);
                                assert(expand_fk_chain(g@, fpe) is None);
                                assert(entry.1 == EdgeMappingView::FkToPath(f_path@));
                                assert(!edge_image_composable(g@, entry.1));
                                assert(!compose_defined(f@, g@));
                            }
                            return Err(
                                std::string::String::from_str(
                                    "a foreign key's image traverses an edge that the second mapping assigns as an attribute",
                                ),
                            );
                        },
                        None => {
                            proof {
                                assert(expand_fk_chain(g@, rest0) is None);
                                assert(expand_fk_chain(g@, fpe) is None);
                                assert(entry.1 == EdgeMappingView::FkToPath(f_path@));
                                assert(!edge_image_composable(g@, entry.1));
                                assert(!compose_defined(f@, g@));
                            }
                            return Err(
                                std::string::String::from_str(
                                    "a foreign key's image traverses an edge that the second mapping does not assign",
                                ),
                            );
                        },
                    }
                    m += 1;
                }
                proof {
                    assert(fpe.skip(m as int) =~= Seq::<Seq<char>>::empty());
                    assert(expand_fk_chain(g@, fpe.skip(m as int)) == Some(
                        Seq::<Seq<char>>::empty(),
                    ));
                    assert(names_view(composed_edges@) + Seq::<Seq<char>>::empty() =~= names_view(
                        composed_edges@,
                    ));
                    assert(expand_fk_chain(g@, fpe) == Some(names_view(composed_edges@)));
                    assert(edge_image_composable(g@, entry.1));
                }
                let start_in_u = match g.node_image(f_path.start.as_str()) {
                    Some(s) => s,
                    None => f_path.start.clone(),
                };
                let newp = Path { start: start_in_u, edges: composed_edges };
                proof {
                    assert(EdgeMappingView::FkToPath(newp@) == composed_image(g@, entry.1));
                }
                composed.map_fk(src_edge.as_str(), newp);
            },
            EdgeMapping::AttrToPath { fk_path, attr_name } => {
                let ghost fpe = names_view(fk_path@);
                let mut composed_fk_path: Vec<std::string::String> = Vec::new();
                let mut m: usize = 0;
                proof {
                    assert(em@ == (EdgeMappingView::AttrToPath {
                        fk_path: fpe,
                        attr_name: attr_name@,
                    }));
                    assert(entry.1 == (EdgeMappingView::AttrToPath {
                        fk_path: fpe,
                        attr_name: attr_name@,
                    }));
                    assert(fpe.skip(0) =~= fpe);
                    assert(names_view(composed_fk_path@) =~= Seq::<Seq<char>>::empty());
                }
                while m < fk_path.len()
                    invariant
                        g@.wf(),
                        0 <= e < f.edge_mapping@.len(),
                        entry == f@.edge_mapping[e as int],
                        entry.1 == (EdgeMappingView::AttrToPath {
                            fk_path: fpe,
                            attr_name: attr_name@,
                        }),
                        fpe == names_view(fk_path@),
                        0 <= m <= fpe.len(),
                        match expand_fk_chain(g@, fpe.skip(m as int)) {
                            Some(rest) => expand_fk_chain(g@, fpe) == Some(
                                names_view(composed_fk_path@) + rest,
                            ),
                            None => expand_fk_chain(g@, fpe) is None,
                        },
                    decreases fk_path@.len() - m,
                {
                    let ghost rest0 = fpe.skip(m as int);
                    proof {
                        assert(rest0[0] == fpe[m as int]);
                        assert(rest0.skip(1) =~= fpe.skip(m as int + 1));
                    }
                    match g.edge_image(fk_path[m].as_str()) {
                        Some(EdgeMapping::FkToPath(g_path)) => {
                            let ghost gpe = g_path@.edges;
                            let ghost cpre = names_view(composed_fk_path@);
                            proof {
                                assert(g@.edge_image(fpe[m as int]) == EdgeMappingView::FkToPath(
                                    g_path@,
                                ));
                            }
                            let mut t: usize = 0;
                            while t < g_path.edges.len()
                                invariant
                                    gpe == g_path@.edges,
                                    cpre.len() + t == composed_fk_path@.len(),
                                    0 <= t <= gpe.len(),
                                    forall|k: int|
                                        0 <= k < cpre.len() ==> names_view(composed_fk_path@)[k]
                                            == cpre[k],
                                    forall|k: int|
                                        0 <= k < t ==> names_view(composed_fk_path@)[cpre.len()
                                            + k] == #[trigger] gpe[k],
                                decreases g_path.edges@.len() - t,
                            {
                                let ghost before = composed_fk_path@;
                                composed_fk_path.push(g_path.edges[t].clone());
                                proof {
                                    assert(composed_fk_path@.last()@ == gpe[t as int]);
                                    assert(forall|k: int|
                                        0 <= k < before.len() ==> names_view(composed_fk_path@)[k]
                                            == names_view(before)[k]);
                                }
                                t += 1;
                            }
                            proof {
                                assert(names_view(composed_fk_path@) =~= cpre + gpe);
                            }
                        },
                        _ => {
                            proof {
                                assert(expand_fk_chain(g@, rest0) is None);
                                assert(expand_fk_chain(g@, fpe) is None);
                                assert(entry.1 == (EdgeMappingView::AttrToPath {
                                    fk_path: fpe,
                                    attr_name: attr_name@,
                                }));
                                assert(!edge_image_composable(g@, entry.1));
                                assert(!compose_defined(f@, g@));
                            }
                            return Err(
                                std::string::String::from_str(
                                    "an attribute's chain traverses an edge that the second mapping does not assign as a foreign key",
                                ),
                            );
                        },
                    }
                    m += 1;
                }
                proof {
                    assert(fpe.skip(m as int) =~= Seq::<Seq<char>>::empty());
                    assert(expand_fk_chain(g@, fpe.skip(m as int)) == Some(
                        Seq::<Seq<char>>::empty(),
                    ));
                    assert(names_view(composed_fk_path@) + Seq::<Seq<char>>::empty()
                        =~= names_view(composed_fk_path@));
                    assert(expand_fk_chain(g@, fpe) == Some(names_view(composed_fk_path@)));
                }
                match g.edge_image(attr_name.as_str()) {
                    Some(EdgeMapping::AttrToPath { fk_path: g_fk, attr_name: g_attr }) => {
                        let ghost gfe = names_view(g_fk@);
                        let ghost cpre = names_view(composed_fk_path@);
                        proof {
                            assert(g@.edge_image(attr_name@) == (EdgeMappingView::AttrToPath {
                                fk_path: gfe,
                                attr_name: g_attr@,
                            }));
                        }
                        let mut t: usize = 0;
                        while t < g_fk.len()
                            invariant
                                gfe == names_view(g_fk@),
                                cpre.len() + t == composed_fk_path@.len(),
                                0 <= t <= gfe.len(),
                                forall|k: int|
                                    0 <= k < cpre.len() ==> names_view(composed_fk_path@)[k]
                                        == cpre[k],
                                forall|k: int|
                                    0 <= k < t ==> names_view(composed_fk_path@)[cpre.len() + k]
                                        == #[trigger] gfe[k],
                            decreases g_fk@.len() - t,
                        {
                            let ghost before = composed_fk_path@;
                            composed_fk_path.push(g_fk[t].clone());
                            proof {
                                assert(composed_fk_path@.last()@ == gfe[t as int]);
                                assert(forall|k: int|
                                    0 <= k < before.len() ==> names_view(composed_fk_path@)[k]
                                        == names_view(before)[k]);
                            }
                            t += 1;
                        }
                        proof {
                            assert(names_view(composed_fk_path@) =~= cpre + gfe);
                            assert(edge_image_composable(g@, entry.1));
                        }
                        let tail = g_attr.clone();
                        let newem = EdgeMapping::AttrToPath {
                            fk_path: composed_fk_path,
                            attr_name: tail,
                        };
                        proof {
                            assert(newem@ == composed_image(g@, entry.1));
                        }
                        composed.upsert_edge_mapping(src_edge.as_str(), newem);
                    },
                    _ => {
                        proof {
                            assert(entry.1 == (EdgeMappingView::AttrToPath {
                                fk_path: fpe,
                                attr_name: attr_name@,
                            }));
                            assert(!(g@.maps_edge(attr_name@) && g@.edge_image(attr_name@)
                                is AttrToPath));
                            assert(!edge_image_composable(g@, entry.1));
                            assert(!compose_defined(f@, g@));
                        }
                        return Err(
                            std::string::String::from_str(
                                "the final attribute is not assigned as an attribute by the second mapping",
                            ),
                        );
                    },
                }
            },
        }
        e += 1;
    }
    proof {
        assert(compose_defined(f@, g@));
    }
    Ok(composed)
}

/// Compares a window of `target` starting at `i` against `pat`.
fn window_eq(target: &Vec<std::string::String>, i: usize, pat: &Vec<std::string::String>) -> (r:
    bool)
    requires
        i + pat@.len() <= target@.len(),
    ensures
        r == (names_view(target@).subrange(i as int, i + pat@.len()) == names_view(pat@)),
{
    let ghost tview = names_view(target@);
    let ghost pview = names_view(pat@);
    let tlen = target.len();
    let mut j: usize = 0;
    while j < pat.len()
        invariant
            tview == names_view(target@),
            pview == names_view(pat@),
            tlen == tview.len(),
            i + pview.len() <= tlen,
            0 <= j <= pview.len(),
            forall|k: int| 0 <= k < j ==> tview[i + k] == pview[k],
        decreases pat@.len() - j,
    {
        if !(target[i + j] == pat[j]) {
            proof {
                assert(tview.subrange(i as int, i + pview.len())[j as int] != pview[j as int]);
            }
            return false;
        }
        j += 1;
    }
    proof {
        assert(tview.subrange(i as int, i + pview.len()) =~= pview);
    }
    true
}

} // verus!
