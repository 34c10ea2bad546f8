//! The cycle detector.
//!
//! A depth-first search rooted at every module in registry order, with a
//! global set of fully explored names and a per-root traversal stack.  The
//! first edge found back into the stack stops the search and is reported
//! with its full path; when no root finds one, the registry is acyclic.

use vstd::prelude::*;
use vstd::string::StringExecFns;
use crate::diagnostics::{DiagView, Diagnostic};
use crate::graph::{
    DepsGraph, ModuleView, closed, has_name, lemma_index_of, lemma_name_views_drop_last,
    lemma_name_views_push, module_of, name_views, sorted_by_name,
};
use crate::names::str_eq;
use crate::paths::{
    edge_to, in_cycle, is_chain, lemma_all_safe_acyclic, lemma_chain_push, lemma_checked_bounded,
    lemma_cycle_extract, lemma_in_cycle_not_safe, lemma_prefix_contains, lemma_prefix_trans,
    lemma_successors_safe, safe, spec_has_cycle,
};

verus! {

/// What a cycle diagnostic reports: a genuine dependency path whose last
/// name already occurs on it, carrying the origin of the closing edge.
pub open spec fn is_cycle_report(g: Seq<ModuleView>, d: DiagView) -> bool {
    match d {
        DiagView::CyclicDependency { attr_origin, path } => {
            &&& is_chain(g, path)
            &&& path.len() >= 2
            &&& (exists|j: int| 0 <= j < path.len() - 1 && path[j] == path.last())
            &&& (exists|k: int|
                0 <= k < module_of(g, path[path.len() - 2]).edges.len() && (#[trigger] module_of(
                    g,
                    path[path.len() - 2],
                ).edges[k]).name == path.last() && module_of(
                    g,
                    path[path.len() - 2],
                ).edges[k].attr_origin == attr_origin)
        },
        _ => false,
    }
}

/// The path a cycle diagnostic carries.
pub open spec fn report_path(d: DiagView) -> Seq<Seq<char>> {
    match d {
        DiagView::CyclicDependency { path, .. } => path,
        _ => Seq::empty(),
    }
}

/// The origin handle a cycle diagnostic carries.
pub open spec fn report_origin(d: DiagView) -> int {
    match d {
        DiagView::CyclicDependency { attr_origin, .. } => attr_origin,
        _ => 0,
    }
}

/// The step the search takes from `a`: its first dependency edge whose
/// target still lies on a route to a cycle; every edge before it leads to
/// a safe name.
pub open spec fn dfs_step(g: Seq<ModuleView>, a: Seq<char>, b: Seq<char>) -> bool {
    exists|k: int|
        0 <= k < module_of(g, a).edges.len() && (#[trigger] module_of(g, a).edges[k]).name == b
            && !safe(g, b) && (forall|k2: int|
            0 <= k2 < k ==> safe(g, #[trigger] module_of(g, a).edges[k2].name))
}

/// The closing edge of a reported path: the first edge of `a` with an
/// unsafe target, aiming at `b` and carrying `origin`.
pub open spec fn dfs_closing(g: Seq<ModuleView>, a: Seq<char>, b: Seq<char>, origin: int) -> bool {
    exists|k: int|
        0 <= k < module_of(g, a).edges.len() && (#[trigger] module_of(g, a).edges[k]).name == b
            && module_of(g, a).edges[k].attr_origin == origin && (forall|k2: int|
            0 <= k2 < k ==> safe(g, #[trigger] module_of(g, a).edges[k2].name))
}

/// `n` is the first module in registry order from which a cycle is still
/// reachable.
pub open spec fn first_unsafe_head(g: Seq<ModuleView>, n: Seq<char>) -> bool {
    exists|i: int|
        0 <= i < g.len() && (#[trigger] g[i]).name == n && !safe(g, n) && (forall|j: int|
            0 <= j < i ==> safe(g, #[trigger] g[j].name))
}

/// Exactly the diagnostic the detector reports, pinned: a genuine path
/// that starts at the first module in registry order still on a route to
/// a cycle, follows at every name the first edge whose target is on such
/// a route, repeats no name before the closing one, and carries the origin
/// of the closing edge.  Two diagnostics of one registry satisfying this
/// are equal ([`lemma_canonical_report_unique`]), so the report is
/// deterministic across runs.
pub open spec fn is_canonical_cycle_report(g: Seq<ModuleView>, d: DiagView) -> bool {
    let p = report_path(d);
    &&& is_cycle_report(g, d)
    &&& first_unsafe_head(g, p[0])
    &&& p.drop_last().no_duplicates()
    &&& (forall|i: int| 0 <= i < p.len() - 1 ==> dfs_step(g, #[trigger] p[i], p[i + 1]))
    &&& dfs_closing(g, p[p.len() - 2], p.last(), report_origin(d))
}

/// Every name on a reported path still reaches a cycle.
pub proof fn lemma_report_path_unsafe(g: Seq<ModuleView>, d: DiagView)
    requires
        is_cycle_report(g, d),
    ensures
        forall|pos: int| 0 <= pos < report_path(d).len() ==> !safe(g, #[trigger] report_path(d)[pos]),
{
    let p = report_path(d);
    let j = choose|j: int| 0 <= j < p.len() - 1 && p[j] == p.last();
    lemma_cycle_extract(g, p, j);
    assert forall|pos: int| 0 <= pos < p.len() implies !safe(g, #[trigger] p[pos]) by {
        if pos == p.len() - 1 {
            crate::paths::lemma_in_cycle_not_safe(g, p[j]);
        } else {
            crate::paths::lemma_chain_subrange(g, p, pos, p.len() as int);
            let q = p.subrange(pos, p.len() as int);
            assert(q[0] == p[pos] && q.last() == p.last());
            assert(crate::paths::reaches(g, p[pos], p.last()));
            crate::paths::lemma_in_cycle_not_safe(g, p[j]);
            assert(in_cycle(g, p.last()));
            assert(!safe(g, p[pos]));
        }
    }
}

/// What holds of the report built when an edge closes the current path:
/// the stack plus the repeated target is a pinned canonical path.
proof fn lemma_stack_hit_report(
    g: Seq<ModuleView>,
    m: ModuleView,
    name: Seq<char>,
    stack0: Seq<Seq<char>>,
    b: Seq<char>,
    pv: Seq<Seq<char>>,
    j: int,
    k: int,
    origin: int,
)
    requires
        m == module_of(g, name),
        has_name(g, name),
        has_name(g, b),
        stack0.len() >= 1,
        stack0.last() == name,
        stack0.no_duplicates(),
        is_chain(g, stack0),
        0 <= j < stack0.len(),
        stack0[j] == b,
        0 <= k < m.edges.len(),
        m.edges[k].name == b,
        m.edges[k].attr_origin == origin,
        forall|k2: int| 0 <= k2 < k ==> safe(g, #[trigger] m.edges[k2].name),
        pv == stack0.push(b),
    ensures
        is_chain(g, pv),
        pv.len() >= 2,
        exists|j2: int| 0 <= j2 < pv.len() - 1 && pv[j2] == pv.last(),
        exists|k2: int|
            0 <= k2 < module_of(g, pv[pv.len() - 2]).edges.len() && (#[trigger] module_of(
                g,
                pv[pv.len() - 2],
            ).edges[k2]).name == pv.last() && module_of(g, pv[pv.len() - 2]).edges[k2].attr_origin
                == origin,
        stack0.is_prefix_of(pv),
        pv.drop_last().no_duplicates(),
        forall|i2: int|
            stack0.len() - 1 <= i2 < pv.len() - 1 ==> dfs_step(g, #[trigger] pv[i2], pv[i2 + 1]),
        dfs_closing(g, pv[pv.len() - 2], pv.last(), origin),
{
    assert(edge_to(g, name, b));
    lemma_chain_push(g, stack0, b);
    assert(pv.last() == b);
    assert(pv[j] == stack0[j]);
    assert(0 <= j < pv.len() - 1 && pv[j] == pv.last());
    assert(pv[pv.len() - 2] == stack0.last());
    assert(module_of(g, pv[pv.len() - 2]) == m);
    assert(0 <= k < m.edges.len() && m.edges[k].name == pv.last() && m.edges[k].attr_origin
        == origin);
    lemma_cycle_extract(g, pv, j);
    lemma_in_cycle_not_safe(g, pv[j]);
    assert(!safe(g, b));
    assert(pv.subrange(0, stack0.len() as int) =~= stack0);
    assert(pv.drop_last() =~= stack0);
    assert forall|i2: int| stack0.len() - 1 <= i2 < pv.len() - 1 implies dfs_step(
        g,
        #[trigger] pv[i2],
        pv[i2 + 1],
    ) by {
        assert(i2 == stack0.len() - 1);
        assert(pv[i2] == name);
        assert(pv[i2 + 1] == b);
        assert(0 <= k < module_of(g, name).edges.len() && (#[trigger] module_of(
            g,
            name,
        ).edges[k]).name == b && !safe(g, b) && (forall|k2: int|
            0 <= k2 < k ==> safe(g, #[trigger] module_of(g, name).edges[k2].name)));
    }
    assert(0 <= k < module_of(g, pv[pv.len() - 2]).edges.len() && (#[trigger] module_of(
        g,
        pv[pv.len() - 2],
    ).edges[k]).name == pv.last() && module_of(g, pv[pv.len() - 2]).edges[k].attr_origin == origin
        && (forall|k2: int|
        0 <= k2 < k ==> safe(g, #[trigger] module_of(g, pv[pv.len() - 2]).edges[k2].name)));
}

/// What holds of a report handed up from a deeper step: the pinned path
/// extends to the shorter stack, through this step's first unsafe edge.
proof fn lemma_propagated_report(
    g: Seq<ModuleView>,
    m: ModuleView,
    name: Seq<char>,
    stack0: Seq<Seq<char>>,
    b: Seq<char>,
    k: int,
    d: DiagView,
)
    requires
        m == module_of(g, name),
        has_name(g, name),
        stack0.len() >= 1,
        stack0.last() == name,
        0 <= k < m.edges.len(),
        m.edges[k].name == b,
        forall|k2: int| 0 <= k2 < k ==> safe(g, #[trigger] m.edges[k2].name),
        is_cycle_report(g, d),
        stack0.push(b).is_prefix_of(report_path(d)),
        forall|i2: int|
            stack0.len() <= i2 < report_path(d).len() - 1 ==> dfs_step(
                g,
                #[trigger] report_path(d)[i2],
                report_path(d)[i2 + 1],
            ),
    ensures
        stack0.is_prefix_of(report_path(d)),
        forall|i2: int|
            stack0.len() - 1 <= i2 < report_path(d).len() - 1 ==> dfs_step(
                g,
                #[trigger] report_path(d)[i2],
                report_path(d)[i2 + 1],
            ),
{
    let pv = report_path(d);
    let stack_call = stack0.push(b);
    assert(stack0 =~= stack_call.subrange(0, stack0.len() as int));
    lemma_prefix_trans(stack0, stack_call, pv);
    lemma_report_path_unsafe(g, d);
    assert forall|i2: int| stack0.len() - 1 <= i2 < pv.len() - 1 implies dfs_step(
        g,
        #[trigger] pv[i2],
        pv[i2 + 1],
    ) by {
        if i2 == stack0.len() - 1 {
            assert(pv[i2] == pv.subrange(0, stack_call.len() as int)[i2]);
            assert(pv[i2] == name);
            assert(pv[i2 + 1] == pv.subrange(0, stack_call.len() as int)[i2 + 1]);
            assert(pv[i2 + 1] == b);
            assert(!safe(g, pv[i2 + 1]));
            assert(0 <= k < module_of(g, name).edges.len() && (#[trigger] module_of(
                g,
                name,
            ).edges[k]).name == b && !safe(g, b) && (forall|k2: int|
                0 <= k2 < k ==> safe(g, #[trigger] module_of(g, name).edges[k2].name)));
        }
    }
}

/// The search's step out of a name is unique.
proof fn lemma_dfs_step_unique(g: Seq<ModuleView>, a: Seq<char>, b1: Seq<char>, b2: Seq<char>)
    requires
        dfs_step(g, a, b1),
        dfs_step(g, a, b2),
    ensures
        b1 == b2,
{
    let m = module_of(g, a);
    let k1 = choose|k1: int|
        0 <= k1 < m.edges.len() && (#[trigger] m.edges[k1]).name == b1 && !safe(g, b1) && (
        forall|k2: int| 0 <= k2 < k1 ==> safe(g, #[trigger] m.edges[k2].name));
    let k2 = choose|k2: int|
        0 <= k2 < m.edges.len() && (#[trigger] m.edges[k2]).name == b2 && !safe(g, b2) && (
        forall|k3: int| 0 <= k3 < k2 ==> safe(g, #[trigger] m.edges[k3].name));
    if k1 < k2 {
        assert(safe(g, m.edges[k1].name));
    } else if k2 < k1 {
        assert(safe(g, m.edges[k2].name));
    }
}

/// Two paths that start at one name and both follow the search's steps
/// agree wherever both are defined.
proof fn lemma_paths_agree(g: Seq<ModuleView>, p: Seq<Seq<char>>, q: Seq<Seq<char>>, t: int)
    requires
        p.len() >= 1,
        q.len() >= 1,
        p[0] == q[0],
        forall|i: int| 0 <= i < p.len() - 1 ==> dfs_step(g, #[trigger] p[i], p[i + 1]),
        forall|i: int| 0 <= i < q.len() - 1 ==> dfs_step(g, #[trigger] q[i], q[i + 1]),
        0 <= t < p.len(),
        t < q.len(),
    ensures
        p[t] == q[t],
    decreases t,
{
    if t > 0 {
        lemma_paths_agree(g, p, q, t - 1);
        assert(dfs_step(g, p[t - 1], p[t]));
        assert(dfs_step(g, q[t - 1], q[t]));
        lemma_dfs_step_unique(g, p[t - 1], p[t], q[t]);
    }
}

/// Two canonical reports of one registry are the same diagnostic: the
/// detector's result is a function of the registry alone, identical
/// across calls and runs on equal registries.
pub proof fn lemma_canonical_report_unique(g: Seq<ModuleView>, d1: DiagView, d2: DiagView)
    requires
        is_canonical_cycle_report(g, d1),
        is_canonical_cycle_report(g, d2),
    ensures
        d1 == d2,
{
    let p = report_path(d1);
    let q = report_path(d2);
    lemma_report_path_unsafe(g, d1);
    lemma_report_path_unsafe(g, d2);
    // the heads agree: both are the first name in registry order that is
    // not safe
    let i1 = choose|i1: int|
        0 <= i1 < g.len() && (#[trigger] g[i1]).name == p[0] && !safe(g, p[0]) && (forall|j: int|
            0 <= j < i1 ==> safe(g, #[trigger] g[j].name));
    let i2 = choose|i2: int|
        0 <= i2 < g.len() && (#[trigger] g[i2]).name == q[0] && !safe(g, q[0]) && (forall|j: int|
            0 <= j < i2 ==> safe(g, #[trigger] g[j].name));
    if i1 < i2 {
        assert(safe(g, g[i1].name));
    } else if i2 < i1 {
        assert(safe(g, g[i2].name));
    }
    assert(p[0] == q[0]);
    // neither path can be the longer: it would close only after the other,
    // repeating a name in the other's duplicate-free prefix
    if p.len() < q.len() {
        let j = choose|j: int| 0 <= j < p.len() - 1 && p[j] == p.last();
        lemma_paths_agree(g, p, q, j);
        lemma_paths_agree(g, p, q, p.len() - 1);
        assert(q.drop_last()[j] == q[j]);
        assert(q.drop_last()[p.len() - 1] == q[p.len() - 1]);
        assert(q[j] == q[p.len() - 1]);
        assert(false);
    }
    if q.len() < p.len() {
        let j = choose|j: int| 0 <= j < q.len() - 1 && q[j] == q.last();
        lemma_paths_agree(g, q, p, j);
        lemma_paths_agree(g, q, p, q.len() - 1);
        assert(p.drop_last()[j] == p[j]);
        assert(p.drop_last()[q.len() - 1] == p[q.len() - 1]);
        assert(p[j] == p[q.len() - 1]);
        assert(false);
    }
    assert forall|t: int| 0 <= t < p.len() implies p[t] == q[t] by {
        lemma_paths_agree(g, p, q, t);
    }
    assert(p =~= q);
    // the closing edge, the first of its module with an unsafe target, is
    // unique, so the origins agree
    let a = p[p.len() - 2];
    let m = module_of(g, a);
    let o1 = report_origin(d1);
    let o2 = report_origin(d2);
    let k1 = choose|k1: int|
        0 <= k1 < m.edges.len() && (#[trigger] m.edges[k1]).name == p.last()
            && m.edges[k1].attr_origin == o1 && (forall|k3: int|
            0 <= k3 < k1 ==> safe(g, #[trigger] m.edges[k3].name));
    let k2 = choose|k2: int|
        0 <= k2 < m.edges.len() && (#[trigger] m.edges[k2]).name == q.last()
            && m.edges[k2].attr_origin == o2 && (forall|k3: int|
            0 <= k3 < k2 ==> safe(g, #[trigger] m.edges[k3].name));
    assert(!safe(g, p.last()));
    if k1 < k2 {
        assert(safe(g, m.edges[k1].name));
        assert(false);
    } else if k2 < k1 {
        assert(safe(g, m.edges[k2].name));
        assert(false);
    }
    assert(o1 == o2);
    assert(d1 == d2);
}

/// A reported cycle means the registry has one.
pub proof fn lemma_report_cycle(g: Seq<ModuleView>, d: DiagView)
    requires
        is_cycle_report(g, d),
    ensures
        spec_has_cycle(g),
{
    match d {
        DiagView::CyclicDependency { attr_origin, path } => {
            let j = choose|j: int| 0 <= j < path.len() - 1 && path[j] == path.last();
            lemma_cycle_extract(g, path, j);
        },
        _ => {},
    }
}

/// The position of `name` in `v`, if present.
fn find_name(v: &Vec<String>, name: &str) -> (r: Option<usize>)
    ensures
        match r {
            Some(j) => j < v@.len() && name_views(v@)[j as int] == name@,
            None => !name_views(v@).contains(name@),
        },
{
    let mut j: usize = 0;
    while j < v.len()
        invariant
            j <= v@.len(),
            forall|i: int| 0 <= i < j ==> name_views(v@)[i] != name@,
        decreases v@.len() - j,
    {
        proof {
            assert(name_views(v@)[j as int] == v@[j as int]@);
        }
        if str_eq(v[j].as_str(), name) {
            return Some(j);
        }
        j = j + 1;
    }
    proof {
        if name_views(v@).contains(name@) {
            let i = choose|i: int| 0 <= i < name_views(v@).len() && name_views(v@)[i] == name@;
        }
    }
    None
}

/// A copy of a name list with the same views.
fn clone_names(v: &Vec<String>) -> (r: Vec<String>)
    ensures
        name_views(r@) =~= name_views(v@),
{
    let mut r: Vec<String> = Vec::new();
    let mut j: usize = 0;
    while j < v.len()
        invariant
            j <= v@.len(),
            r@.len() == j,
            forall|i: int| 0 <= i < j ==> name_views(r@)[i] == name_views(v@)[i],
        decreases v@.len() - j,
    {
        let ghost r0 = r@;
        r.push(v[j].clone());
        proof {
            lemma_name_views_push(r0, r@.last());
            assert(r@.last()@ == v@[j as int]@);
            assert forall|i: int| 0 <= i < j + 1 implies name_views(r@)[i] == name_views(v@)[i] by {
                assert(name_views(r@)[i] == r@[i]@);
                assert(name_views(v@)[i] == v@[i]@);
                if i < j {
                    assert(r@[i] == r0[i]);
                    assert(name_views(r0)[i] == r0[i]@);
                }
            }
        }
        j = j + 1;
    }
    r
}

impl DepsGraph {
    /// Depth-first searches for a dependency cycle from every module in
    /// registry order, returning the first cycle found, if any.  Requires a
    /// pruned registry, in which every edge resolves.  Success is returned
    /// exactly when no cycle exists across any root.
    pub fn check_circular_deps(&self) -> (r: Option<Diagnostic>)
        requires
            sorted_by_name(self@.modules),
            closed(self@.modules),
        ensures
            (r is None) <==> !spec_has_cycle(self@.modules),
            r matches Some(d) ==> is_canonical_cycle_report(self@.modules, d@),
    {
        let ghost g = self@.modules;
        let mut checked: Vec<String> = Vec::new();
        let mut i: usize = 0;
        while i < self.modules.len()
            invariant
                sorted_by_name(g),
                closed(g),
                g == self@.modules,
                self@.modules.len() == self.modules.len(),
                i <= self.modules.len(),
                name_views(checked@).no_duplicates(),
                forall|k: int|
                    0 <= k < checked@.len() ==> has_name(g, #[trigger] name_views(checked@)[k]),
                forall|k: int|
                    0 <= k < checked@.len() ==> safe(g, #[trigger] name_views(checked@)[k]),
                forall|j: int| 0 <= j < i ==> name_views(checked@).contains(#[trigger] g[j].name),
            decreases self.modules.len() - i,
        {
            proof {
                assert(g[i as int] == self.modules@[i as int]@);
            }
            let root = self.modules[i].name.clone();
            let mut stack: Vec<String> = Vec::new();
            let ghost empty_stack = stack@;
            stack.push(root);
            let ghost cs_root = name_views(checked@);
            proof {
                lemma_name_views_push(empty_stack, stack@.last());
                assert(name_views(empty_stack) =~= Seq::<Seq<char>>::empty());
                assert(name_views(stack@) =~= seq![g[i as int].name]);
                assert(name_views(stack@).last() == g[i as int].name);
                assert(has_name(g, g[i as int].name));
                assert(is_chain(g, name_views(stack@)));
                assert forall|k: int| 0 <= k < checked@.len() implies safe(
                    g,
                    #[trigger] cs_root[k],
                ) || name_views(stack@).contains(cs_root[k]) by {}
                if cs_root.contains(g[i as int].name) {
                    let k = choose|k: int| 0 <= k < cs_root.len() && cs_root[k] == g[i as int].name;
                    assert(safe(g, cs_root[k]));
                }
            }
            let ghost fuel_now = self.modules@.len() - name_views(checked@).len();
            let r2 = self.check_circular_deps_recur(
                self.modules[i].name.as_str(),
                &mut stack,
                &mut checked,
                Ghost(fuel_now),
            );
            match r2 {
                Some(d) => {
                    proof {
                        lemma_report_cycle(g, d@);
                        lemma_report_path_unsafe(g, d@);
                        let pv = report_path(d@);
                        let root_views = seq![g[i as int].name];
                        assert(pv[0] == pv.subrange(0, 1)[0]);
                        assert(pv[0] == g[i as int].name);
                        assert(!safe(g, pv[0]));
                        assert forall|j2: int| 0 <= j2 < i implies safe(
                            g,
                            #[trigger] g[j2].name,
                        ) by {
                            assert(cs_root.contains(g[j2].name));
                            let k2 = choose|k2: int|
                                0 <= k2 < cs_root.len() && cs_root[k2] == g[j2].name;
                            assert(safe(g, cs_root[k2]));
                        }
                        assert(first_unsafe_head(g, pv[0]));
                        assert(is_canonical_cycle_report(g, d@));
                    }
                    return Some(d);
                },
                None => {},
            }
            proof {
                let cs_new = name_views(checked@);
                assert forall|k: int| 0 <= k < checked@.len() implies safe(
                    g,
                    #[trigger] cs_new[k],
                ) by {
                    if cs_root.contains(cs_new[k]) {
                        let j2 = choose|j2: int|
                            0 <= j2 < cs_root.len() && cs_root[j2] == cs_new[k];
                        assert(safe(g, cs_root[j2]));
                    }
                }
                assert forall|j: int| 0 <= j < i + 1 implies cs_new.contains(
                    #[trigger] g[j].name,
                ) by {
                    if j < i {
                        lemma_prefix_contains(cs_root, cs_new, g[j].name);
                    }
                }
            }
            i = i + 1;
        }
        proof {
            assert forall|n: Seq<char>| has_name(g, n) implies safe(g, n) by {
                let j = choose|j: int| 0 <= j < g.len() && g[j].name == n;
                assert(name_views(checked@).contains(g[j].name));
                let k = choose|k: int|
                    0 <= k < name_views(checked@).len() && name_views(checked@)[k] == n;
                assert(safe(g, name_views(checked@)[k]));
            }
            lemma_all_safe_acyclic(g);
        }
        None
    }

    /// One depth-first exploration step.  `stack` holds the names on the
    /// current path, `name` on top; `checked` holds the names already
    /// entered, each known cycle-free unless it is still on the path.
    #[verifier::rlimit(100)]
    fn check_circular_deps_recur(
        &self,
        name: &str,
        stack: &mut Vec<String>,
        checked: &mut Vec<String>,
        Ghost(fuel): Ghost<int>,
    ) -> (res: Option<Diagnostic>)
        requires
            fuel == self.modules@.len() - old(checked)@.len(),
            sorted_by_name(self@.modules),
            closed(self@.modules),
            has_name(self@.modules, name@),
            old(stack)@.len() >= 1,
            name_views(old(stack)@).last() == name@,
            name_views(old(stack)@).no_duplicates(),
            is_chain(self@.modules, name_views(old(stack)@)),
            name_views(old(checked)@).no_duplicates(),
            forall|k: int|
                0 <= k < old(checked)@.len() ==> has_name(
                    self@.modules,
                    #[trigger] name_views(old(checked)@)[k],
                ),
            forall|k: int|
                0 <= k < old(checked)@.len() ==> safe(
                    self@.modules,
                    #[trigger] name_views(old(checked)@)[k],
                ) || name_views(old(stack)@).contains(name_views(old(checked)@)[k]),
            name_views(old(checked)@).contains(name@) ==> safe(self@.modules, name@),
        ensures
            res matches Some(d) ==> ({
                let g = self@.modules;
                let pv = report_path(d@);
                let cs0 = name_views(old(checked)@);
                let cs1 = name_views(final(checked)@);
                &&& is_cycle_report(g, d@)
                &&& name_views(old(stack)@).is_prefix_of(pv)
                &&& pv.drop_last().no_duplicates()
                &&& (forall|i: int|
                    old(stack)@.len() - 1 <= i < pv.len() - 1 ==> dfs_step(
                        g,
                        #[trigger] pv[i],
                        pv[i + 1],
                    ))
                &&& dfs_closing(g, pv[pv.len() - 2], pv.last(), report_origin(d@))
                &&& cs0.is_prefix_of(cs1)
                &&& cs1.no_duplicates()
                &&& (forall|k: int| 0 <= k < cs1.len() ==> has_name(g, #[trigger] cs1[k]))
                &&& cs1.contains(name@)
            }),
            res is None ==> ({
                let g = self@.modules;
                let cs0 = name_views(old(checked)@);
                let cs1 = name_views(final(checked)@);
                &&& name_views(final(stack)@) == name_views(old(stack)@)
                &&& cs0.is_prefix_of(cs1)
                &&& cs1.no_duplicates()
                &&& (forall|k: int| 0 <= k < cs1.len() ==> has_name(g, #[trigger] cs1[k]))
                &&& cs1.contains(name@)
                &&& (forall|k: int|
                    0 <= k < cs1.len() ==> cs0.contains(#[trigger] cs1[k]) || safe(g, cs1[k]))
                &&& safe(g, name@)
            }),
        decreases fuel,
    {
        let ghost g = self@.modules;
        let ghost cs0 = name_views(checked@);
        let ghost stack0 = name_views(stack@);
        proof {
            assert(cs0.len() == checked@.len());
            assert(fuel == self.modules@.len() - cs0.len());
        }
        proof {
            assert forall|k: int| 0 <= k < cs0.len() implies cs0.contains(#[trigger] cs0[k]) by {}
            assert(cs0 =~= cs0.subrange(0, cs0.len() as int));
        }
        match find_name(checked, name) {
            Some(j) => {
                // already fully explored from an earlier root or path
                proof {
                    assert(cs0[j as int] == name@);
                    assert(cs0.contains(name@));
                }
                return None;
            },
            None => {},
        }
        proof {
            assert(!cs0.contains(name@));
        }
        // mark the name as entered before exploring its edges
        checked.push(name.to_owned());
        let ghost cs_in = name_views(checked@);
        proof {
            lemma_name_views_push(checked@.drop_last(), checked@.last());
            assert(checked@.drop_last() =~= checked@.subrange(0, checked@.len() - 1));
            assert(cs_in =~= cs0.push(name@));
            assert forall|a: int, b: int|
                0 <= a < cs_in.len() && 0 <= b < cs_in.len() && a != b implies cs_in[a]
                != cs_in[b] by {
                if a < cs0.len() && b < cs0.len() {
                } else if a < cs0.len() {
                    assert(cs_in[b] == name@);
                    assert(cs_in[a] == cs0[a]);
                } else {
                    assert(cs_in[a] == name@);
                    assert(cs_in[b] == cs0[b]);
                }
            }
            assert(cs_in.no_duplicates());
            assert(cs0.is_prefix_of(cs_in));
            assert(cs_in[cs0.len() as int] == name@);
            assert(cs_in.contains(name@));
        }
        let idx = match self.find_module(name) {
            Some(i) => i,
            None => {
                proof {
                    assert(false);
                }
                vstd::pervasive::unreached()
            },
        };
        proof {
            assert(g[idx as int].name == name@);
            lemma_index_of(g, idx as int);
            assert(module_of(g, name@) == g[idx as int]);
        }
        let ghost m = g[idx as int];
        let edge_count = self.modules[idx].edges.len();
        proof {
            assert(g[idx as int] == self.modules@[idx as int]@);
            assert(m.edges.len() == edge_count);
        }
        let mut k: usize = 0;
        while k < edge_count
            invariant
                sorted_by_name(g),
                closed(g),
                g == self@.modules,
                self@.modules.len() == self.modules.len(),
                idx < self.modules.len(),
                m == g[idx as int],
                m == module_of(g, name@),
                m.edges.len() == edge_count,
                g.len() == self.modules@.len(),
                fuel == g.len() - cs0.len(),
                g[idx as int].name == name@,
                has_name(g, name@),
                k <= edge_count,
                stack0 == name_views(old(stack)@),
                cs0 == name_views(old(checked)@),
                name_views(stack@) == stack0,
                stack@.len() == stack0.len(),
                stack0.len() >= 1,
                stack0.last() == name@,
                stack0.no_duplicates(),
                is_chain(g, stack0),
                !cs0.contains(name@),
                cs0.is_prefix_of(cs_in),
                cs_in.len() == cs0.len() + 1,
                cs_in.is_prefix_of(name_views(checked@)),
                name_views(checked@).no_duplicates(),
                forall|k2: int|
                    0 <= k2 < checked@.len() ==> has_name(
                        g,
                        #[trigger] name_views(checked@)[k2],
                    ),
                name_views(checked@).contains(name@),
                forall|k2: int|
                    0 <= k2 < checked@.len() ==> cs0.contains(#[trigger] name_views(checked@)[k2])
                        || name_views(checked@)[k2] == name@ || safe(g, name_views(checked@)[k2]),
                forall|k2: int|
                    0 <= k2 < checked@.len() ==> safe(g, #[trigger] name_views(checked@)[k2])
                        || stack0.contains(name_views(checked@)[k2]),
                forall|k2: int| 0 <= k2 < k ==> safe(g, #[trigger] m.edges[k2].name),
            decreases edge_count - k,
        {
            proof {
                assert(g[idx as int] == self.modules@[idx as int]@);
                assert(m.edges[k as int] == self.modules@[idx as int]@.edges[k as int]);
            }
            let ghost b = m.edges[k as int].name;
            proof {
                assert(edge_to(g, name@, b));
                assert(has_name(g, g[idx as int].edges[k as int].name));
                assert(has_name(g, b));
            }
            let found = find_name(stack, self.modules[idx].edges[k].name.as_str());
            match found {
                Some(j) => {
                    // the edge closes the current path: report it whole
                    let mut path = clone_names(stack);
                    let ghost cloned = path@;
                    path.push(self.modules[idx].edges[k].name.clone());
                    let d = Diagnostic::CyclicDependency {
                        attr_origin: self.modules[idx].edges[k].attr_origin,
                        path,
                    };
                    proof {
                        assert(name_views(cloned) =~= stack0);
                        lemma_name_views_push(cloned, path@.last());
                        assert(path@.last()@ == b);
                        let pv = name_views(path@);
                        assert(pv =~= stack0.push(b));
                        assert(stack0[j as int] == b);
                        lemma_stack_hit_report(
                            g,
                            m,
                            name@,
                            stack0,
                            b,
                            pv,
                            j as int,
                            k as int,
                            m.edges[k as int].attr_origin,
                        );
                        assert(report_path(d@) == pv);
                        assert(report_origin(d@) == m.edges[k as int].attr_origin);
                        assert(is_cycle_report(g, d@));
                        lemma_prefix_trans(cs0, cs_in, name_views(checked@));
                    }
                    return Some(d);
                },
                None => {},
            }
            proof {
                // a checked target off the path is already known safe
                if name_views(checked@).contains(b) {
                    let k2 = choose|k2: int|
                        0 <= k2 < name_views(checked@).len() && name_views(checked@)[k2] == b;
                    assert(safe(g, name_views(checked@)[k2]) || stack0.contains(
                        name_views(checked@)[k2],
                    ));
                    assert(safe(g, b));
                }
            }
            let ghost stack_pre = stack@;
            stack.push(self.modules[idx].edges[k].name.clone());
            let ghost cs_call = name_views(checked@);
            proof {
                lemma_name_views_push(stack_pre, stack@.last());
                assert(stack@.last()@ == b);
                assert(name_views(stack@) =~= stack0.push(b));
                lemma_chain_push(g, stack0, b);
                assert(name_views(stack@).last() == b);
                assert forall|a2: int, b2: int|
                    0 <= a2 < stack0.len() + 1 && 0 <= b2 < stack0.len() + 1 && a2 != b2
                    implies stack0.push(b)[a2] != stack0.push(b)[b2] by {
                    if a2 < stack0.len() && b2 < stack0.len() {
                    } else if a2 < stack0.len() {
                        assert(stack0.push(b)[b2] == b);
                        assert(stack0.push(b)[a2] == stack0[a2]);
                        assert(!stack0.contains(b));
                    } else {
                        assert(stack0.push(b)[a2] == b);
                        assert(stack0.push(b)[b2] == stack0[b2]);
                        assert(!stack0.contains(b));
                    }
                }
                assert(name_views(stack@).no_duplicates());
                assert forall|k2: int|
                    0 <= k2 < checked@.len() implies safe(g, #[trigger] cs_call[k2])
                    || name_views(stack@).contains(cs_call[k2]) by {
                    if stack0.contains(cs_call[k2]) {
                        let j2 = choose|j2: int|
                            0 <= j2 < stack0.len() && stack0[j2] == cs_call[k2];
                        assert(name_views(stack@)[j2] == cs_call[k2]);
                    }
                }
                // the search space shrinks: everything checked is a distinct
                // registered name
                lemma_checked_bounded(g, cs_call);
                assert(checked@.len() == cs_call.len());
                assert(g.len() == self.modules@.len());
                assert(checked@.len() <= self.modules@.len());
                assert(cs_call.len() >= cs_in.len());
                assert(checked@.len() >= cs0.len() + 1);
                assert(self.modules@.len() - name_views(checked@).len() < fuel);
                assert(self.modules@.len() - name_views(checked@).len() >= 0);
            }
            let ghost fuel_now = self.modules@.len() - name_views(checked@).len();
            let r2 = self.check_circular_deps_recur(
                self.modules[idx].edges[k].name.as_str(),
                stack,
                checked,
                Ghost(fuel_now),
            );
            match r2 {
                Some(d) => {
                    proof {
                        lemma_propagated_report(g, m, name@, stack0, b, k as int, d@);
                        lemma_prefix_trans(cs0, cs_in, cs_call);
                        lemma_prefix_trans(cs0, cs_call, name_views(checked@));
                        lemma_prefix_contains(cs_call, name_views(checked@), name@);
                    }
                    return Some(d);
                },
                None => {},
            }
            let ghost stack_ret = stack@;
            let _restored = stack.pop();
            proof {
                assert(name_views(stack_ret) == stack0.push(b));
                assert(stack_ret.len() == stack0.len() + 1);
                assert(stack@ =~= stack_ret.drop_last());
                lemma_name_views_drop_last(stack_ret);
                assert(name_views(stack@) =~= stack0.push(b).drop_last());
                assert(stack0.push(b).drop_last() =~= stack0);
                assert(name_views(stack@) == stack0);
            }
            proof {
                let cs_new = name_views(checked@);
                lemma_prefix_trans(cs_in, cs_call, cs_new);
                lemma_prefix_contains(cs_call, cs_new, name@);
                assert(safe(g, b));
                assert forall|k2: int|
                    0 <= k2 < checked@.len() implies cs0.contains(#[trigger] cs_new[k2])
                    || cs_new[k2] == name@ || safe(g, cs_new[k2]) by {
                    if cs_call.contains(cs_new[k2]) {
                        let j2 = choose|j2: int|
                            0 <= j2 < cs_call.len() && cs_call[j2] == cs_new[k2];
                        assert(cs0.contains(cs_call[j2]) || cs_call[j2] == name@ || safe(
                            g,
                            cs_call[j2],
                        ));
                    } else {
                        assert(safe(g, cs_new[k2]));
                    }
                }
                assert forall|k2: int|
                    0 <= k2 < checked@.len() implies safe(g, #[trigger] cs_new[k2])
                    || stack0.contains(cs_new[k2]) by {
                    if cs_call.contains(cs_new[k2]) {
                        let j2 = choose|j2: int|
                            0 <= j2 < cs_call.len() && cs_call[j2] == cs_new[k2];
                        assert(safe(g, cs_call[j2]) || stack0.push(b).contains(cs_call[j2]));
                        if !safe(g, cs_call[j2]) {
                            let j3 = choose|j3: int|
                                0 <= j3 < stack0.push(b).len() && stack0.push(b)[j3] == cs_call[j2];
                            if j3 < stack0.len() {
                                assert(stack0[j3] == cs_call[j2]);
                                assert(stack0.contains(cs_call[j2]));
                            } else {
                                assert(cs_call[j2] == b);
                            }
                        }
                    } else {
                        assert(safe(g, cs_new[k2]));
                    }
                }
            }
            k = k + 1;
        }
        // every direct dependency proved safe: the name itself is safe
        proof {
            assert forall|k2: int| 0 <= k2 < module_of(g, name@).edges.len() implies safe(
                g,
                #[trigger] module_of(g, name@).edges[k2].name,
            ) by {
                assert(module_of(g, name@).edges[k2] == m.edges[k2]);
            }
            lemma_successors_safe(g, name@);
            let cs1 = name_views(checked@);
            lemma_prefix_trans(cs0, cs_in, cs1);
            assert forall|k2: int|
                0 <= k2 < cs1.len() implies cs0.contains(#[trigger] cs1[k2]) || safe(
                g,
                cs1[k2],
            ) by {
                if cs1[k2] == name@ {
                    assert(safe(g, name@));
                }
            }
        }
        None
    }
}

} // verus!
