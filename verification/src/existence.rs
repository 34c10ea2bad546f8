//! The existence validator.
//!
//! Checks every dependency edge against the set of registered names, removes
//! the edges whose target is absent, and emits one `MissingDependency`
//! diagnostic per removed edge.  Pruning guarantees that the cycle detector
//! and the order validator never see a dangling reference.

use vstd::prelude::*;
use crate::diagnostics::{DiagView, Diagnostic, diag_views, lemma_diag_views_push};
use crate::graph::{
    DepEdge, DepsGraph, EdgeView, ModuleDecl, ModuleView, closed, edge_views, has_name,
    lemma_edge_views_push, sorted_by_name,
};

verus! {

/// The edges of `edges` whose target is registered in `g`, in order.
pub open spec fn kept_edges(g: Seq<ModuleView>, edges: Seq<EdgeView>) -> Seq<EdgeView>
    decreases edges.len(),
{
    if edges.len() == 0 {
        Seq::empty()
    } else {
        let rest = kept_edges(g, edges.drop_last());
        if has_name(g, edges.last().name) {
            rest.push(edges.last())
        } else {
            rest
        }
    }
}

/// One `MissingDependency` diagnostic per edge of `edges` whose target is
/// absent from `g`, in edge order.
pub open spec fn missing_diags_edges(g: Seq<ModuleView>, edges: Seq<EdgeView>) -> Seq<DiagView>
    decreases edges.len(),
{
    if edges.len() == 0 {
        Seq::empty()
    } else {
        let rest = missing_diags_edges(g, edges.drop_last());
        if has_name(g, edges.last().name) {
            rest
        } else {
            rest.push(
                DiagView::MissingDependency {
                    attr_origin: edges.last().attr_origin,
                    dependency: edges.last().name,
                },
            )
        }
    }
}

/// A module with its unresolvable edges removed.
pub open spec fn prune_module(g: Seq<ModuleView>, m: ModuleView) -> ModuleView {
    ModuleView { edges: kept_edges(g, m.edges), ..m }
}

/// The registry with every unresolvable edge removed.
pub open spec fn prune(g: Seq<ModuleView>) -> Seq<ModuleView> {
    g.map_values(|m: ModuleView| prune_module(g, m))
}

/// The missing-dependency diagnostics of the first `n` modules, in registry
/// order.
pub open spec fn missing_diags_upto(g: Seq<ModuleView>, n: int) -> Seq<DiagView>
    decreases n,
{
    if n <= 0 {
        Seq::empty()
    } else {
        missing_diags_upto(g, n - 1) + missing_diags_edges(g, g[n - 1].edges)
    }
}

/// All missing-dependency diagnostics of the registry.
pub open spec fn missing_diags(g: Seq<ModuleView>) -> Seq<DiagView> {
    missing_diags_upto(g, g.len() as int)
}

/// Pruning changes no name and keeps every name resolvable where it was.
pub proof fn lemma_prune_names(g: Seq<ModuleView>)
    ensures
        prune(g).len() == g.len(),
        forall|i: int| 0 <= i < g.len() ==> #[trigger] prune(g)[i].name == g[i].name,
        forall|n: Seq<char>| has_name(prune(g), n) == has_name(g, n),
{
    assert forall|n: Seq<char>| has_name(prune(g), n) == has_name(g, n) by {
        if has_name(prune(g), n) {
            let i = choose|i: int| 0 <= i < prune(g).len() && prune(g)[i].name == n;
            assert(g[i].name == n);
        }
        if has_name(g, n) {
            let i = choose|i: int| 0 <= i < g.len() && g[i].name == n;
            assert(prune(g)[i].name == n);
        }
    }
}

/// Every edge in the kept list resolves in `g`.
pub proof fn lemma_kept_edges_resolve(g: Seq<ModuleView>, edges: Seq<EdgeView>)
    ensures
        forall|k: int|
            0 <= k < kept_edges(g, edges).len() ==> has_name(
                g,
                #[trigger] kept_edges(g, edges)[k].name,
            ),
    decreases edges.len(),
{
    if edges.len() > 0 {
        lemma_kept_edges_resolve(g, edges.drop_last());
        let rest = kept_edges(g, edges.drop_last());
        assert forall|k: int| 0 <= k < kept_edges(g, edges).len() implies has_name(
            g,
            kept_edges(g, edges)[k].name,
        ) by {
            if has_name(g, edges.last().name) && k == rest.len() {
                assert(kept_edges(g, edges)[k] == edges.last());
            } else {
                assert(kept_edges(g, edges)[k] == rest[k]);
            }
        }
    }
}

/// Every edge kept by the pruning resolves, so the pruned registry is
/// closed and the later analyses never meet a dangling reference.
pub proof fn lemma_prune_closed(g: Seq<ModuleView>)
    ensures
        closed(prune(g)),
        sorted_by_name(g) ==> sorted_by_name(prune(g)),
{
    lemma_prune_names(g);
    assert forall|i: int, k: int|
        0 <= i < prune(g).len() && 0 <= k < prune(g)[i].edges.len() implies has_name(
        prune(g),
        #[trigger] prune(g)[i].edges[k].name,
    ) by {
        lemma_kept_edges_resolve(g, g[i].edges);
        assert(prune(g)[i].edges == kept_edges(g, g[i].edges));
    }
}

/// Whether one of `keys` views to `name`.
fn contains_key(keys: &Vec<String>, name: &str) -> (r: bool)
    ensures
        r == exists|j: int| 0 <= j < keys@.len() && keys@[j]@ == name@,
{
    let mut j: usize = 0;
    while j < keys.len()
        invariant
            j <= keys@.len(),
            forall|k: int| 0 <= k < j ==> keys@[k]@ != name@,
        decreases keys@.len() - j,
    {
        if crate::names::str_eq(keys[j].as_str(), name) {
            return true;
        }
        j = j + 1;
    }
    false
}

impl DepsGraph {
    /// Validates that every dependency edge targets a registered module.
    /// Unresolvable edges are removed in place and reported, one diagnostic
    /// per bad edge; modules are neither removed nor reordered.
    pub fn check_exists(&mut self) -> (diags: Vec<Diagnostic>)
        ensures
            final(self)@.modules == prune(old(self)@.modules),
            final(self)@.has_circular_deps == old(self)@.has_circular_deps,
            diag_views(diags@) == missing_diags(old(self)@.modules),
            closed(final(self)@.modules),
            sorted_by_name(old(self)@.modules) ==> sorted_by_name(final(self)@.modules),
    {
        let ghost g = self@.modules;
        // the full set of registered names, computed once
        let mut keys: Vec<String> = Vec::new();
        let mut i: usize = 0;
        while i < self.modules.len()
            invariant
                self@ == old(self)@,
                g == self@.modules,
                i <= self.modules.len(),
                self@.modules.len() == self.modules.len(),
                keys@.len() == i,
                forall|k: int| 0 <= k < i ==> keys@[k]@ == g[k].name,
            decreases self.modules.len() - i,
        {
            proof {
                assert(g[i as int] == self.modules@[i as int]@);
            }
            keys.push(self.modules[i].name.clone());
            i = i + 1;
        }
        proof {
            assert forall|n: Seq<char>|
                (exists|j: int| 0 <= j < keys@.len() && keys@[j]@ == n) == has_name(g, n) by {
                if exists|j: int| 0 <= j < keys@.len() && keys@[j]@ == n {
                    let j = choose|j: int| 0 <= j < keys@.len() && keys@[j]@ == n;
                    assert(g[j].name == n);
                }
                if has_name(g, n) {
                    let j = choose|j: int| 0 <= j < g.len() && g[j].name == n;
                    assert(keys@[j]@ == n);
                }
            }
            assert(diag_views(Seq::<Diagnostic>::empty()) =~= missing_diags_upto(g, 0));
        }

        let mut diags: Vec<Diagnostic> = Vec::new();
        let n = self.modules.len();
        let mut i: usize = 0;
        while i < n
            invariant
                n == g.len(),
                i <= n,
                self.modules@.len() == g.len(),
                self@.modules.len() == g.len(),
                self@.has_circular_deps == old(self)@.has_circular_deps,
                forall|n2: Seq<char>|
                    (exists|j: int| 0 <= j < keys@.len() && keys@[j]@ == n2) == has_name(g, n2),
                forall|j: int| 0 <= j < i ==> self@.modules[j] == prune_module(g, g[j]),
                forall|j: int| i <= j < g.len() ==> self@.modules[j] == g[j],
                diag_views(diags@) == missing_diags_upto(g, i as int),
            decreases n - i,
        {
            let ghost pre_mods = self.modules@;
            let ghost pre_view = self@.modules;
            proof {
                assert forall|j: int| 0 <= j < g.len() implies pre_view[j] == pre_mods[j]@ by {}
            }
            let mut holder = ModuleDecl {
                name: String::new(),
                order: 0,
                is_pub: false,
                doc: String::new(),
                origin: 0,
                edges: Vec::new(),
            };
            proof {
                assert(self@.modules[i as int] == self.modules@[i as int]@);
            }
            vstd::pervasive::VecAdditionalExecFns::set_and_swap(&mut self.modules, i, &mut holder);
            proof {
                assert(holder@ == g[i as int]);
            }
            let ModuleDecl { name, order, is_pub, doc, origin, edges } = holder;
            let ghost orig_edges = g[i as int].edges;
            proof {
                assert(edge_views(edges@) == orig_edges);
                assert(edge_views(edges@).len() == edges@.len());
                assert(orig_edges.subrange(0, 0) =~= Seq::<EdgeView>::empty());
                assert(edge_views(Seq::<DepEdge>::empty()) =~= kept_edges(
                    g,
                    orig_edges.subrange(0, 0),
                ));
                assert(missing_diags_edges(g, orig_edges.subrange(0, 0)) =~= Seq::<
                    DiagView,
                >::empty());
                assert(diag_views(diags@) =~= missing_diags_upto(g, i as int) + missing_diags_edges(
                    g,
                    orig_edges.subrange(0, 0),
                ));
                assert(edge_views(edges@) =~= orig_edges.subrange(0, orig_edges.len() as int));
            }
            let mut rest = edges;
            let mut kept: Vec<DepEdge> = Vec::new();
            let ghost mut done: int = 0;
            while rest.len() > 0
                invariant
                    0 <= done <= orig_edges.len(),
                    rest@.len() == orig_edges.len() - done,
                    edge_views(rest@) =~= orig_edges.subrange(done, orig_edges.len() as int),
                    edge_views(kept@) == kept_edges(g, orig_edges.subrange(0, done)),
                    diag_views(diags@) == missing_diags_upto(g, i as int) + missing_diags_edges(
                        g,
                        orig_edges.subrange(0, done),
                    ),
                    forall|n2: Seq<char>|
                        (exists|j: int| 0 <= j < keys@.len() && keys@[j]@ == n2) == has_name(
                            g,
                            n2,
                        ),
                decreases rest@.len(),
            {
                let ghost r0 = rest@;
                let e = rest.remove(0);
                proof {
                    assert(done < orig_edges.len());
                    assert(e == r0[0]);
                    assert(rest@ == r0.remove(0));
                    assert(edge_views(r0)[0] == r0[0]@);
                    assert(e@ == orig_edges.subrange(done, orig_edges.len() as int)[0]);
                    assert(e@ == orig_edges[done]);
                    assert forall|k: int| 0 <= k < rest@.len() implies edge_views(rest@)[k]
                        == orig_edges.subrange(done + 1, orig_edges.len() as int)[k] by {
                        assert(rest@[k] == r0[k + 1]);
                        assert(edge_views(r0)[k + 1] == r0[k + 1]@);
                        assert(orig_edges.subrange(done, orig_edges.len() as int)[k + 1]
                            == orig_edges[done + 1 + k]);
                    }
                    assert(edge_views(rest@) =~= orig_edges.subrange(
                        done + 1,
                        orig_edges.len() as int,
                    ));
                    let pre = orig_edges.subrange(0, done);
                    let cur = orig_edges.subrange(0, done + 1);
                    assert(cur.drop_last() =~= pre);
                    assert(cur.last() == orig_edges[done]);
                }
                if contains_key(&keys, e.name.as_str()) {
                    proof {
                        assert(has_name(g, e@.name));
                        lemma_edge_views_push(kept@, e);
                    }
                    kept.push(e);
                } else {
                    proof {
                        assert(!has_name(g, e@.name));
                    }
                    let d = Diagnostic::MissingDependency {
                        attr_origin: e.attr_origin,
                        dependency: e.name,
                    };
                    proof {
                        lemma_diag_views_push(diags@, d);
                    }
                    diags.push(d);
                }
                proof {
                    done = done + 1;
                    assert(edge_views(kept@) =~= kept_edges(g, orig_edges.subrange(0, done)));
                    assert(diag_views(diags@) =~= missing_diags_upto(g, i as int)
                        + missing_diags_edges(g, orig_edges.subrange(0, done)));
                }
            }
            proof {
                assert(orig_edges.subrange(0, done) =~= orig_edges);
            }
            let rebuilt = ModuleDecl { name, order, is_pub, doc, origin, edges: kept };
            proof {
                assert(rebuilt@ == prune_module(g, g[i as int]));
            }
            vstd::pervasive::VecAdditionalExecFns::set(&mut self.modules, i, rebuilt);
            proof {
                assert forall|j: int| 0 <= j < g.len() && j != i implies self.modules@[j]
                    == pre_mods[j] by {}
                assert forall|j: int| 0 <= j < i + 1 implies self@.modules[j] == prune_module(
                    g,
                    g[j],
                ) by {
                    assert(self@.modules[j] == self.modules@[j]@);
                    if j < i {
                        assert(self.modules@[j] == pre_mods[j]);
                        assert(pre_mods[j]@ == pre_view[j]);
                    } else {
                        assert(self.modules@[j] == rebuilt);
                    }
                }
                assert forall|j: int| i + 1 <= j < g.len() implies self@.modules[j] == g[j] by {
                    assert(self@.modules[j] == self.modules@[j]@);
                    assert(self.modules@[j] == pre_mods[j]);
                    assert(pre_mods[j]@ == pre_view[j]);
                }
                assert(missing_diags_upto(g, i as int) + missing_diags_edges(g, g[i as int].edges)
                    =~= missing_diags_upto(g, i + 1));
            }
            i = i + 1;
        }
        proof {
            assert(self@.modules =~= prune(g));
            lemma_prune_closed(g);
        }
        diags
    }
}

} // verus!
