//! Laws of the analyses, proved once and for all inputs.

use vstd::prelude::*;
use crate::diagnostics::DiagView;
use crate::existence::{kept_edges, missing_diags, missing_diags_edges, missing_diags_upto, prune,
    prune_module};
use crate::expand::{EntryView, SrcItemView, check_diags_ok, src_item_of, src_items_of};
use crate::graph::{
    EdgeView, ModuleView, closed, has_name, index_of, lemma_index_of, module_of, sorted_by_name,
};
use crate::order::{
    module_order_diags, order_diags, order_diags_upto, order_init, order_run, order_step,
};
use crate::paths::{edge_to, in_cycle, is_chain, spec_has_cycle};

verus! {

/// On a closed registry the pruning removes nothing.
pub proof fn lemma_kept_edges_all(g: Seq<ModuleView>, edges: Seq<EdgeView>)
    requires
        forall|k: int| 0 <= k < edges.len() ==> has_name(g, #[trigger] edges[k].name),
    ensures
        kept_edges(g, edges) =~= edges,
    decreases edges.len(),
{
    if edges.len() > 0 {
        assert forall|k: int| 0 <= k < edges.drop_last().len() implies has_name(
            g,
            #[trigger] edges.drop_last()[k].name,
        ) by {
            assert(edges.drop_last()[k] == edges[k]);
        }
        lemma_kept_edges_all(g, edges.drop_last());
    }
}

/// On a closed registry the existence validator is the identity and
/// reports nothing.
pub proof fn lemma_prune_noop(g: Seq<ModuleView>)
    requires
        closed(g),
    ensures
        prune(g) =~= g,
        missing_diags(g) =~= Seq::<DiagView>::empty(),
{
    assert forall|i: int| 0 <= i < g.len() implies prune(g)[i] == g[i] by {
        assert forall|k: int| 0 <= k < g[i].edges.len() implies has_name(
            g,
            #[trigger] g[i].edges[k].name,
        ) by {}
        lemma_kept_edges_all(g, g[i].edges);
        assert(prune_module(g, g[i]) == g[i]);
    }
    lemma_missing_empty_upto(g, g.len() as int);
}

proof fn lemma_missing_empty_edges(g: Seq<ModuleView>, edges: Seq<EdgeView>)
    requires
        forall|k: int| 0 <= k < edges.len() ==> has_name(g, #[trigger] edges[k].name),
    ensures
        missing_diags_edges(g, edges) =~= Seq::<DiagView>::empty(),
    decreases edges.len(),
{
    if edges.len() > 0 {
        assert forall|k: int| 0 <= k < edges.drop_last().len() implies has_name(
            g,
            #[trigger] edges.drop_last()[k].name,
        ) by {
            assert(edges.drop_last()[k] == edges[k]);
        }
        lemma_missing_empty_edges(g, edges.drop_last());
    }
}

proof fn lemma_missing_empty_upto(g: Seq<ModuleView>, n: int)
    requires
        closed(g),
        n <= g.len(),
    ensures
        missing_diags_upto(g, n) =~= Seq::<DiagView>::empty(),
    decreases n,
{
    if n > 0 {
        lemma_missing_empty_upto(g, n - 1);
        assert forall|k: int| 0 <= k < g[n - 1].edges.len() implies has_name(
            g,
            #[trigger] g[n - 1].edges[k].name,
        ) by {}
        lemma_missing_empty_edges(g, g[n - 1].edges);
    }
}

/// Every dependency of every module is declared after the module itself.
pub open spec fn deps_declared_after(g: Seq<ModuleView>) -> bool {
    forall|i: int, k: int|
        0 <= i < g.len() && 0 <= k < g[i].edges.len() ==> module_of(
            g,
            #[trigger] g[i].edges[k].name,
        ).order > g[i].order
}

/// Every dependency list is written in non-decreasing declaration order.
pub open spec fn dep_lists_ordered(g: Seq<ModuleView>) -> bool {
    forall|i: int, k: int|
        0 <= i < g.len() && 1 <= k < g[i].edges.len() ==> module_of(
            g,
            g[i].edges[k - 1].name,
        ).order <= module_of(g, #[trigger] g[i].edges[k].name).order
}

/// Along a chain of a registry whose dependencies are declared after their
/// dependants, the declaration order strictly increases.
proof fn lemma_chain_orders(g: Seq<ModuleView>, p: Seq<Seq<char>>)
    requires
        sorted_by_name(g),
        closed(g),
        deps_declared_after(g),
        is_chain(g, p),
        p.len() >= 2,
    ensures
        module_of(g, p[0]).order < module_of(g, p.last()).order,
    decreases p.len(),
{
    let last = p.len() - 1;
    let a = p[last - 1];
    let b = p[last];
    assert(edge_to(g, a, b));
    let i = index_of(g, a);
    assert(has_name(g, a));
    assert(0 <= i < g.len() && g[i].name == a);
    let k = choose|k: int|
        0 <= k < module_of(g, a).edges.len() && module_of(g, a).edges[k].name == b;
    assert(module_of(g, g[i].edges[k].name).order > g[i].order);
    assert(module_of(g, b).order > module_of(g, a).order);
    if p.len() > 2 {
        let q = p.drop_last();
        assert forall|i2: int| 0 <= i2 < q.len() implies has_name(g, #[trigger] q[i2]) by {
            assert(q[i2] == p[i2]);
        }
        assert forall|i2: int| 0 <= i2 < q.len() - 1 implies edge_to(
            g,
            #[trigger] q[i2],
            q[i2 + 1],
        ) by {
            assert(q[i2] == p[i2]);
            assert(q[i2 + 1] == p[i2 + 1]);
            assert(edge_to(g, p[i2], p[i2 + 1]));
        }
        lemma_chain_orders(g, q);
        assert(q[0] == p[0]);
        assert(q.last() == a);
    }
}

/// A registry whose dependencies are declared after their dependants has
/// no cycle.
pub proof fn lemma_ordered_acyclic(g: Seq<ModuleView>)
    requires
        sorted_by_name(g),
        closed(g),
        deps_declared_after(g),
    ensures
        !spec_has_cycle(g),
{
    if spec_has_cycle(g) {
        let n = choose|n: Seq<char>| in_cycle(g, n);
        let c = choose|c: Seq<Seq<char>>|
            is_chain(g, c) && c.len() >= 2 && c[0] == n && c.last() == n;
        lemma_chain_orders(g, c);
    }
}

proof fn lemma_order_run_clean(g: Seq<ModuleView>, m: ModuleView, k: int)
    requires
        sorted_by_name(g),
        closed(g),
        deps_declared_after(g),
        dep_lists_ordered(g),
        forall|i: int| 0 <= i < g.len() ==> g[i].order >= 0,
        exists|i: int| 0 <= i < g.len() && g[i] == m,
        0 <= k <= m.edges.len(),
    ensures
        ({
            let st = order_run(g, m, m.edges.subrange(0, k), order_init());
            &&& st.diags =~= Seq::<DiagView>::empty()
            &&& st.current == if k == 0 {
                0
            } else {
                module_of(g, m.edges[k - 1].name).order
            }
            &&& st.current >= 0
        }),
    decreases k,
{
    let i = choose|i: int| 0 <= i < g.len() && g[i] == m;
    if k == 0 {
        assert(m.edges.subrange(0, 0) =~= Seq::<EdgeView>::empty());
    } else {
        lemma_order_run_clean(g, m, k - 1);
        let pre = m.edges.subrange(0, k - 1);
        let cur = m.edges.subrange(0, k);
        assert(cur.drop_last() =~= pre);
        assert(cur.last() == m.edges[k - 1]);
        let st = order_run(g, m, pre, order_init());
        let e = m.edges[k - 1];
        assert(has_name(g, g[i].edges[k - 1].name));
        assert(has_name(g, e.name));
        let d = module_of(g, e.name);
        assert(module_of(g, g[i].edges[k - 1].name).order > g[i].order);
        assert(d.order > m.order);
        assert(m.order >= 0);
        assert(d.order >= 0);
        if k - 1 == 0 {
            assert(st.current == 0);
            assert(!(d.order < st.current));
        } else {
            assert(st.current == module_of(g, m.edges[k - 2].name).order);
            assert(module_of(g, g[i].edges[k - 2].name).order <= module_of(
                g,
                g[i].edges[k - 1].name,
            ).order);
            assert(!(d.order < st.current));
        }
        assert(order_run(g, m, cur, order_init()) == order_step(g, m, st, e));
    }
}

proof fn lemma_order_diags_empty_upto(g: Seq<ModuleView>, n: int)
    requires
        sorted_by_name(g),
        closed(g),
        deps_declared_after(g),
        dep_lists_ordered(g),
        forall|i: int| 0 <= i < g.len() ==> g[i].order >= 0,
        0 <= n <= g.len(),
    ensures
        order_diags_upto(g, n) =~= Seq::<DiagView>::empty(),
    decreases n,
{
    if n > 0 {
        lemma_order_diags_empty_upto(g, n - 1);
        let m = g[n - 1];
        lemma_order_run_clean(g, m, m.edges.len() as int);
        assert(m.edges.subrange(0, m.edges.len() as int) =~= m.edges);
        assert(module_order_diags(g, m) =~= Seq::<DiagView>::empty());
    }
}

/// A well-formed layering draws no diagnostic at all: when every edge
/// resolves, every dependency is declared after the module that depends on
/// it, and every dependency list is written in declaration order, the
/// existence validator removes nothing, no cycle exists, and the order
/// validator is silent.
pub proof fn lemma_clean_graph_no_diagnostics(g: Seq<ModuleView>)
    requires
        sorted_by_name(g),
        closed(g),
        deps_declared_after(g),
        dep_lists_ordered(g),
        forall|i: int| 0 <= i < g.len() ==> g[i].order >= 0,
    ensures
        prune(g) == g,
        missing_diags(g) == Seq::<DiagView>::empty(),
        !spec_has_cycle(g),
        order_diags(g) == Seq::<DiagView>::empty(),
        check_diags_ok(g, Seq::<DiagView>::empty()),
{
    lemma_prune_noop(g);
    lemma_ordered_acyclic(g);
    lemma_order_diags_empty_upto(g, g.len() as int);
}

/// A module that depends on itself is a one-module cycle, and it survives
/// the pruning: the checks then skip order validation and report exactly
/// one cycle diagnostic.
pub proof fn lemma_self_edge_cycle(g: Seq<ModuleView>, i: int, k: int)
    requires
        sorted_by_name(g),
        0 <= i < g.len(),
        0 <= k < g[i].edges.len(),
        g[i].edges[k].name == g[i].name,
    ensures
        spec_has_cycle(g),
        spec_has_cycle(prune(g)),
{
    let n = g[i].name;
    lemma_index_of(g, i);
    assert(has_name(g, n));
    let p = seq![n, n];
    assert(p[0] == n && p[1] == n && p.last() == n && p.len() == 2);
    assert(module_of(g, n) == g[i]);
    assert(edge_to(g, n, n));
    assert forall|i2: int| 0 <= i2 < p.len() implies has_name(g, #[trigger] p[i2]) by {}
    assert forall|i2: int| 0 <= i2 < p.len() - 1 implies edge_to(
        g,
        #[trigger] p[i2],
        p[i2 + 1],
    ) by {}
    assert(is_chain(g, p));
    assert(in_cycle(g, n));

    // the self-edge resolves, so the pruning keeps it
    let pg = prune(g);
    crate::existence::lemma_prune_names(g);
    crate::existence::lemma_prune_closed(g);
    assert(pg[i].name == n);
    assert(pg[i].edges == kept_edges(g, g[i].edges));
    lemma_kept_contains(g, g[i].edges, k);
    let k2 = choose|k2: int|
        0 <= k2 < kept_edges(g, g[i].edges).len() && kept_edges(g, g[i].edges)[k2]
            == g[i].edges[k];
    lemma_index_of(pg, i);
    assert(module_of(pg, n) == pg[i]);
    assert(has_name(pg, n));
    assert(edge_to(pg, n, n));
    assert forall|i2: int| 0 <= i2 < p.len() implies has_name(pg, #[trigger] p[i2]) by {}
    assert forall|i2: int| 0 <= i2 < p.len() - 1 implies edge_to(
        pg,
        #[trigger] p[i2],
        p[i2 + 1],
    ) by {}
    assert(is_chain(pg, p));
    assert(in_cycle(pg, n));
}

/// A resolvable edge survives the pruning of its list.
proof fn lemma_kept_contains(g: Seq<ModuleView>, edges: Seq<EdgeView>, k: int)
    requires
        0 <= k < edges.len(),
        has_name(g, edges[k].name),
    ensures
        exists|k2: int|
            0 <= k2 < kept_edges(g, edges).len() && #[trigger] kept_edges(g, edges)[k2]
                == edges[k],
    decreases edges.len(),
{
    if k == edges.len() - 1 {
        let r = kept_edges(g, edges);
        assert(r[r.len() - 1] == edges[k]);
    } else {
        assert(edges.drop_last()[k] == edges[k]);
        lemma_kept_contains(g, edges.drop_last(), k);
        let k2 = choose|k2: int|
            0 <= k2 < kept_edges(g, edges.drop_last()).len() && #[trigger] kept_edges(
                g,
                edges.drop_last(),
            )[k2] == edges.drop_last()[k];
        if has_name(g, edges.last().name) {
            assert(kept_edges(g, edges)[k2] == edges[k]);
        } else {
            assert(kept_edges(g, edges)[k2] == edges[k]);
        }
    }
}

/// One registry admits one diagnostics list: together with the ensures of
/// `layered_crate_expand`, whose other outputs are equalities, the whole
/// transformation is a function of its input, stable across calls and
/// runs.
pub proof fn lemma_check_diags_deterministic(
    g0: Seq<ModuleView>,
    ds1: Seq<DiagView>,
    ds2: Seq<DiagView>,
)
    requires
        check_diags_ok(g0, ds1),
        check_diags_ok(g0, ds2),
    ensures
        ds1 == ds2,
{
    if crate::paths::spec_has_cycle(prune(g0)) {
        crate::cycle::lemma_canonical_report_unique(prune(g0), ds1.last(), ds2.last());
        assert forall|t: int| 0 <= t < ds1.len() implies ds1[t] == ds2[t] by {
            if t < ds1.len() - 1 {
                assert(ds1[t] == ds1.subrange(0, ds1.len() - 1)[t]);
                assert(ds2[t] == ds2.subrange(0, ds2.len() - 1)[t]);
            }
        }
        assert(ds1 =~= ds2);
    }
}

/// Pass-through content is left byte-for-byte unchanged by the
/// transformation: an opaque entry reappears verbatim at its position
/// among the source items.
pub proof fn lemma_passthrough_identity(entries: Seq<EntryView>, i: int)
    requires
        0 <= i < entries.len(),
    ensures
        entries[i] matches EntryView::Opaque(s) ==> src_items_of(entries)[i]
            == SrcItemView::Opaque(s),
{
    assert(src_items_of(entries)[i] == src_item_of(entries[i]));
}

} // verus!

