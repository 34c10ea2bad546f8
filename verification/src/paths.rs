//! Dependency paths, cycles, and the safety argument of the cycle detector.
//!
//! A chain is a non-empty sequence of registered names connected by edges;
//! a cycle is a chain of length at least two that returns to its first
//! name.  A name is *safe* when no cycle is reachable from it: the cycle
//! detector marks a name checked only once it is safe, which is why a fully
//! checked registry is acyclic.

use vstd::prelude::*;
use vstd::set_lib::lemma_len_subset;
use crate::graph::{ModuleView, has_name, lemma_sorted_distinct, module_of, sorted_by_name};

verus! {

/// Whether the module named `a` declares a dependency edge to `b`.
pub open spec fn edge_to(g: Seq<ModuleView>, a: Seq<char>, b: Seq<char>) -> bool {
    has_name(g, a) && exists|k: int|
        0 <= k < module_of(g, a).edges.len() && module_of(g, a).edges[k].name == b
}

/// A non-empty sequence of registered names connected by dependency edges.
pub open spec fn is_chain(g: Seq<ModuleView>, p: Seq<Seq<char>>) -> bool {
    &&& p.len() >= 1
    &&& forall|i: int| 0 <= i < p.len() ==> has_name(g, #[trigger] p[i])
    &&& forall|i: int| 0 <= i < p.len() - 1 ==> edge_to(g, #[trigger] p[i], p[i + 1])
}

/// Whether the name `n` lies on a dependency cycle.
pub open spec fn in_cycle(g: Seq<ModuleView>, n: Seq<char>) -> bool {
    exists|p: Seq<Seq<char>>| is_chain(g, p) && p.len() >= 2 && p[0] == n && p.last() == n
}

/// Whether any dependency cycle exists in the registry.
pub open spec fn spec_has_cycle(g: Seq<ModuleView>) -> bool {
    exists|n: Seq<char>| in_cycle(g, n)
}

/// Whether `b` is reachable from `a` along dependency edges.
pub open spec fn reaches(g: Seq<ModuleView>, a: Seq<char>, b: Seq<char>) -> bool {
    exists|p: Seq<Seq<char>>| is_chain(g, p) && p[0] == a && p.last() == b
}

/// No cycle is reachable from `n`.
pub open spec fn safe(g: Seq<ModuleView>, n: Seq<char>) -> bool {
    forall|m: Seq<char>| reaches(g, n, m) ==> !in_cycle(g, m)
}

/// The tail of a chain of length at least two is a chain.
pub proof fn lemma_chain_drop_first(g: Seq<ModuleView>, p: Seq<Seq<char>>)
    requires
        is_chain(g, p),
        p.len() >= 2,
    ensures
        is_chain(g, p.drop_first()),
        p.drop_first()[0] == p[1],
        p.drop_first().last() == p.last(),
{
    let q = p.drop_first();
    assert forall|i: int| 0 <= i < q.len() implies has_name(g, #[trigger] q[i]) by {
        assert(q[i] == p[i + 1]);
    }
    assert forall|i: int| 0 <= i < q.len() - 1 implies edge_to(g, #[trigger] q[i], q[i + 1]) by {
        assert(q[i] == p[i + 1]);
        assert(q[i + 1] == p[i + 2]);
        assert(edge_to(g, p[i + 1], p[i + 2]));
    }
}

/// A non-empty contiguous part of a chain is a chain.
pub proof fn lemma_chain_subrange(g: Seq<ModuleView>, p: Seq<Seq<char>>, a: int, b: int)
    requires
        is_chain(g, p),
        0 <= a < b <= p.len(),
    ensures
        is_chain(g, p.subrange(a, b)),
        p.subrange(a, b)[0] == p[a],
        p.subrange(a, b).last() == p[b - 1],
{
    let q = p.subrange(a, b);
    assert forall|i: int| 0 <= i < q.len() implies has_name(g, #[trigger] q[i]) by {
        assert(q[i] == p[a + i]);
    }
    assert forall|i: int| 0 <= i < q.len() - 1 implies edge_to(g, #[trigger] q[i], q[i + 1]) by {
        assert(q[i] == p[a + i]);
        assert(q[i + 1] == p[a + i + 1]);
        assert(edge_to(g, p[a + i], p[a + i + 1]));
    }
}

/// A chain extends by one dependency edge of its last name.
pub proof fn lemma_chain_push(g: Seq<ModuleView>, p: Seq<Seq<char>>, b: Seq<char>)
    requires
        is_chain(g, p),
        edge_to(g, p.last(), b),
        has_name(g, b),
    ensures
        is_chain(g, p.push(b)),
        p.push(b).last() == b,
{
    let q = p.push(b);
    assert forall|i: int| 0 <= i < q.len() implies has_name(g, #[trigger] q[i]) by {
        if i < p.len() {
            assert(q[i] == p[i]);
        }
    }
    assert forall|i: int| 0 <= i < q.len() - 1 implies edge_to(g, #[trigger] q[i], q[i + 1]) by {
        if i < p.len() - 1 {
            assert(q[i] == p[i]);
            assert(q[i + 1] == p[i + 1]);
            assert(edge_to(g, p[i], p[i + 1]));
        } else {
            assert(q[i] == p.last());
            assert(q[i + 1] == b);
        }
    }
}

/// A chain whose last name recurs earlier witnesses a cycle.
pub proof fn lemma_cycle_extract(g: Seq<ModuleView>, p: Seq<Seq<char>>, j: int)
    requires
        is_chain(g, p),
        0 <= j < p.len() - 1,
        p[j] == p.last(),
    ensures
        in_cycle(g, p[j]),
        spec_has_cycle(g),
{
    lemma_chain_subrange(g, p, j, p.len() as int);
    let c = p.subrange(j, p.len() as int);
    assert(c.len() >= 2);
    assert(c[0] == p[j] && c.last() == p[j]);
    assert(in_cycle(g, p[j]));
}

/// A name on a cycle is not safe.
pub proof fn lemma_in_cycle_not_safe(g: Seq<ModuleView>, n: Seq<char>)
    requires
        in_cycle(g, n),
    ensures
        !safe(g, n),
{
    let c = choose|c: Seq<Seq<char>>|
        is_chain(g, c) && c.len() >= 2 && c[0] == n && c.last() == n;
    assert(has_name(g, c[0]));
    let single = seq![n];
    assert(single[0] == n && single.last() == n);
    assert(is_chain(g, single));
    assert(reaches(g, n, n));
}

/// A registered name all of whose direct dependencies are safe is safe.
pub proof fn lemma_successors_safe(g: Seq<ModuleView>, n: Seq<char>)
    requires
        has_name(g, n),
        forall|k: int|
            0 <= k < module_of(g, n).edges.len() ==> safe(
                g,
                #[trigger] module_of(g, n).edges[k].name,
            ),
    ensures
        safe(g, n),
{
    assert forall|m: Seq<char>| reaches(g, n, m) implies !in_cycle(g, m) by {
        if in_cycle(g, m) {
            let p = choose|p: Seq<Seq<char>>| is_chain(g, p) && p[0] == n && p.last() == m;
            if p.len() == 1 {
                // the trivial path: the cycle runs through `n` itself, so the
                // cycle's own successor of `n` reaches `n` and its cycle
                let c = choose|c: Seq<Seq<char>>|
                    is_chain(g, c) && c.len() >= 2 && c[0] == m && c.last() == m;
                assert(p[0] == p.last());
                assert(m == n);
                assert(edge_to(g, c[0], c[1]));
                assert(safe(g, c[1]));
                lemma_chain_drop_first(g, c);
                assert(reaches(g, c[1], n));
                assert(!in_cycle(g, n));
                assert(false);
            } else {
                // the path leaves through a direct dependency, which is safe
                assert(edge_to(g, p[0], p[1]));
                assert(safe(g, p[1]));
                lemma_chain_drop_first(g, p);
                assert(reaches(g, p[1], m));
                assert(false);
            }
        }
    }
}

/// When every registered name is safe, the registry is acyclic.
pub proof fn lemma_all_safe_acyclic(g: Seq<ModuleView>)
    requires
        forall|n: Seq<char>| has_name(g, n) ==> safe(g, n),
    ensures
        !spec_has_cycle(g),
{
    if spec_has_cycle(g) {
        let n = choose|n: Seq<char>| in_cycle(g, n);
        let c = choose|c: Seq<Seq<char>>|
            is_chain(g, c) && c.len() >= 2 && c[0] == n && c.last() == n;
        assert(has_name(g, c[0]));
        assert(safe(g, n));
        lemma_in_cycle_not_safe(g, n);
    }
}

/// A duplicate-free list of registered names is no longer than the registry.
pub proof fn lemma_checked_bounded(g: Seq<ModuleView>, cs: Seq<Seq<char>>)
    requires
        sorted_by_name(g),
        cs.no_duplicates(),
        forall|k: int| 0 <= k < cs.len() ==> has_name(g, #[trigger] cs[k]),
    ensures
        cs.len() <= g.len(),
{
    let names = g.map_values(|m: ModuleView| m.name);
    lemma_sorted_distinct(g);
    assert forall|i: int, j: int|
        0 <= i < names.len() && 0 <= j < names.len() && i != j implies names[i] != names[j] by {
        assert(names[i] == g[i].name);
        assert(names[j] == g[j].name);
    }
    assert(names.no_duplicates());
    cs.unique_seq_to_set();
    names.unique_seq_to_set();
    assert forall|x: Seq<char>| cs.to_set().contains(x) implies names.to_set().contains(x) by {
        let k = choose|k: int| 0 <= k < cs.len() && cs[k] == x;
        assert(has_name(g, cs[k]));
        let i = choose|i: int| 0 <= i < g.len() && g[i].name == x;
        assert(names[i] == x);
        assert(names.contains(x));
    }
    assert(cs.to_set().subset_of(names.to_set()));
    lemma_len_subset(cs.to_set(), names.to_set());
}

/// Prefixes compose.
pub proof fn lemma_prefix_trans(a: Seq<Seq<char>>, b: Seq<Seq<char>>, c: Seq<Seq<char>>)
    requires
        a.is_prefix_of(b),
        b.is_prefix_of(c),
    ensures
        a.is_prefix_of(c),
{
    assert forall|i: int| 0 <= i < a.len() implies a[i] == c.subrange(0, a.len() as int)[i] by {
        assert(a[i] == b.subrange(0, a.len() as int)[i]);
        assert(b[i] == c.subrange(0, b.len() as int)[i]);
    }
    assert(a =~= c.subrange(0, a.len() as int));
}

/// What a prefix holds, the whole holds.
pub proof fn lemma_prefix_contains(a: Seq<Seq<char>>, b: Seq<Seq<char>>, x: Seq<char>)
    requires
        a.is_prefix_of(b),
        a.contains(x),
    ensures
        b.contains(x),
{
    let k = choose|k: int| 0 <= k < a.len() && a[k] == x;
    assert(a[k] == b.subrange(0, a.len() as int)[k]);
    assert(b[k] == x);
}

} // verus!
