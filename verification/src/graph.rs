//! The module registry: an ordered collection of module declarations keyed
//! by name, each carrying its declared dependency edges.
//!
//! The registry stores its modules sorted by name, mirroring an ordered
//! name-keyed map, so every traversal over it is deterministic.  Each module
//! also records the position at which it was registered (`order`), which
//! defines the top-down position used by the order validator.

use vstd::prelude::*;
use crate::names::{lex_lt, str_eq, str_lt, lemma_lex_lt_asymmetric, lemma_lex_lt_connected,
    lemma_lex_lt_transitive};

verus! {

/// Spec-level image of a [`DepEdge`].
pub struct EdgeView {
    pub name: Seq<char>,
    pub attr_origin: int,
    pub ident_origin: int,
}

/// A dependency edge: a reference from the owning module to another module
/// by name.  The two origin handles identify the whole annotation and the
/// bare name inside it, for diagnostics of different precision.
pub struct DepEdge {
    pub name: String,
    pub attr_origin: usize,
    pub ident_origin: usize,
}

impl View for DepEdge {
    type V = EdgeView;

    open spec fn view(&self) -> EdgeView {
        EdgeView {
            name: self.name@,
            attr_origin: self.attr_origin as int,
            ident_origin: self.ident_origin as int,
        }
    }
}

/// Spec-level image of a [`ModuleDecl`].
pub struct ModuleView {
    pub name: Seq<char>,
    pub order: int,
    pub is_pub: bool,
    pub doc: Seq<char>,
    pub origin: int,
    pub edges: Seq<EdgeView>,
}

/// One module declaration: a named unit with a visibility flag, opaque
/// documentation carried through unchanged, and its dependency edges in
/// authoring order.
pub struct ModuleDecl {
    pub name: String,
    pub order: usize,
    pub is_pub: bool,
    pub doc: String,
    pub origin: usize,
    pub edges: Vec<DepEdge>,
}

impl View for ModuleDecl {
    type V = ModuleView;

    open spec fn view(&self) -> ModuleView {
        ModuleView {
            name: self.name@,
            order: self.order as int,
            is_pub: self.is_pub,
            doc: self.doc@,
            origin: self.origin as int,
            edges: self.edges@.map_values(|e: DepEdge| e@),
        }
    }
}

/// Spec-level image of a [`DepsGraph`].
pub struct GraphView {
    pub modules: Seq<ModuleView>,
    pub has_circular_deps: bool,
}

/// The dependency graph: the registry viewed as a whole, plus a derived
/// flag recording whether a cycle was found, consulted by the projector.
pub struct DepsGraph {
    pub modules: Vec<ModuleDecl>,
    pub has_circular_deps: bool,
}

impl View for DepsGraph {
    type V = GraphView;

    open spec fn view(&self) -> GraphView {
        GraphView {
            modules: self.modules@.map_values(|m: ModuleDecl| m@),
            has_circular_deps: self.has_circular_deps,
        }
    }
}

/// The views of a sequence of edges.
pub open spec fn edge_views(s: Seq<DepEdge>) -> Seq<EdgeView> {
    s.map_values(|e: DepEdge| e@)
}

/// The views of a sequence of module declarations.
pub open spec fn module_views(s: Seq<ModuleDecl>) -> Seq<ModuleView> {
    s.map_values(|m: ModuleDecl| m@)
}

pub proof fn lemma_edge_views_push(s: Seq<DepEdge>, e: DepEdge)
    ensures
        edge_views(s.push(e)) =~= edge_views(s).push(e@),
{
    assert forall|k: int| 0 <= k < s.len() + 1 implies edge_views(s.push(e))[k] == edge_views(
        s,
    ).push(e@)[k] by {
        if k < s.len() {
            assert(s.push(e)[k] == s[k]);
        }
    }
}

/// The views of a sequence of names.
pub open spec fn name_views(s: Seq<String>) -> Seq<Seq<char>> {
    s.map_values(|x: String| x@)
}

pub proof fn lemma_name_views_push(s: Seq<String>, x: String)
    ensures
        name_views(s.push(x)) =~= name_views(s).push(x@),
{
    assert forall|k: int| 0 <= k < s.len() + 1 implies name_views(s.push(x))[k] == name_views(
        s,
    ).push(x@)[k] by {
        if k < s.len() {
            assert(s.push(x)[k] == s[k]);
        }
    }
}

pub proof fn lemma_name_views_drop_last(s: Seq<String>)
    requires
        s.len() > 0,
    ensures
        name_views(s.drop_last()) =~= name_views(s).drop_last(),
{
    assert forall|k: int| 0 <= k < s.len() - 1 implies name_views(s.drop_last())[k] == name_views(
        s,
    ).drop_last()[k] by {
        assert(s.drop_last()[k] == s[k]);
    }
}

/// The registry invariant: modules strictly sorted by name, so names are
/// unique and iteration order is the name order.
pub open spec fn sorted_by_name(g: Seq<ModuleView>) -> bool {
    forall|i: int, j: int| 0 <= i < j < g.len() ==> lex_lt(g[i].name, g[j].name)
}

/// Whether some module in the registry is named `n`.
pub open spec fn has_name(g: Seq<ModuleView>, n: Seq<char>) -> bool {
    exists|i: int| 0 <= i < g.len() && g[i].name == n
}

/// The index of the module named `n`.
pub open spec fn index_of(g: Seq<ModuleView>, n: Seq<char>) -> int {
    choose|i: int| 0 <= i < g.len() && g[i].name == n
}

/// The module named `n`.
pub open spec fn module_of(g: Seq<ModuleView>, n: Seq<char>) -> ModuleView {
    g[index_of(g, n)]
}

/// Every edge of every module resolves to a registered module: the state
/// the existence validator establishes by pruning.
pub open spec fn closed(g: Seq<ModuleView>) -> bool {
    forall|i: int, k: int|
        0 <= i < g.len() && 0 <= k < g[i].edges.len() ==> has_name(
            g,
            #[trigger] g[i].edges[k].name,
        )
}

pub proof fn lemma_sorted_distinct(g: Seq<ModuleView>)
    requires
        sorted_by_name(g),
    ensures
        forall|i: int, j: int|
            0 <= i < g.len() && 0 <= j < g.len() && i != j ==> g[i].name != g[j].name,
{
    assert forall|i: int, j: int|
        0 <= i < g.len() && 0 <= j < g.len() && i != j implies g[i].name != g[j].name by {
        if i < j {
            lemma_lex_lt_asymmetric(g[i].name, g[j].name);
        } else {
            lemma_lex_lt_asymmetric(g[j].name, g[i].name);
        }
    }
}

/// In a sorted registry, a name determines its index.
pub proof fn lemma_index_of(g: Seq<ModuleView>, i: int)
    requires
        sorted_by_name(g),
        0 <= i < g.len(),
    ensures
        index_of(g, g[i].name) == i,
        module_of(g, g[i].name) == g[i],
{
    lemma_sorted_distinct(g);
    assert(has_name(g, g[i].name));
}

/// Insertion into the sorted registry, keyed by name.
pub open spec fn sorted_insert(g: Seq<ModuleView>, m: ModuleView) -> Seq<ModuleView>
    decreases g.len(),
{
    if g.len() == 0 {
        seq![m]
    } else if lex_lt(m.name, g[0].name) {
        seq![m] + g
    } else {
        seq![g[0]] + sorted_insert(g.drop_first(), m)
    }
}

/// When `idx` is the bracketing position of `m.name` in a sorted registry,
/// `sorted_insert` is insertion at `idx`.
pub proof fn lemma_sorted_insert_at(g: Seq<ModuleView>, m: ModuleView, idx: int)
    requires
        sorted_by_name(g),
        0 <= idx <= g.len(),
        forall|i: int| 0 <= i < idx ==> lex_lt(g[i].name, m.name),
        forall|i: int| idx <= i < g.len() ==> lex_lt(m.name, g[i].name),
    ensures
        sorted_insert(g, m) =~= g.insert(idx, m),
    decreases g.len(),
{
    if g.len() == 0 {
        assert(sorted_insert(g, m) =~= g.insert(0, m));
    } else if idx == 0 {
        assert(lex_lt(m.name, g[0].name));
        assert(seq![m] + g =~= g.insert(0, m));
    } else {
        assert(lex_lt(g[0].name, m.name));
        lemma_lex_lt_asymmetric(g[0].name, m.name);
        let tail = g.drop_first();
        assert forall|i: int| 0 <= i < idx - 1 implies lex_lt(tail[i].name, m.name) by {
            assert(tail[i] == g[i + 1]);
        }
        assert forall|i: int| idx - 1 <= i < tail.len() implies lex_lt(m.name, tail[i].name) by {
            assert(tail[i] == g[i + 1]);
        }
        lemma_sorted_insert_at(tail, m, idx - 1);
        assert(seq![g[0]] + tail.insert(idx - 1, m) =~= g.insert(idx, m));
    }
}

/// Sorted insertion of a fresh name keeps the registry sorted and adds
/// exactly that name.
pub proof fn lemma_sorted_insert_names(g: Seq<ModuleView>, m: ModuleView)
    requires
        sorted_by_name(g),
        !has_name(g, m.name),
    ensures
        sorted_by_name(sorted_insert(g, m)),
        sorted_insert(g, m).len() == g.len() + 1,
        forall|n: Seq<char>| has_name(sorted_insert(g, m), n) == (has_name(g, n) || n == m.name),
    decreases g.len(),
{
    let r = sorted_insert(g, m);
    if g.len() == 0 {
        assert forall|n: Seq<char>| has_name(r, n) == (has_name(g, n) || n == m.name) by {
            assert(r[0] == m);
            if has_name(r, n) {
                let i = choose|i: int| 0 <= i < r.len() && r[i].name == n;
            }
        }
    } else if lex_lt(m.name, g[0].name) {
        assert(r == seq![m] + g);
        assert forall|i: int, j: int| 0 <= i < j < r.len() implies lex_lt(
            r[i].name,
            r[j].name,
        ) by {
            if i == 0 {
                assert(r[j] == g[j - 1]);
                if j > 1 {
                    lemma_lex_lt_transitive(m.name, g[0].name, g[j - 1].name);
                }
            } else {
                assert(r[i] == g[i - 1]);
                assert(r[j] == g[j - 1]);
            }
        }
        assert forall|n: Seq<char>| has_name(r, n) == (has_name(g, n) || n == m.name) by {
            if has_name(r, n) {
                let i = choose|i: int| 0 <= i < r.len() && r[i].name == n;
                if i > 0 {
                    assert(g[i - 1].name == n);
                }
            }
            if has_name(g, n) {
                let i = choose|i: int| 0 <= i < g.len() && g[i].name == n;
                assert(r[i + 1].name == n);
            }
            if n == m.name {
                assert(r[0].name == n);
            }
        }
    } else {
        assert(g[0].name != m.name);
        lemma_lex_lt_connected(m.name, g[0].name);
        assert(lex_lt(g[0].name, m.name));
        let tail = g.drop_first();
        assert forall|i: int, j: int| 0 <= i < j < tail.len() implies lex_lt(
            tail[i].name,
            tail[j].name,
        ) by {
            assert(tail[i] == g[i + 1]);
            assert(tail[j] == g[j + 1]);
        }
        assert(!has_name(tail, m.name)) by {
            if has_name(tail, m.name) {
                let i = choose|i: int| 0 <= i < tail.len() && tail[i].name == m.name;
                assert(g[i + 1].name == m.name);
            }
        }
        lemma_sorted_insert_names(tail, m);
        let rec = sorted_insert(tail, m);
        assert(r == seq![g[0]] + rec);
        assert forall|i: int, j: int| 0 <= i < j < r.len() implies lex_lt(
            r[i].name,
            r[j].name,
        ) by {
            if i == 0 {
                assert(r[j] == rec[j - 1]);
                assert(has_name(rec, rec[j - 1].name));
                if rec[j - 1].name == m.name {
                } else {
                    assert(has_name(tail, rec[j - 1].name));
                    let t = choose|t: int| 0 <= t < tail.len() && tail[t].name == rec[j - 1].name;
                    assert(tail[t] == g[t + 1]);
                }
            } else {
                assert(r[i] == rec[i - 1]);
                assert(r[j] == rec[j - 1]);
            }
        }
        assert forall|n: Seq<char>| has_name(r, n) == (has_name(g, n) || n == m.name) by {
            if has_name(r, n) {
                let i = choose|i: int| 0 <= i < r.len() && r[i].name == n;
                if i == 0 {
                    assert(g[0].name == n);
                } else {
                    assert(rec[i - 1].name == n);
                    assert(has_name(rec, n));
                    if has_name(tail, n) {
                        let t = choose|t: int| 0 <= t < tail.len() && tail[t].name == n;
                        assert(g[t + 1].name == n);
                    }
                }
            }
            if has_name(g, n) {
                let i = choose|i: int| 0 <= i < g.len() && g[i].name == n;
                if i == 0 {
                    assert(r[0].name == n);
                } else {
                    assert(tail[i - 1].name == n);
                    assert(has_name(tail, n));
                    assert(has_name(rec, n));
                    let t = choose|t: int| 0 <= t < rec.len() && rec[t].name == n;
                    assert(r[t + 1].name == n);
                }
            }
            if n == m.name {
                assert(has_name(rec, n));
                let t = choose|t: int| 0 <= t < rec.len() && rec[t].name == n;
                assert(r[t + 1].name == n);
            }
        }
    }
}

/// Inserting at the bracketing position keeps the registry sorted.
pub proof fn lemma_insert_sorted(g: Seq<ModuleView>, m: ModuleView, idx: int)
    requires
        sorted_by_name(g),
        0 <= idx <= g.len(),
        forall|i: int| 0 <= i < idx ==> lex_lt(g[i].name, m.name),
        forall|i: int| idx <= i < g.len() ==> lex_lt(m.name, g[i].name),
    ensures
        sorted_by_name(g.insert(idx, m)),
{
    let r = g.insert(idx, m);
    assert forall|i: int, j: int| 0 <= i < j < r.len() implies lex_lt(r[i].name, r[j].name) by {
        if i < idx && j == idx {
        } else if i == idx && j > idx {
        } else if i < idx && j > idx {
            assert(r[i] == g[i]);
            assert(r[j] == g[j - 1]);
            lemma_lex_lt_transitive(g[i].name, m.name, g[j - 1].name);
        } else if j < idx {
            assert(r[i] == g[i]);
            assert(r[j] == g[j]);
        } else {
            assert(r[i] == g[i - 1]);
            assert(r[j] == g[j - 1]);
        }
    }
}

impl DepsGraph {
    /// Linear lookup of a module by name.
    pub fn find_module(&self, name: &str) -> (r: Option<usize>)
        ensures
            match r {
                Some(i) => i < self@.modules.len() && self@.modules[i as int].name == name@,
                None => !has_name(self@.modules, name@),
            },
    {
        let ghost g = self@.modules;
        let mut i: usize = 0;
        while i < self.modules.len()
            invariant
                g == self@.modules,
                i <= self.modules.len(),
                self@.modules.len() == self.modules.len(),
                forall|j: int| 0 <= j < i ==> g[j].name != name@,
            decreases self.modules.len() - i,
        {
            proof {
                assert(g[i as int] == self.modules@[i as int]@);
            }
            if str_eq(self.modules[i].name.as_str(), name) {
                return Some(i);
            }
            i = i + 1;
        }
        None
    }

    /// An empty registry.
    pub fn new() -> (r: Self)
        ensures
            r@.modules =~= Seq::<ModuleView>::empty(),
            !r@.has_circular_deps,
    {
        let r = DepsGraph { modules: Vec::new(), has_circular_deps: false };
        proof {
            assert(r@.modules =~= Seq::<ModuleView>::empty());
        }
        r
    }

    /// Registers one module declaration and returns its position: the
    /// number of modules registered before it, which becomes its
    /// `declaration_order`.  A name already present is a construction error
    /// of the caller: the registry is left unchanged and `None` is
    /// returned, so a duplicate can neither panic nor corrupt the registry.
    pub fn add(
        &mut self,
        is_pub: bool,
        name: String,
        doc: String,
        origin: usize,
        edges: Vec<DepEdge>,
    ) -> (r: Option<usize>)
        requires
            sorted_by_name(old(self)@.modules),
        ensures
            (r is Some) == !has_name(old(self)@.modules, name@),
            r is Some ==> r == Some(old(self)@.modules.len() as usize),
            r is None ==> final(self)@ == old(self)@,
            r is Some ==> final(self)@.modules == sorted_insert(
                old(self)@.modules,
                ModuleView {
                    name: name@,
                    order: old(self)@.modules.len() as int,
                    is_pub: is_pub,
                    doc: doc@,
                    origin: origin as int,
                    edges: edges@.map_values(|e: DepEdge| e@),
                },
            ),
            final(self)@.has_circular_deps == old(self)@.has_circular_deps,
            sorted_by_name(final(self)@.modules),
    {
        let ghost g = self@.modules;
        let ghost mv = ModuleView {
            name: name@,
            order: g.len() as int,
            is_pub: is_pub,
            doc: doc@,
            origin: origin as int,
            edges: edges@.map_values(|e: DepEdge| e@),
        };
        let order = self.modules.len();
        let mut idx: usize = 0;
        loop
            invariant
                self@ == old(self)@,
                g == self@.modules,
                idx <= self.modules.len(),
                order == self.modules.len(),
                sorted_by_name(g),
                forall|i: int| 0 <= i < idx ==> lex_lt(g[i].name, name@),
            ensures
                self@ == old(self)@,
                g == self@.modules,
                idx <= self.modules.len(),
                order == self.modules.len(),
                forall|i: int| 0 <= i < idx ==> lex_lt(g[i].name, name@),
                forall|i: int| idx <= i < g.len() ==> lex_lt(name@, g[i].name),
            decreases self.modules.len() - idx,
        {
            if idx == self.modules.len() {
                break;
            }
            let entry_name = &self.modules[idx].name;
            if str_eq(name.as_str(), entry_name.as_str()) {
                proof {
                    assert(g[idx as int].name == name@);
                    assert(has_name(g, name@));
                }
                return None;
            }
            if str_lt(name.as_str(), entry_name.as_str()) {
                proof {
                    assert forall|i: int| idx <= i < g.len() implies lex_lt(
                        name@,
                        g[i].name,
                    ) by {
                        if i > idx {
                            lemma_lex_lt_transitive(name@, g[idx as int].name, g[i].name);
                        }
                    }
                }
                break;
            }
            proof {
                lemma_lex_lt_connected(name@, g[idx as int].name);
            }
            idx = idx + 1;
        }
        proof {
            assert forall|i: int| 0 <= i < g.len() implies g[i].name != name@ by {
                if i < idx {
                    lemma_lex_lt_asymmetric(g[i].name, name@);
                } else {
                    lemma_lex_lt_asymmetric(name@, g[i].name);
                }
            }
            assert(!has_name(g, name@));
            lemma_sorted_insert_at(g, mv, idx as int);
            lemma_insert_sorted(g, mv, idx as int);
        }
        let decl = ModuleDecl { name, order, is_pub, doc, origin, edges };
        proof {
            assert(decl@ == mv);
        }
        self.modules.insert(idx, decl);
        proof {
            assert(self@.modules =~= g.insert(idx as int, mv));
        }
        Some(order)
    }
}

} // verus!
