//! The whole transformation: registry construction, the three analyses in
//! order, and the projection, as one pure function from a scanned entry
//! list to output structure plus diagnostics.
//!
//! Diagnostics never block the projection: the transformed source items and
//! the wrappers are produced for an invalid graph too, so one bad edge does
//! not cascade into a wall of derived failures.

use vstd::prelude::*;
use crate::cycle::is_canonical_cycle_report;
use crate::diagnostics::{
    DiagView, Diagnostic, diag_views, lemma_diag_views_concat, lemma_diag_views_push,
};
use crate::existence::{missing_diags, prune};
use crate::graph::{
    DepEdge, DepsGraph, EdgeView, ModuleView, edge_views, has_name, lemma_sorted_insert_names,
    sorted_by_name, sorted_insert,
};
use crate::order::order_diags;
use crate::paths::spec_has_cycle;
use crate::project::{Wrapper, project_views, wrapper_views};

verus! {

/// Spec-level image of a [`ModuleInput`].
pub struct ModuleInputView {
    pub name: Seq<char>,
    pub is_pub: bool,
    pub doc: Seq<char>,
    pub origin: int,
    pub body: Seq<char>,
    pub edges: Seq<EdgeView>,
}

/// One scanned module declaration: its name, visibility, documentation,
/// origin handle, opaque body text, and dependency annotations in authoring
/// order.
pub struct ModuleInput {
    pub name: String,
    pub is_pub: bool,
    pub doc: String,
    pub origin: usize,
    pub body: String,
    pub edges: Vec<DepEdge>,
}

impl View for ModuleInput {
    type V = ModuleInputView;

    open spec fn view(&self) -> ModuleInputView {
        ModuleInputView {
            name: self.name@,
            is_pub: self.is_pub,
            doc: self.doc@,
            origin: self.origin as int,
            body: self.body@,
            edges: edge_views(self.edges@),
        }
    }
}

/// Spec-level image of an [`Entry`].
pub enum EntryView {
    Opaque(Seq<char>),
    Module(ModuleInputView),
}

/// One entry of the annotated input tree: either an opaque pass-through
/// item, copied unchanged to the output, or a module declaration.
pub enum Entry {
    Opaque(String),
    Module(ModuleInput),
}

impl View for Entry {
    type V = EntryView;

    open spec fn view(&self) -> EntryView {
        match self {
            Entry::Opaque(s) => EntryView::Opaque(s@),
            Entry::Module(m) => EntryView::Module(m@),
        }
    }
}

/// The views of an entry list.
pub open spec fn entry_views(s: Seq<Entry>) -> Seq<EntryView> {
    s.map_values(|e: Entry| e@)
}

/// Spec-level image of a [`SrcItem`].
pub enum SrcItemView {
    Opaque(Seq<char>),
    Module { name: Seq<char>, body: Seq<char> },
}

/// One item of the relocated source module: a pass-through item unchanged,
/// or a module re-declared with its body.
pub enum SrcItem {
    Opaque(String),
    Module { name: String, body: String },
}

impl View for SrcItem {
    type V = SrcItemView;

    open spec fn view(&self) -> SrcItemView {
        match self {
            SrcItem::Opaque(s) => SrcItemView::Opaque(s@),
            SrcItem::Module { name, body } => SrcItemView::Module { name: name@, body: body@ },
        }
    }
}

/// The views of a source item list.
pub open spec fn src_item_views(s: Seq<SrcItem>) -> Seq<SrcItemView> {
    s.map_values(|e: SrcItem| e@)
}

pub proof fn lemma_src_item_views_push(s: Seq<SrcItem>, e: SrcItem)
    ensures
        src_item_views(s.push(e)) =~= src_item_views(s).push(e@),
{
    assert forall|k: int| 0 <= k < s.len() + 1 implies src_item_views(s.push(e))[k]
        == src_item_views(s).push(e@)[k] by {
        if k < s.len() {
            assert(s.push(e)[k] == s[k]);
        }
    }
}

/// The module name an entry declares, if it declares one.
pub open spec fn entry_module_name(e: EntryView) -> Option<Seq<char>> {
    match e {
        EntryView::Opaque(_) => None,
        EntryView::Module(m) => Some(m.name),
    }
}

/// No two entries declare the same module name: the caller has already
/// resolved duplicates, which are a construction-time concern outside this
/// transformation.
pub open spec fn entry_names_unique(entries: Seq<EntryView>) -> bool {
    forall|i: int, j: int|
        0 <= i < j < entries.len() && entry_module_name(#[trigger] entries[i]) is Some
            ==> entry_module_name(entries[i]) != entry_module_name(#[trigger] entries[j])
}

/// Whether some entry declares a module named `n`.
pub open spec fn entry_has_module(entries: Seq<EntryView>, n: Seq<char>) -> bool {
    exists|i: int|
        0 <= i < entries.len() && entry_module_name(#[trigger] entries[i]) == Some(n)
}

/// The registry view a scanned module receives at position `order`.
pub open spec fn module_view_of(m: ModuleInputView, order: int) -> ModuleView {
    ModuleView {
        name: m.name,
        order: order,
        is_pub: m.is_pub,
        doc: m.doc,
        origin: m.origin,
        edges: m.edges,
    }
}

/// The registry built from an entry list: each module registered in entry
/// order, stored sorted by name.
pub open spec fn registry_of(entries: Seq<EntryView>) -> Seq<ModuleView>
    decreases entries.len(),
{
    if entries.len() == 0 {
        Seq::empty()
    } else {
        let prev = registry_of(entries.drop_last());
        match entries.last() {
            EntryView::Opaque(_) => prev,
            EntryView::Module(m) => sorted_insert(prev, module_view_of(m, prev.len() as int)),
        }
    }
}

/// The source item an entry turns into.
pub open spec fn src_item_of(e: EntryView) -> SrcItemView {
    match e {
        EntryView::Opaque(s) => SrcItemView::Opaque(s),
        EntryView::Module(m) => SrcItemView::Module { name: m.name, body: m.body },
    }
}

/// The relocated source items of an entry list, in entry order.  An opaque
/// entry passes through unchanged.
pub open spec fn src_items_of(entries: Seq<EntryView>) -> Seq<SrcItemView> {
    entries.map_values(|e: EntryView| src_item_of(e))
}

/// With unique names, the registry of an entry list is sorted and holds
/// exactly the declared module names.
pub proof fn lemma_registry_of(entries: Seq<EntryView>)
    requires
        entry_names_unique(entries),
    ensures
        sorted_by_name(registry_of(entries)),
        forall|n: Seq<char>| has_name(registry_of(entries), n) == entry_has_module(entries, n),
    decreases entries.len(),
{
    if entries.len() > 0 {
        let prefix = entries.drop_last();
        assert forall|i: int, j: int|
            0 <= i < j < prefix.len() && entry_module_name(#[trigger] prefix[i]) is Some
            implies entry_module_name(prefix[i]) != entry_module_name(
            #[trigger] prefix[j],
        ) by {
            assert(prefix[i] == entries[i]);
            assert(prefix[j] == entries[j]);
        }
        lemma_registry_of(prefix);
        let prev = registry_of(prefix);
        match entries.last() {
            EntryView::Opaque(_) => {
                assert forall|n: Seq<char>| entry_has_module(entries, n) == entry_has_module(
                    prefix,
                    n,
                ) by {
                    if entry_has_module(entries, n) {
                        let i = choose|i: int|
                            0 <= i < entries.len() && entry_module_name(entries[i]) == Some(n);
                        assert(i < prefix.len());
                        assert(prefix[i] == entries[i]);
                        assert(entry_has_module(prefix, n));
                    }
                    if entry_has_module(prefix, n) {
                        let i = choose|i: int|
                            0 <= i < prefix.len() && entry_module_name(prefix[i]) == Some(n);
                        assert(entries[i] == prefix[i]);
                        assert(entry_has_module(entries, n));
                    }
                }
            },
            EntryView::Module(m) => {
                assert(!has_name(prev, m.name)) by {
                    if has_name(prev, m.name) {
                        assert(entry_has_module(prefix, m.name));
                        let i = choose|i: int|
                            0 <= i < prefix.len() && entry_module_name(prefix[i]) == Some(m.name);
                        assert(prefix[i] == entries[i]);
                        assert(entry_module_name(entries[entries.len() - 1]) == Some(m.name));
                    }
                }
                lemma_sorted_insert_names(prev, module_view_of(m, prev.len() as int));
                assert forall|n: Seq<char>| has_name(registry_of(entries), n) == entry_has_module(
                    entries,
                    n,
                ) by {
                    if has_name(registry_of(entries), n) {
                        assert(registry_of(entries) == sorted_insert(
                            prev,
                            module_view_of(m, prev.len() as int),
                        ));
                        assert(has_name(prev, n) || n == m.name);
                        if has_name(prev, n) {
                            assert(entry_has_module(prefix, n));
                            let i = choose|i: int|
                                0 <= i < prefix.len() && entry_module_name(prefix[i]) == Some(n);
                            assert(entries[i] == prefix[i]);
                            assert(entry_has_module(entries, n));
                        } else {
                            assert(n == m.name);
                            assert(entry_module_name(entries[entries.len() - 1]) == Some(n));
                            assert(entry_has_module(entries, n));
                        }
                    }
                    if entry_has_module(entries, n) {
                        let i = choose|i: int|
                            0 <= i < entries.len() && entry_module_name(entries[i]) == Some(n);
                        if i < prefix.len() {
                            assert(prefix[i] == entries[i]);
                            assert(entry_has_module(prefix, n));
                        } else {
                            assert(n == m.name);
                        }
                    }
                }
            },
        }
    }
}

/// What one run of the checks reports: the missing-dependency diagnostics
/// in registry order, then, on an acyclic graph, the order diagnostics, or,
/// on a cyclic one, exactly one cycle diagnostic closing the list — the
/// canonical one, so the whole list is a function of the registry alone.
pub open spec fn check_diags_ok(g0: Seq<ModuleView>, ds: Seq<DiagView>) -> bool {
    let pruned = prune(g0);
    if spec_has_cycle(pruned) {
        &&& ds.len() == missing_diags(g0).len() + 1
        &&& ds.subrange(0, ds.len() - 1) == missing_diags(g0)
        &&& is_canonical_cycle_report(pruned, ds.last())
    } else {
        ds == missing_diags(g0) + order_diags(pruned)
    }
}

impl DepsGraph {
    /// Runs the three analyses in order: existence (which prunes), cycle
    /// detection, and, only on an acyclic graph, order validation, whose
    /// results would be meaningless otherwise.  Sets the derived cycle flag
    /// for the projector and returns all diagnostics in one list.
    pub fn check(&mut self) -> (diags: Vec<Diagnostic>)
        requires
            sorted_by_name(old(self)@.modules),
            !old(self)@.has_circular_deps,
        ensures
            final(self)@.modules == prune(old(self)@.modules),
            sorted_by_name(final(self)@.modules),
            final(self)@.has_circular_deps == spec_has_cycle(prune(old(self)@.modules)),
            check_diags_ok(old(self)@.modules, diag_views(diags@)),
    {
        let ghost g0 = self@.modules;
        let mut diags = self.check_exists();
        match self.check_circular_deps() {
            None => {
                let mut order_ds = self.check_attr_order();
                proof {
                    lemma_diag_views_concat(diags@, order_ds@);
                }
                diags.append(&mut order_ds);
                proof {
                    assert(diag_views(diags@) =~= missing_diags(g0) + order_diags(prune(g0)));
                }
                diags
            },
            Some(cd) => {
                self.has_circular_deps = true;
                proof {
                    lemma_diag_views_push(diags@, cd);
                }
                diags.push(cd);
                proof {
                    let ds = diag_views(diags@);
                    assert(ds.subrange(0, ds.len() - 1) =~= missing_diags(g0));
                    assert(ds.last() == cd@);
                }
                diags
            },
        }
    }
}

/// Everything one invocation produces: the checked registry, the relocated
/// source items, the projected wrappers, and the accumulated diagnostics.
pub struct TransformResult {
    pub graph: DepsGraph,
    pub src_items: Vec<SrcItem>,
    pub wrappers: Vec<Wrapper>,
    pub diagnostics: Vec<Diagnostic>,
    pub has_cycle: bool,
}

/// The whole transformation: builds the registry from the scanned entries,
/// validates it, and projects it.  Pass-through entries reappear unchanged
/// among the source items; output is produced even when validation fails.
pub fn layered_crate_expand(entries: Vec<Entry>) -> (r: TransformResult)
    requires
        entry_names_unique(entry_views(entries@)),
    ensures
        ({
            let evs = entry_views(entries@);
            let g0 = registry_of(evs);
            &&& src_item_views(r.src_items@) == src_items_of(evs)
            &&& r.graph@.modules == prune(g0)
            &&& sorted_by_name(r.graph@.modules)
            &&& r.has_cycle == spec_has_cycle(prune(g0))
            &&& r.graph@.has_circular_deps == r.has_cycle
            &&& wrapper_views(r.wrappers@) == project_views(r.graph@.modules, r.has_cycle)
            &&& check_diags_ok(g0, diag_views(r.diagnostics@))
        }),
{
    let ghost evs = entry_views(entries@);
    let mut graph = DepsGraph::new();
    let mut src_items: Vec<SrcItem> = Vec::new();
    let mut rest = entries;
    let ghost mut done: int = 0;
    proof {
        assert(evs.subrange(0, 0) =~= Seq::<EntryView>::empty());
        assert(src_item_views(src_items@) =~= src_items_of(evs.subrange(0, 0)));
        assert(entry_views(rest@) =~= evs.subrange(0, evs.len() as int));
    }
    while rest.len() > 0
        invariant
            0 <= done <= evs.len(),
            rest@.len() == evs.len() - done,
            entry_views(rest@) =~= evs.subrange(done, evs.len() as int),
            graph@.modules == registry_of(evs.subrange(0, done)),
            sorted_by_name(graph@.modules),
            !graph@.has_circular_deps,
            src_item_views(src_items@) == src_items_of(evs.subrange(0, done)),
            entry_names_unique(evs),
        decreases rest@.len(),
    {
        let ghost r0 = rest@;
        let e = rest.remove(0);
        proof {
            assert(done < evs.len());
            assert(e == r0[0]);
            assert(entry_views(r0)[0] == r0[0]@);
            assert(e@ == evs.subrange(done, evs.len() as int)[0]);
            assert(e@ == evs[done]);
            assert forall|k: int| 0 <= k < rest@.len() implies entry_views(rest@)[k]
                == evs.subrange(done + 1, evs.len() as int)[k] by {
                assert(rest@[k] == r0[k + 1]);
                assert(entry_views(r0)[k + 1] == r0[k + 1]@);
                assert(evs.subrange(done, evs.len() as int)[k + 1] == evs[done + 1 + k]);
            }
            assert(entry_views(rest@) =~= evs.subrange(done + 1, evs.len() as int));
            let pre = evs.subrange(0, done);
            let cur = evs.subrange(0, done + 1);
            assert(cur.drop_last() =~= pre);
            assert(cur.last() == evs[done]);
        }
        match e {
            Entry::Opaque(s) => {
                let item = SrcItem::Opaque(s);
                proof {
                    lemma_src_item_views_push(src_items@, item);
                    assert(item@ == src_item_of(evs[done]));
                }
                src_items.push(item);
            },
            Entry::Module(mi) => {
                let ghost miv = mi@;
                let item = SrcItem::Module { name: mi.name.clone(), body: mi.body };
                proof {
                    lemma_src_item_views_push(src_items@, item);
                    assert(item@ == src_item_of(evs[done]));
                    // uniqueness keeps this name fresh in the registry so far
                    let pre = evs.subrange(0, done);
                    assert forall|i: int, j: int|
                        0 <= i < j < pre.len() && entry_module_name(#[trigger] pre[i]) is Some
                        implies entry_module_name(pre[i]) != entry_module_name(
                        #[trigger] pre[j],
                    ) by {
                        assert(pre[i] == evs[i]);
                        assert(pre[j] == evs[j]);
                    }
                    lemma_registry_of(pre);
                    assert(!has_name(graph@.modules, miv.name)) by {
                        if has_name(registry_of(pre), miv.name) {
                            assert(entry_has_module(pre, miv.name));
                            let i = choose|i: int|
                                0 <= i < pre.len() && entry_module_name(pre[i]) == Some(miv.name);
                            assert(pre[i] == evs[i]);
                            assert(entry_module_name(evs[done]) == Some(miv.name));
                        }
                    }
                }
                src_items.push(item);
                let ghost order = graph@.modules.len() as int;
                let added = graph.add(mi.is_pub, mi.name, mi.doc, mi.origin, mi.edges);
                proof {
                    assert(added is Some);
                    assert(graph@.modules == sorted_insert(
                        registry_of(evs.subrange(0, done)),
                        module_view_of(miv, order),
                    ));
                    assert(graph@.modules == registry_of(evs.subrange(0, done + 1)));
                }
            },
        }
        proof {
            done = done + 1;
            assert(src_item_views(src_items@) =~= src_items_of(evs.subrange(0, done)));
        }
    }
    proof {
        assert(evs.subrange(0, done) =~= evs);
    }
    let diagnostics = graph.check();
    let wrappers = graph.generate_impl();
    let has_cycle = graph.has_circular_deps;
    TransformResult { graph, src_items, wrappers, diagnostics, has_cycle }
}

} // verus!
