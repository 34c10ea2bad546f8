//! The order validator.
//!
//! Two checks per module, valid only on an acyclic graph.  The declaration
//! check asks that a module be declared before every module it depends on.
//! The list check asks that the `depends_on` annotations of one module be
//! written in the order in which their targets are declared; a violation
//! names the annotation the offender should precede when the log of
//! well-placed annotations shows one, and falls back to a generic ordering
//! diagnostic rather than passing silently.

use vstd::prelude::*;
use crate::diagnostics::{DiagView, Diagnostic, diag_views, lemma_diag_views_push};
use crate::graph::{
    DepsGraph, EdgeView, ModuleView, has_name, lemma_index_of, module_of, sorted_by_name,
};

verus! {

/// Spec-level image of a [`LogEntry`].
pub struct LogEntryView {
    pub order: int,
    pub name: Seq<char>,
}

/// One well-placed dependency annotation seen so far: the declaration order
/// and name of its target.
pub struct LogEntry {
    pub order: usize,
    pub name: String,
}

impl View for LogEntry {
    type V = LogEntryView;

    open spec fn view(&self) -> LogEntryView {
        LogEntryView { order: self.order as int, name: self.name@ }
    }
}

/// The views of a log.
pub open spec fn log_views(s: Seq<LogEntry>) -> Seq<LogEntryView> {
    s.map_values(|e: LogEntry| e@)
}

pub proof fn lemma_log_views_push(s: Seq<LogEntry>, e: LogEntry)
    ensures
        log_views(s.push(e)) =~= log_views(s).push(e@),
{
    assert forall|k: int| 0 <= k < s.len() + 1 implies log_views(s.push(e))[k] == log_views(
        s,
    ).push(e@)[k] by {
        if k < s.len() {
            assert(s.push(e)[k] == s[k]);
        }
    }
}

/// The name of the first logged annotation whose target is declared after
/// position `o`, if any.
pub open spec fn log_search(log: Seq<LogEntryView>, o: int) -> Option<Seq<char>>
    decreases log.len(),
{
    if log.len() == 0 {
        None
    } else if log[0].order > o {
        Some(log[0].name)
    } else {
        log_search(log.drop_first(), o)
    }
}

/// The running state of the list check over one module's annotations.
pub struct OrderState {
    pub current: int,
    pub log: Seq<LogEntryView>,
    pub diags: Seq<DiagView>,
}

/// The state of the list check before any annotation is seen.
pub open spec fn order_init() -> OrderState {
    OrderState { current: 0, log: Seq::empty(), diags: Seq::empty() }
}

/// One annotation of module `m` processed: an unresolvable target is
/// skipped, a target declared before `m` draws a declaration diagnostic, a
/// target out of list order draws a list diagnostic, and a well-placed one
/// is logged.
pub open spec fn order_step(
    g: Seq<ModuleView>,
    m: ModuleView,
    st: OrderState,
    e: EdgeView,
) -> OrderState {
    if !has_name(g, e.name) {
        st
    } else {
        let d = module_of(g, e.name);
        let diags = if d.order < m.order {
            st.diags.push(
                DiagView::DeclarationOrderViolation {
                    origin: m.origin,
                    module: m.name,
                    dependency: e.name,
                },
            )
        } else {
            st.diags
        };
        if d.order < st.current {
            OrderState {
                current: d.order,
                log: st.log,
                diags: diags.push(
                    DiagView::AttributeOrderViolation {
                        ident_origin: e.ident_origin,
                        dependency: e.name,
                        before: log_search(st.log, d.order),
                    },
                ),
            }
        } else {
            OrderState {
                current: d.order,
                log: st.log.push(LogEntryView { order: d.order, name: e.name }),
                diags,
            }
        }
    }
}

/// The list check run over a prefix of one module's annotations.
pub open spec fn order_run(
    g: Seq<ModuleView>,
    m: ModuleView,
    edges: Seq<EdgeView>,
    st: OrderState,
) -> OrderState
    decreases edges.len(),
{
    if edges.len() == 0 {
        st
    } else {
        order_step(g, m, order_run(g, m, edges.drop_last(), st), edges.last())
    }
}

/// The order diagnostics of one module, in annotation order.
pub open spec fn module_order_diags(g: Seq<ModuleView>, m: ModuleView) -> Seq<DiagView> {
    order_run(g, m, m.edges, order_init()).diags
}

/// The order diagnostics of the first `n` modules, in registry order.
pub open spec fn order_diags_upto(g: Seq<ModuleView>, n: int) -> Seq<DiagView>
    decreases n,
{
    if n <= 0 {
        Seq::empty()
    } else {
        order_diags_upto(g, n - 1) + module_order_diags(g, g[n - 1])
    }
}

/// All order diagnostics of the registry.
pub open spec fn order_diags(g: Seq<ModuleView>) -> Seq<DiagView> {
    order_diags_upto(g, g.len() as int)
}

/// The first log entry declared after `o`, executed.
fn search_log(log: &Vec<LogEntry>, o: usize) -> (r: Option<String>)
    ensures
        match r {
            Some(n) => log_search(log_views(log@), o as int) == Some(n@),
            None => log_search(log_views(log@), o as int) is None,
        },
{
    let ghost lv = log_views(log@);
    let mut j: usize = 0;
    proof {
        assert(lv.skip(0) =~= lv);
    }
    while j < log.len()
        invariant
            j <= log@.len(),
            lv == log_views(log@),
            lv.len() == log@.len(),
            log_search(lv, o as int) == log_search(lv.skip(j as int), o as int),
        decreases log@.len() - j,
    {
        proof {
            assert(lv.skip(j as int)[0] == lv[j as int]);
            assert(lv[j as int] == log@[j as int]@);
        }
        if log[j].order > o {
            return Some(log[j].name.clone());
        }
        proof {
            assert(lv.skip(j as int).drop_first() =~= lv.skip(j + 1));
        }
        j = j + 1;
    }
    proof {
        assert(lv.skip(log@.len() as int).len() == 0);
    }
    None
}

impl DepsGraph {
    /// Checks that the `depends_on` annotations of every module are written
    /// in declaration order and that no module is declared after one of its
    /// dependencies.  Annotations whose target is unregistered are skipped.
    pub fn check_attr_order(&self) -> (diags: Vec<Diagnostic>)
        requires
            sorted_by_name(self@.modules),
        ensures
            diag_views(diags@) == order_diags(self@.modules),
    {
        let ghost g = self@.modules;
        let mut diags: Vec<Diagnostic> = Vec::new();
        let mut i: usize = 0;
        proof {
            assert(diag_views(diags@) =~= order_diags_upto(g, 0));
        }
        while i < self.modules.len()
            invariant
                sorted_by_name(g),
                g == self@.modules,
                self@.modules.len() == self.modules.len(),
                i <= self.modules.len(),
                diag_views(diags@) == order_diags_upto(g, i as int),
            decreases self.modules.len() - i,
        {
            proof {
                assert(g[i as int] == self.modules@[i as int]@);
            }
            let ghost m = g[i as int];
            let module_order = self.modules[i].order;
            let module_origin = self.modules[i].origin;
            let mut log: Vec<LogEntry> = Vec::new();
            let mut current: usize = 0;
            let edge_count = self.modules[i].edges.len();
            let ghost orig_edges = m.edges;
            proof {
                assert(m.edges.len() == edge_count);
                assert(orig_edges.subrange(0, 0) =~= Seq::<EdgeView>::empty());
                assert(order_run(g, m, orig_edges.subrange(0, 0), order_init()) == order_init());
                assert(log_views(log@) =~= Seq::<LogEntryView>::empty());
            }
            let mut k: usize = 0;
            while k < edge_count
                invariant
                    sorted_by_name(g),
                    g == self@.modules,
                    self@.modules.len() == self.modules.len(),
                    i < self.modules.len(),
                    m == g[i as int],
                    orig_edges == m.edges,
                    m.edges.len() == edge_count,
                    module_order as int == m.order,
                    module_origin as int == m.origin,
                    k <= edge_count,
                    ({
                        let st = order_run(g, m, orig_edges.subrange(0, k as int), order_init());
                        &&& current as int == st.current
                        &&& log_views(log@) == st.log
                        &&& diag_views(diags@) == order_diags_upto(g, i as int) + st.diags
                    }),
                decreases edge_count - k,
            {
                let ghost st = order_run(g, m, orig_edges.subrange(0, k as int), order_init());
                proof {
                    assert(g[i as int] == self.modules@[i as int]@);
                    assert(m.edges[k as int] == self.modules@[i as int]@.edges[k as int]);
                    let pre = orig_edges.subrange(0, k as int);
                    let cur = orig_edges.subrange(0, k + 1);
                    assert(cur.drop_last() =~= pre);
                    assert(cur.last() == orig_edges[k as int]);
                }
                let ghost e = m.edges[k as int];
                let ghost st_next = order_step(g, m, st, e);
                match self.find_module(self.modules[i].edges[k].name.as_str()) {
                    None => {
                        // an unresolvable target was already reported by the
                        // existence validator: skip it here
                        proof {
                            assert(!has_name(g, e.name));
                            assert(st_next == st);
                        }
                    },
                    Some(dep_idx) => {
                        proof {
                            assert(g[dep_idx as int].name == e.name);
                            assert(has_name(g, e.name));
                            lemma_index_of(g, dep_idx as int);
                            assert(module_of(g, e.name) == g[dep_idx as int]);
                            assert(g[dep_idx as int] == self.modules@[dep_idx as int]@);
                        }
                        let dep_order = self.modules[dep_idx].order;
                        if dep_order < module_order {
                            let d = Diagnostic::DeclarationOrderViolation {
                                origin: module_origin,
                                module: self.modules[i].name.clone(),
                                dependency: self.modules[i].edges[k].name.clone(),
                            };
                            proof {
                                assert(self.modules@[i as int]@.name == m.name);
                                lemma_diag_views_push(diags@, d);
                            }
                            diags.push(d);
                        }
                        if dep_order < current {
                            let before = search_log(&log, dep_order);
                            let d = Diagnostic::AttributeOrderViolation {
                                ident_origin: self.modules[i].edges[k].ident_origin,
                                dependency: self.modules[i].edges[k].name.clone(),
                                before,
                            };
                            proof {
                                lemma_diag_views_push(diags@, d);
                            }
                            diags.push(d);
                        } else {
                            let entry = LogEntry {
                                order: dep_order,
                                name: self.modules[i].edges[k].name.clone(),
                            };
                            proof {
                                lemma_log_views_push(log@, entry);
                            }
                            log.push(entry);
                        }
                        current = dep_order;
                    },
                }
                proof {
                    assert(order_run(g, m, orig_edges.subrange(0, k + 1), order_init())
                        == st_next);
                    assert(current as int == st_next.current);
                    assert(log_views(log@) =~= st_next.log);
                    assert(diag_views(diags@) =~= order_diags_upto(g, i as int) + st_next.diags);
                }
                k = k + 1;
            }
            proof {
                assert(orig_edges.subrange(0, edge_count as int) =~= orig_edges);
                assert(diag_views(diags@) =~= order_diags_upto(g, i as int) + module_order_diags(
                    g,
                    m,
                ));
                assert(order_diags_upto(g, i as int) + module_order_diags(g, g[i as int])
                    =~= order_diags_upto(g, i + 1));
            }
            i = i + 1;
        }
        proof {
            assert(diag_views(diags@) == order_diags_upto(g, g.len() as int));
        }
        diags
    }
}

} // verus!
