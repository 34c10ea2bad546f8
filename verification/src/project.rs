//! The visibility projector.
//!
//! Turns a validated (or best-effort) registry into one wrapper description
//! per module, in registry order: the wrapper's visibility follows the
//! module's own flag, its documentation is carried verbatim, and its hidden
//! namespace re-exports exactly the module's direct dependencies.  A module
//! without dependencies degenerates to a bare re-export.  When the registry
//! has a cycle, the hidden namespaces carry an unused-import suppression
//! marker so the cycle diagnostic stays visible.

use vstd::prelude::*;
use crate::graph::{DepsGraph, ModuleDecl, ModuleView};

verus! {

/// Spec-level image of a [`DepRef`].
pub struct DepRefView {
    pub name: Seq<char>,
    pub ident_origin: int,
}

/// One re-exported direct dependency of a wrapper.
pub struct DepRef {
    pub name: String,
    pub ident_origin: usize,
}

impl View for DepRef {
    type V = DepRefView;

    open spec fn view(&self) -> DepRefView {
        DepRefView { name: self.name@, ident_origin: self.ident_origin as int }
    }
}

/// Spec-level image of a [`Wrapper`].
pub struct WrapperView {
    pub name: Seq<char>,
    pub is_pub: bool,
    pub doc: Seq<char>,
    pub origin: int,
    pub deps: Seq<DepRefView>,
    pub suppress_unused: bool,
}

/// The public-facing wrapper of one module: what the code-emission backend
/// renders as a re-export of the module's surface plus a hidden namespace
/// holding its direct dependencies.  With `deps` empty the wrapper is a
/// single direct re-export.
pub struct Wrapper {
    pub name: String,
    pub is_pub: bool,
    pub doc: String,
    pub origin: usize,
    pub deps: Vec<DepRef>,
    pub suppress_unused: bool,
}

impl View for Wrapper {
    type V = WrapperView;

    open spec fn view(&self) -> WrapperView {
        WrapperView {
            name: self.name@,
            is_pub: self.is_pub,
            doc: self.doc@,
            origin: self.origin as int,
            deps: self.deps@.map_values(|d: DepRef| d@),
            suppress_unused: self.suppress_unused,
        }
    }
}

/// The views of a sequence of wrappers.
pub open spec fn wrapper_views(s: Seq<Wrapper>) -> Seq<WrapperView> {
    s.map_values(|w: Wrapper| w@)
}

/// The wrapper a module projects to.
pub open spec fn wrapper_of(m: ModuleView, has_cycle: bool) -> WrapperView {
    WrapperView {
        name: m.name,
        is_pub: m.is_pub,
        doc: m.doc,
        origin: m.origin,
        deps: m.edges.map_values(|e: crate::graph::EdgeView| DepRefView {
            name: e.name,
            ident_origin: e.ident_origin,
        }),
        suppress_unused: has_cycle && m.edges.len() > 0,
    }
}

/// The wrappers of a whole registry, in registry order.
pub open spec fn project_views(g: Seq<ModuleView>, has_cycle: bool) -> Seq<WrapperView> {
    g.map_values(|m: ModuleView| wrapper_of(m, has_cycle))
}

impl ModuleDecl {
    /// The wrapper of this module.
    pub fn generate_mod_impl(&self, has_circular_deps: bool) -> (w: Wrapper)
        ensures
            w@ == wrapper_of(self@, has_circular_deps),
    {
        let mut deps: Vec<DepRef> = Vec::new();
        let mut k: usize = 0;
        while k < self.edges.len()
            invariant
                k <= self.edges@.len(),
                deps@.len() == k,
                forall|j: int|
                    0 <= j < k ==> deps@[j]@ == (DepRefView {
                        name: self@.edges[j].name,
                        ident_origin: self@.edges[j].ident_origin,
                    }),
            decreases self.edges@.len() - k,
        {
            let ghost d0 = deps@;
            deps.push(
                DepRef {
                    name: self.edges[k].name.clone(),
                    ident_origin: self.edges[k].ident_origin,
                },
            );
            proof {
                assert(self@.edges[k as int] == self.edges@[k as int]@);
                assert forall|j: int| 0 <= j < k + 1 implies deps@[j]@ == (DepRefView {
                    name: self@.edges[j].name,
                    ident_origin: self@.edges[j].ident_origin,
                }) by {
                    if j < k {
                        assert(deps@[j] == d0[j]);
                    }
                }
            }
            k = k + 1;
        }
        let w = Wrapper {
            name: self.name.clone(),
            is_pub: self.is_pub,
            doc: self.doc.clone(),
            origin: self.origin,
            deps,
            suppress_unused: has_circular_deps && self.edges.len() > 0,
        };
        proof {
            assert(w@.deps =~= wrapper_of(self@, has_circular_deps).deps);
            assert(w@ == wrapper_of(self@, has_circular_deps));
        }
        w
    }
}

impl DepsGraph {
    /// Projects every module to its wrapper, in registry order, consulting
    /// the derived cycle flag for the unused-import suppression marker.
    pub fn generate_impl(&self) -> (ws: Vec<Wrapper>)
        ensures
            wrapper_views(ws@) == project_views(self@.modules, self@.has_circular_deps),
    {
        let mut ws: Vec<Wrapper> = Vec::new();
        let mut i: usize = 0;
        while i < self.modules.len()
            invariant
                i <= self.modules@.len(),
                self@.modules.len() == self.modules@.len(),
                ws@.len() == i,
                forall|j: int|
                    0 <= j < i ==> wrapper_views(ws@)[j] == wrapper_of(
                        self@.modules[j],
                        self@.has_circular_deps,
                    ),
            decreases self.modules@.len() - i,
        {
            let ghost w0 = ws@;
            let w = self.modules[i].generate_mod_impl(self.has_circular_deps);
            ws.push(w);
            proof {
                assert(self.modules@[i as int]@ == self@.modules[i as int]);
                assert forall|j: int| 0 <= j < i + 1 implies wrapper_views(ws@)[j] == wrapper_of(
                    self@.modules[j],
                    self@.has_circular_deps,
                ) by {
                    assert(wrapper_views(ws@)[j] == ws@[j]@);
                    if j < i {
                        assert(ws@[j] == w0[j]);
                        assert(wrapper_views(w0)[j] == w0[j]@);
                    }
                }
            }
            i = i + 1;
        }
        proof {
            assert(wrapper_views(ws@) =~= project_views(self@.modules, self@.has_circular_deps));
        }
        ws
    }
}

} // verus!
