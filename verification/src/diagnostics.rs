//! Structured diagnostics for the graph analyses.
//!
//! Every problem a validator finds becomes one `Diagnostic` value carrying
//! the opaque origin handle of the most specific source location available.
//! Diagnostics are accumulated, never thrown: the transformation still
//! produces output for an invalid graph.

use vstd::prelude::*;
use vstd::string::*;

verus! {

/// Spec-level image of a [`Diagnostic`].
pub enum DiagView {
    MissingDependency { attr_origin: int, dependency: Seq<char> },
    CyclicDependency { attr_origin: int, path: Seq<Seq<char>> },
    DeclarationOrderViolation { origin: int, module: Seq<char>, dependency: Seq<char> },
    AttributeOrderViolation {
        ident_origin: int,
        dependency: Seq<char>,
        before: Option<Seq<char>>,
    },
    UnsupportedConstruct { origin: int },
}

/// One problem found by a validator, attached to an opaque origin handle
/// that the caller can map back to a concrete source location.
pub enum Diagnostic {
    /// A dependency edge names a module absent from the registry.
    MissingDependency { attr_origin: usize, dependency: String },
    /// A dependency path returns to a module already on it.
    CyclicDependency { attr_origin: usize, path: Vec<String> },
    /// A module is declared after one of its dependencies.
    DeclarationOrderViolation { origin: usize, module: String, dependency: String },
    /// A dependency list is not written in declaration order; `before` names
    /// the edge it should precede when one could be determined.
    AttributeOrderViolation { ident_origin: usize, dependency: String, before: Option<String> },
    /// A construct the transformation does not support, such as a rename on
    /// a dependency forward reference.
    UnsupportedConstruct { origin: usize },
}

impl View for Diagnostic {
    type V = DiagView;

    open spec fn view(&self) -> DiagView {
        match self {
            Diagnostic::MissingDependency { attr_origin, dependency } => {
                DiagView::MissingDependency {
                    attr_origin: *attr_origin as int,
                    dependency: dependency@,
                }
            },
            Diagnostic::CyclicDependency { attr_origin, path } => {
                DiagView::CyclicDependency {
                    attr_origin: *attr_origin as int,
                    path: path@.map_values(|s: String| s@),
                }
            },
            Diagnostic::DeclarationOrderViolation { origin, module, dependency } => {
                DiagView::DeclarationOrderViolation {
                    origin: *origin as int,
                    module: module@,
                    dependency: dependency@,
                }
            },
            Diagnostic::AttributeOrderViolation { ident_origin, dependency, before } => {
                DiagView::AttributeOrderViolation {
                    ident_origin: *ident_origin as int,
                    dependency: dependency@,
                    before: match before {
                        Some(b) => Some(b@),
                        None => None,
                    },
                }
            },
            Diagnostic::UnsupportedConstruct { origin } => {
                DiagView::UnsupportedConstruct { origin: *origin as int }
            },
        }
    }
}

/// The views of a sequence of diagnostics.
pub open spec fn diag_views(s: Seq<Diagnostic>) -> Seq<DiagView> {
    s.map_values(|d: Diagnostic| d@)
}

pub proof fn lemma_diag_views_push(s: Seq<Diagnostic>, d: Diagnostic)
    ensures
        diag_views(s.push(d)) =~= diag_views(s).push(d@),
{
    assert forall|k: int| 0 <= k < s.len() + 1 implies diag_views(s.push(d))[k] == diag_views(
        s,
    ).push(d@)[k] by {
        if k < s.len() {
            assert(s.push(d)[k] == s[k]);
        }
    }
}

pub proof fn lemma_diag_views_concat(a: Seq<Diagnostic>, b: Seq<Diagnostic>)
    ensures
        diag_views(a + b) =~= diag_views(a) + diag_views(b),
{
    assert forall|k: int| 0 <= k < a.len() + b.len() implies diag_views(a + b)[k] == (diag_views(a)
        + diag_views(b))[k] by {
        if k < a.len() {
            assert((a + b)[k] == a[k]);
        } else {
            assert((a + b)[k] == b[k - a.len()]);
        }
    }
}

/// The names of a dependency path joined with ` -> ` separators.
pub open spec fn spec_join_arrow(parts: Seq<Seq<char>>) -> Seq<char>
    decreases parts.len(),
{
    if parts.len() == 0 {
        Seq::empty()
    } else if parts.len() == 1 {
        parts[0]
    } else {
        spec_join_arrow(parts.drop_last()) + " -> "@ + parts.last()
    }
}

/// The text describing a dependency path that closes back on `next`.
pub open spec fn spec_format_stack(parts: Seq<Seq<char>>, next: Seq<char>) -> Seq<char> {
    spec_join_arrow(parts) + " -> "@ + next
}

/// Renders a traversal stack and the repeated name as `a -> b -> a`.
pub fn format_stack(stack: &[String], next: &str) -> (r: String)
    ensures
        r@ == spec_format_stack(stack@.map_values(|s: String| s@), next@),
{
    let ghost parts = stack@.map_values(|s: String| s@);
    let mut out = String::new();
    let mut i: usize = 0;
    proof {
        assert(parts.subrange(0, 0) =~= Seq::<Seq<char>>::empty());
    }
    while i < stack.len()
        invariant
            i <= stack.len(),
            parts == stack@.map_values(|s: String| s@),
            parts.len() == stack@.len(),
            out@ == spec_join_arrow(parts.subrange(0, i as int)),
        decreases stack.len() - i,
    {
        if i > 0 {
            out.append(" -> ");
        }
        out.append(stack[i].as_str());
        proof {
            let pre = parts.subrange(0, i as int);
            let cur = parts.subrange(0, i + 1);
            assert(cur.drop_last() =~= pre);
            assert(cur.last() == parts[i as int]);
            if i == 0 {
                assert(out@ =~= spec_join_arrow(cur));
            }
        }
        i = i + 1;
    }
    proof {
        assert(parts.subrange(0, stack@.len() as int) =~= parts);
    }
    out.append(" -> ");
    out.append(next);
    out
}

/// The message text of a diagnostic.
pub open spec fn spec_message(d: DiagView) -> Seq<char> {
    match d {
        DiagView::MissingDependency { dependency, .. } => {
            "cannot find dependency: "@ + dependency
        },
        DiagView::CyclicDependency { path, .. } => {
            "circular dependency detected: "@ + spec_join_arrow(path)
        },
        DiagView::DeclarationOrderViolation { module, dependency, .. } => {
            "module `"@ + module + "` should be declared before its dependency `"@ + dependency
                + "` to ensure top-down readability"@
        },
        DiagView::AttributeOrderViolation { dependency, before: Some(before), .. } => {
            "#[depends_on("@ + dependency + ")] should be before #[depends_on("@ + before
                + ")] to ensure consistent order of modules"@
        },
        DiagView::AttributeOrderViolation { dependency, before: None, .. } => {
            "#[depends_on("@ + dependency
                + ")] should be placed in the same order the modules are declared"@
        },
        DiagView::UnsupportedConstruct { .. } => {
            "rename syntax (as ...) is not supported when using #[layers]"@
        },
    }
}

/// Renders the message text of a diagnostic.
pub fn message(d: &Diagnostic) -> (r: String)
    ensures
        r@ == spec_message(d@),
{
    match d {
        Diagnostic::MissingDependency { dependency, .. } => {
            let mut s = String::from_str("cannot find dependency: ");
            s.append(dependency.as_str());
            s
        },
        Diagnostic::CyclicDependency { path, .. } => {
            let mut s = String::from_str("circular dependency detected: ");
            let joined = join_arrow(path);
            s.append(joined.as_str());
            s
        },
        Diagnostic::DeclarationOrderViolation { module, dependency, .. } => {
            let mut s = String::from_str("module `");
            s.append(module.as_str());
            s.append("` should be declared before its dependency `");
            s.append(dependency.as_str());
            s.append("` to ensure top-down readability");
            s
        },
        Diagnostic::AttributeOrderViolation { dependency, before: Some(before), .. } => {
            let mut s = String::from_str("#[depends_on(");
            s.append(dependency.as_str());
            s.append(")] should be before #[depends_on(");
            s.append(before.as_str());
            s.append(")] to ensure consistent order of modules");
            s
        },
        Diagnostic::AttributeOrderViolation { before: None, dependency, .. } => {
            let mut s = String::from_str("#[depends_on(");
            s.append(dependency.as_str());
            s.append(")] should be placed in the same order the modules are declared");
            s
        },
        Diagnostic::UnsupportedConstruct { .. } => {
            String::from_str("rename syntax (as ...) is not supported when using #[layers]")
        },
    }
}

/// Joins names with ` -> ` separators.
pub fn join_arrow(parts: &Vec<String>) -> (r: String)
    ensures
        r@ == spec_join_arrow(parts@.map_values(|s: String| s@)),
{
    let ghost vs = parts@.map_values(|s: String| s@);
    let mut out = String::new();
    let mut i: usize = 0;
    proof {
        assert(vs.subrange(0, 0) =~= Seq::<Seq<char>>::empty());
    }
    while i < parts.len()
        invariant
            i <= parts.len(),
            vs == parts@.map_values(|s: String| s@),
            vs.len() == parts@.len(),
            out@ == spec_join_arrow(vs.subrange(0, i as int)),
        decreases parts.len() - i,
    {
        if i > 0 {
            out.append(" -> ");
        }
        out.append(parts[i].as_str());
        proof {
            let pre = vs.subrange(0, i as int);
            let cur = vs.subrange(0, i + 1);
            assert(cur.drop_last() =~= pre);
            assert(cur.last() == vs[i as int]);
            if i == 0 {
                assert(out@ =~= spec_join_arrow(cur));
            }
        }
        i = i + 1;
    }
    proof {
        assert(vs.subrange(0, parts@.len() as int) =~= vs);
    }
    out
}

} // verus!
