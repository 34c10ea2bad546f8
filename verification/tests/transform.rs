use layered_crate::diagnostics::Diagnostic;
use layered_crate::expand::{layered_crate_expand, Entry, ModuleInput, SrcItem};
use layered_crate::graph::DepEdge;

fn edge(name: &str, attr_origin: usize, ident_origin: usize) -> DepEdge {
    DepEdge {
        name: name.to_string(),
        attr_origin,
        ident_origin,
    }
}

fn module(name: &str, is_pub: bool, deps: &[&str], origin: usize) -> Entry {
    let edges = deps
        .iter()
        .enumerate()
        .map(|(i, d)| edge(d, origin * 100 + i, origin * 100 + 50 + i))
        .collect();
    Entry::Module(ModuleInput {
        name: name.to_string(),
        is_pub,
        doc: format!("docs of {}", name),
        origin,
        body: format!("body of {}", name),
        edges,
    })
}

#[test]
fn clean_layering_projects_wrappers() {
    // a well-layered tree: each module declared before its dependencies,
    // each dependency list written in declaration order
    let entries = vec![
        module("api", true, &["sub1", "sub2", "utils"], 1),
        module("sub1", true, &["utils"], 2),
        module("sub2", true, &["utils"], 3),
        module("utils", false, &[], 4),
    ];
    let r = layered_crate_expand(entries);
    assert_eq!(r.diagnostics.len(), 0);
    assert!(!r.has_cycle);

    // wrappers come in registry (name) order
    let names: Vec<&str> = r.wrappers.iter().map(|w| w.name.as_str()).collect();
    assert_eq!(names, vec!["api", "sub1", "sub2", "utils"]);

    let api = &r.wrappers[0];
    assert!(api.is_pub);
    assert_eq!(api.doc, "docs of api");
    let api_deps: Vec<&str> = api.deps.iter().map(|d| d.name.as_str()).collect();
    assert_eq!(api_deps, vec!["sub1", "sub2", "utils"]);
    assert!(!api.suppress_unused);

    let sub1 = &r.wrappers[1];
    let sub1_deps: Vec<&str> = sub1.deps.iter().map(|d| d.name.as_str()).collect();
    assert_eq!(sub1_deps, vec!["utils"]);
    let sub2 = &r.wrappers[2];
    let sub2_deps: Vec<&str> = sub2.deps.iter().map(|d| d.name.as_str()).collect();
    assert_eq!(sub2_deps, vec!["utils"]);

    // no dependencies: the wrapper degenerates to a bare restricted re-export
    let utils = &r.wrappers[3];
    assert!(!utils.is_pub);
    assert!(utils.deps.is_empty());
    assert!(!utils.suppress_unused);
}

#[test]
fn self_edge_reports_single_cycle() {
    let entries = vec![module("m", true, &["m"], 1)];
    let r = layered_crate_expand(entries);
    assert!(r.has_cycle);
    assert_eq!(r.diagnostics.len(), 1);
    match &r.diagnostics[0] {
        Diagnostic::CyclicDependency { path, .. } => {
            assert_eq!(path, &vec!["m".to_string(), "m".to_string()]);
        }
        _ => panic!("expected a cyclic dependency diagnostic"),
    }
    assert_eq!(
        layered_crate::diagnostics::message(&r.diagnostics[0]),
        "circular dependency detected: m -> m"
    );
    // a cyclic registry carries the unused-import suppression marker
    assert!(r.wrappers[0].suppress_unused);
}

#[test]
fn ring_cycle_reports_rotation_from_first_root() {
    let entries = vec![
        module("a", true, &["b"], 1),
        module("b", true, &["c"], 2),
        module("c", true, &["a"], 3),
    ];
    let r = layered_crate_expand(entries);
    assert!(r.has_cycle);
    assert_eq!(r.diagnostics.len(), 1);
    assert_eq!(
        layered_crate::diagnostics::message(&r.diagnostics[0]),
        "circular dependency detected: a -> b -> c -> a"
    );
}

#[test]
fn cycle_suppresses_order_diagnostics() {
    // the list order of `z` is wrong, but the cycle makes order checks
    // meaningless, so only the cycle is reported
    let entries = vec![
        module("z", true, &["y", "x"], 1),
        module("x", true, &["z"], 2),
        module("y", true, &[], 3),
    ];
    let r = layered_crate_expand(entries);
    assert!(r.has_cycle);
    assert_eq!(r.diagnostics.len(), 1);
    assert!(matches!(
        r.diagnostics[0],
        Diagnostic::CyclicDependency { .. }
    ));
}

#[test]
fn missing_dependency_pruned_from_later_analyses() {
    let entries = vec![
        module("y", true, &["x"], 8),
        module("x", true, &["nosuch"], 7),
    ];
    let r = layered_crate_expand(entries);
    assert!(!r.has_cycle);
    assert_eq!(r.diagnostics.len(), 1);
    match &r.diagnostics[0] {
        Diagnostic::MissingDependency {
            attr_origin,
            dependency,
        } => {
            assert_eq!(*attr_origin, 700);
            assert_eq!(dependency, "nosuch");
        }
        _ => panic!("expected a missing dependency diagnostic"),
    }
    // the pruned edge appears in no wrapper: x degenerates to a bare
    // re-export
    let x = r.wrappers.iter().find(|w| w.name == "x").unwrap();
    assert!(x.deps.is_empty());
    let y = r.wrappers.iter().find(|w| w.name == "y").unwrap();
    assert_eq!(y.deps.len(), 1);
    assert_eq!(y.deps[0].name, "x");
}

#[test]
fn declaration_order_violation_names_both_modules() {
    // `w` depends on `x`, but `x` is declared first: the module should be
    // declared before its dependency
    let entries = vec![module("x", true, &[], 1), module("w", true, &["x"], 2)];
    let r = layered_crate_expand(entries);
    assert!(!r.has_cycle);
    assert_eq!(r.diagnostics.len(), 1);
    match &r.diagnostics[0] {
        Diagnostic::DeclarationOrderViolation {
            module, dependency, ..
        } => {
            assert_eq!(module, "w");
            assert_eq!(dependency, "x");
        }
        _ => panic!("expected a declaration order diagnostic"),
    }
    assert_eq!(
        layered_crate::diagnostics::message(&r.diagnostics[0]),
        "module `w` should be declared before its dependency `x` to ensure top-down readability"
    );
}

#[test]
fn attribute_order_violation_names_preceding_edge() {
    // `z` lists y before x, but x is declared before y
    let entries = vec![
        module("z", true, &["y", "x"], 1),
        module("x", true, &[], 2),
        module("y", true, &[], 3),
    ];
    let r = layered_crate_expand(entries);
    assert!(!r.has_cycle);
    assert_eq!(r.diagnostics.len(), 1);
    match &r.diagnostics[0] {
        Diagnostic::AttributeOrderViolation {
            dependency, before, ..
        } => {
            assert_eq!(dependency, "x");
            assert_eq!(before.as_deref(), Some("y"));
        }
        _ => panic!("expected an attribute order diagnostic"),
    }
    assert_eq!(
        layered_crate::diagnostics::message(&r.diagnostics[0]),
        "#[depends_on(x)] should be before #[depends_on(y)] to ensure consistent order of modules"
    );
}

#[test]
fn passthrough_content_unchanged() {
    let entries = vec![
        Entry::Opaque("fn helper() {}".to_string()),
        module("core", true, &[], 1),
        Entry::Opaque("const LIMIT: u8 = 3;".to_string()),
    ];
    let r = layered_crate_expand(entries);
    assert_eq!(r.src_items.len(), 3);
    match &r.src_items[0] {
        SrcItem::Opaque(s) => assert_eq!(s, "fn helper() {}"),
        _ => panic!("expected the pass-through item unchanged"),
    }
    match &r.src_items[1] {
        SrcItem::Module { name, body } => {
            assert_eq!(name, "core");
            assert_eq!(body, "body of core");
        }
        _ => panic!("expected the module item"),
    }
    match &r.src_items[2] {
        SrcItem::Opaque(s) => assert_eq!(s, "const LIMIT: u8 = 3;"),
        _ => panic!("expected the pass-through item unchanged"),
    }
}

#[test]
fn empty_input_produces_empty_output() {
    let r = layered_crate_expand(Vec::new());
    assert_eq!(r.src_items.len(), 0);
    assert_eq!(r.wrappers.len(), 0);
    assert_eq!(r.diagnostics.len(), 0);
    assert!(!r.has_cycle);
}

#[test]
fn module_without_edges_after_missing_target_keeps_going() {
    // a missing target must not hide diagnostics of other modules
    let entries = vec![
        module("a", true, &["nowhere"], 1),
        module("b", true, &[], 2),
        module("c", true, &["b"], 3),
    ];
    let r = layered_crate_expand(entries);
    // one missing dependency, one declaration order violation for c -> b
    assert_eq!(r.diagnostics.len(), 2);
    assert!(matches!(
        r.diagnostics[0],
        Diagnostic::MissingDependency { .. }
    ));
    assert!(matches!(
        r.diagnostics[1],
        Diagnostic::DeclarationOrderViolation { .. }
    ));
}

#[test]
fn missing_edge_does_not_block_order_check() {
    // the pruned edge is skipped, the resolvable one is still validated
    let entries = vec![
        module("a", true, &[], 1),
        module("b", true, &["nothing", "a"], 2),
    ];
    let r = layered_crate_expand(entries);
    assert_eq!(r.diagnostics.len(), 2);
    assert!(matches!(
        r.diagnostics[0],
        Diagnostic::MissingDependency { .. }
    ));
    match &r.diagnostics[1] {
        Diagnostic::DeclarationOrderViolation {
            module, dependency, ..
        } => {
            assert_eq!(module, "b");
            assert_eq!(dependency, "a");
        }
        _ => panic!("expected a declaration order diagnostic"),
    }
}

#[test]
fn rerunning_on_passthrough_is_identity() {
    let texts = ["fn a() {}", "static MSG: &'static str = \"hi\";"];
    let entries: Vec<Entry> = texts
        .iter()
        .map(|t| Entry::Opaque(t.to_string()))
        .collect();
    let first = layered_crate_expand(entries);
    let again: Vec<Entry> = first
        .src_items
        .iter()
        .map(|it| match it {
            SrcItem::Opaque(s) => Entry::Opaque(s.clone()),
            _ => panic!("only pass-through content was given"),
        })
        .collect();
    let second = layered_crate_expand(again);
    assert_eq!(second.src_items.len(), texts.len());
    for (i, it) in second.src_items.iter().enumerate() {
        match it {
            SrcItem::Opaque(s) => assert_eq!(s, texts[i]),
            _ => panic!("pass-through content must stay pass-through"),
        }
    }
    assert_eq!(second.diagnostics.len(), 0);
}
