use layered_crate::diagnostics::{format_stack, message, Diagnostic};
use layered_crate::graph::{DepEdge, DepsGraph};

fn no_edges() -> Vec<DepEdge> {
    Vec::new()
}

#[test]
fn format_stack_joins_with_arrows() {
    let stack = vec!["a".to_string(), "b".to_string()];
    assert_eq!(format_stack(&stack, "c"), "a -> b -> c");
    let single = vec!["m".to_string()];
    assert_eq!(format_stack(&single, "m"), "m -> m");
    let empty: Vec<String> = Vec::new();
    assert_eq!(format_stack(&empty, "x"), " -> x");
}

#[test]
fn add_assigns_registration_order_and_rejects_duplicates() {
    let mut g = DepsGraph::new();
    assert_eq!(g.add(true, "beta".to_string(), String::new(), 1, no_edges()), Some(0));
    assert_eq!(g.add(false, "alpha".to_string(), String::new(), 2, no_edges()), Some(1));
    // a second declaration of a present name is refused and changes nothing
    assert_eq!(g.add(true, "beta".to_string(), String::new(), 3, no_edges()), None);
    let ws = g.generate_impl();
    let names: Vec<&str> = ws.iter().map(|w| w.name.as_str()).collect();
    assert_eq!(names, vec!["alpha", "beta"]);
    // `beta` registered first keeps its identity: the first declaration wins
    assert!(ws[1].is_pub);
    assert_eq!(ws[1].origin, 1);
    assert!(!ws[0].is_pub);
}

#[test]
fn check_exists_prunes_and_reports_in_registry_order() {
    let mut g = DepsGraph::new();
    let edges = vec![
        DepEdge {
            name: "gone".to_string(),
            attr_origin: 11,
            ident_origin: 12,
        },
        DepEdge {
            name: "real".to_string(),
            attr_origin: 13,
            ident_origin: 14,
        },
    ];
    assert!(g.add(true, "top".to_string(), String::new(), 1, edges).is_some());
    assert!(g.add(true, "real".to_string(), String::new(), 2, no_edges()).is_some());
    let diags = g.check_exists();
    assert_eq!(diags.len(), 1);
    match &diags[0] {
        Diagnostic::MissingDependency {
            attr_origin,
            dependency,
        } => {
            assert_eq!(*attr_origin, 11);
            assert_eq!(dependency, "gone");
        }
        _ => panic!("expected a missing dependency diagnostic"),
    }
    // the resolvable edge stays
    let ws = g.generate_impl();
    let top = ws.iter().find(|w| w.name == "top").unwrap();
    assert_eq!(top.deps.len(), 1);
    assert_eq!(top.deps[0].name, "real");
}

#[test]
fn cycle_detector_roots_run_in_name_order() {
    // the ring b -> c -> b is found from root `b`, the alphabetically
    // first name on it, although `z` was declared first
    let mut g = DepsGraph::new();
    let ring = [("z", "b", 1, 2), ("b", "c", 3, 4), ("c", "b", 5, 6)];
    for (name, dep, attr_origin, ident_origin) in ring {
        let edges = vec![DepEdge {
            name: dep.to_string(),
            attr_origin,
            ident_origin,
        }];
        assert!(g.add(true, name.to_string(), String::new(), 0, edges).is_some());
    }
    let r = g.check_circular_deps();
    let d = r.expect("the ring must be found");
    assert_eq!(message(&d), "circular dependency detected: b -> c -> b");
    match d {
        Diagnostic::CyclicDependency { attr_origin, path } => {
            // the closing edge is c -> b
            assert_eq!(attr_origin, 5);
            assert_eq!(path, vec!["b".to_string(), "c".to_string(), "b".to_string()]);
        }
        _ => panic!("expected a cyclic dependency diagnostic"),
    }
}

#[test]
fn acyclic_graph_passes_cycle_check() {
    let mut g = DepsGraph::new();
    let edges = vec![DepEdge {
        name: "lib".to_string(),
        attr_origin: 1,
        ident_origin: 2,
    }];
    assert!(g.add(true, "app".to_string(), String::new(), 1, edges).is_some());
    assert!(g.add(true, "lib".to_string(), String::new(), 2, no_edges()).is_some());
    assert!(g.check_circular_deps().is_none());
}

#[test]
fn unsupported_construct_message() {
    let d = Diagnostic::UnsupportedConstruct { origin: 9 };
    assert_eq!(
        message(&d),
        "rename syntax (as ...) is not supported when using #[layers]"
    );
}

#[test]
fn missing_dependency_message() {
    let d = Diagnostic::MissingDependency {
        attr_origin: 0,
        dependency: "vanished".to_string(),
    };
    assert_eq!(message(&d), "cannot find dependency: vanished");
}

#[test]
fn attribute_order_fallback_message() {
    let d = Diagnostic::AttributeOrderViolation {
        ident_origin: 0,
        dependency: "late".to_string(),
        before: None,
    };
    assert_eq!(
        message(&d),
        "#[depends_on(late)] should be placed in the same order the modules are declared"
    );
}
