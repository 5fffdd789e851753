use tonic_include_proto::emit::{namespaced_decls, Decl};
use tonic_include_proto::paths::parse_path;
use tonic_include_proto::tree::{build_tree, Namespace};

fn pkgs(names: &[&str]) -> Vec<String> {
    names.iter().map(|s| s.to_string()).collect()
}

fn segs(v: &Vec<String>) -> Vec<&str> {
    v.iter().map(|s| s.as_str()).collect()
}

#[test]
fn parse_splits_on_dots() {
    let v = parse_path("x.z.y").expect("well-formed identifier");
    assert_eq!(segs(&v), vec!["x", "z", "y"]);
}

#[test]
fn parse_single_segment() {
    let v = parse_path("x").expect("well-formed identifier");
    assert_eq!(segs(&v), vec!["x"]);
}

#[test]
fn parse_rejects_empty() {
    assert!(parse_path("").is_none());
}

#[test]
fn parse_rejects_leading_dot() {
    assert!(parse_path(".a").is_none());
}

#[test]
fn parse_rejects_trailing_dot() {
    assert!(parse_path("a.").is_none());
}

#[test]
fn parse_rejects_consecutive_dots() {
    assert!(parse_path("x..y").is_none());
}

#[test]
fn new_node_is_bare() {
    let ns = Namespace::new(true);
    assert!(ns.generate);
    assert!(ns.children.is_empty());
    let ns = Namespace::new(false);
    assert!(!ns.generate);
    assert!(ns.children.is_empty());
}

fn child<'a>(ns: &'a Namespace, name: &str) -> &'a Namespace {
    let mut hit = None;
    for (n, c) in ns.children.iter() {
        if n == name {
            assert!(hit.is_none(), "duplicate child {}", name);
            hit = Some(c);
        }
    }
    hit.unwrap_or_else(|| panic!("no child {}", name))
}

#[test]
fn round_trip_walk_reaches_marked_nodes() {
    let inputs = pkgs(&["x", "x.y.z", "a.b"]);
    let root = build_tree(&inputs).expect("well-formed identifiers");
    for input in inputs.iter() {
        let mut node = &root;
        let mut walked: Vec<&str> = Vec::new();
        for seg in input.split('.') {
            node = child(node, seg);
            walked.push(seg);
        }
        assert!(node.generate, "no mark at end of {}", input);
        assert_eq!(walked.join("."), *input);
    }
}

#[test]
fn prefix_sharing_builds_one_shared_scope() {
    let root = build_tree(&pkgs(&["a.b", "a.c"])).expect("well-formed identifiers");
    assert_eq!(root.children.len(), 1);
    let a = child(&root, "a");
    assert!(!a.generate);
    assert_eq!(a.children.len(), 2);
    let b = child(a, "b");
    assert!(b.generate);
    assert!(b.children.is_empty());
    let c = child(a, "c");
    assert!(c.generate);
    assert!(c.children.is_empty());
}

#[test]
fn prefix_sharing_emits_one_scope() {
    let ds = namespaced_decls(&pkgs(&["a.b", "a.c"])).expect("well-formed identifiers");
    assert_eq!(ds.len(), 1);
    match &ds[0] {
        Decl::Module { name, items } => {
            assert_eq!(name, "a");
            assert_eq!(items.len(), 2);
            for (item, (expected_name, expected_path)) in
                items.iter().zip([("b", "a.b"), ("c", "a.c")])
            {
                match item {
                    Decl::Module { name, items } => {
                        assert_eq!(name, expected_name);
                        assert_eq!(items.len(), 1);
                        match &items[0] {
                            Decl::Marker { path } => assert_eq!(path, expected_path),
                            _ => panic!("expected a marker"),
                        }
                    }
                    _ => panic!("expected a nested scope"),
                }
            }
        }
        _ => panic!("expected a scope"),
    }
}

#[test]
fn leaf_and_prefix_coexist() {
    let root = build_tree(&pkgs(&["a", "a.b"])).expect("well-formed identifiers");
    let a = child(&root, "a");
    assert!(a.generate);
    assert_eq!(a.children.len(), 1);
    let b = child(a, "b");
    assert!(b.generate);
    assert!(b.children.is_empty());
}

#[test]
fn leaf_and_prefix_emit_marker_and_scope() {
    let ds = namespaced_decls(&pkgs(&["a", "a.b"])).expect("well-formed identifiers");
    assert_eq!(ds.len(), 1);
    match &ds[0] {
        Decl::Module { name, items } => {
            assert_eq!(name, "a");
            assert_eq!(items.len(), 2);
            match &items[0] {
                Decl::Marker { path } => assert_eq!(path, "a"),
                _ => panic!("expected the marker first"),
            }
            match &items[1] {
                Decl::Module { name, items } => {
                    assert_eq!(name, "b");
                    assert_eq!(items.len(), 1);
                    match &items[0] {
                        Decl::Marker { path } => assert_eq!(path, "a.b"),
                        _ => panic!("expected a marker"),
                    }
                }
                _ => panic!("expected a nested scope"),
            }
        }
        _ => panic!("expected a scope"),
    }
}

#[test]
fn leaf_mark_survives_either_input_order() {
    for inputs in [pkgs(&["a", "a.b"]), pkgs(&["a.b", "a"])] {
        let root = build_tree(&inputs).expect("well-formed identifiers");
        let a = child(&root, "a");
        assert!(a.generate, "mark lost for inputs {:?}", inputs);
        assert!(child(a, "b").generate);
    }
}

#[test]
fn single_segment_emits_one_marker_only() {
    let ds = namespaced_decls(&pkgs(&["x"])).expect("well-formed identifier");
    assert_eq!(ds.len(), 1);
    match &ds[0] {
        Decl::Module { name, items } => {
            assert_eq!(name, "x");
            assert_eq!(items.len(), 1);
            match &items[0] {
                Decl::Marker { path } => assert_eq!(path, "x"),
                _ => panic!("expected a marker"),
            }
        }
        _ => panic!("expected a scope"),
    }
}

#[test]
fn disjoint_inputs_emit_independent_scopes() {
    let ds = namespaced_decls(&pkgs(&["a.b", "c.d"])).expect("well-formed identifiers");
    assert_eq!(ds.len(), 2);
    for (d, (top, inner, path)) in ds.iter().zip([("a", "b", "a.b"), ("c", "d", "c.d")]) {
        match d {
            Decl::Module { name, items } => {
                assert_eq!(name, top);
                assert_eq!(items.len(), 1);
                match &items[0] {
                    Decl::Module { name, items } => {
                        assert_eq!(name, inner);
                        assert_eq!(items.len(), 1);
                        match &items[0] {
                            Decl::Marker { path: p } => assert_eq!(p, path),
                            _ => panic!("expected a marker"),
                        }
                    }
                    _ => panic!("expected a nested scope"),
                }
            }
            _ => panic!("expected a scope"),
        }
    }
}

#[test]
fn no_marker_without_request() {
    let ds = namespaced_decls(&pkgs(&["a.b"])).expect("well-formed identifier");
    assert_eq!(ds.len(), 1);
    match &ds[0] {
        Decl::Module { name, items } => {
            assert_eq!(name, "a");
            // the scope for "a" holds only the nested scope, no marker
            assert_eq!(items.len(), 1);
            assert!(matches!(&items[0], Decl::Module { .. }));
        }
        _ => panic!("expected a scope"),
    }
}

#[test]
fn no_packages_is_an_error() {
    assert!(namespaced_decls(&pkgs(&[])).is_none());
}

#[test]
fn one_malformed_package_fails_the_whole_run() {
    assert!(namespaced_decls(&pkgs(&["a.b", "c..d"])).is_none());
    assert!(namespaced_decls(&pkgs(&["a.b", ""])).is_none());
    assert!(build_tree(&pkgs(&["ok", ".bad"])).is_none());
}

#[test]
fn siblings_keep_first_seen_order() {
    let ds = namespaced_decls(&pkgs(&["x.z", "x.y", "w.v"])).expect("well-formed identifiers");
    let names: Vec<&str> = ds
        .iter()
        .map(|d| match d {
            Decl::Module { name, .. } => name.as_str(),
            _ => panic!("expected a scope"),
        })
        .collect();
    assert_eq!(names, vec!["x", "w"]);
    match &ds[0] {
        Decl::Module { items, .. } => {
            let inner: Vec<&str> = items
                .iter()
                .map(|d| match d {
                    Decl::Module { name, .. } => name.as_str(),
                    _ => panic!("expected a nested scope"),
                })
                .collect();
            assert_eq!(inner, vec!["z", "y"]);
        }
        _ => unreachable!(),
    }
}

#[test]
fn deep_path_nests_one_scope_per_segment() {
    let ds = namespaced_decls(&pkgs(&["m.n.o.p"])).expect("well-formed identifier");
    assert_eq!(ds.len(), 1);
    let mut cur = &ds[0];
    for expected in ["m", "n", "o"] {
        match cur {
            Decl::Module { name, items } => {
                assert_eq!(name, expected);
                assert_eq!(items.len(), 1);
                cur = &items[0];
            }
            _ => panic!("expected a scope"),
        }
    }
    match cur {
        Decl::Module { name, items } => {
            assert_eq!(name, "p");
            assert_eq!(items.len(), 1);
            match &items[0] {
                Decl::Marker { path } => assert_eq!(path, "m.n.o.p"),
                _ => panic!("expected a marker"),
            }
        }
        _ => panic!("expected a scope"),
    }
}
