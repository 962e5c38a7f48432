use weaveconfig::resolve_spaces::{resolve_space, resolve_spaces, ResolveError, ResolvedSpace};
use weaveconfig::space_graph::{create_space_graph, Directory, SpaceGraph, SpaceNode, SpaceSchema, ToCopy};
use weaveconfig::value::{clone_document, merge_map_consume, merge_values_consume, values_equal, Document, JsonValue};

fn s(x: &str) -> String {
    x.to_string()
}

fn text(x: &str) -> JsonValue {
    JsonValue::String(s(x))
}

fn obj(entries: Vec<(&str, JsonValue)>) -> JsonValue {
    JsonValue::Object(entries.into_iter().map(|(k, v)| (s(k), v)).collect())
}

fn doc(entries: Vec<(&str, JsonValue)>) -> Document {
    entries.into_iter().map(|(k, v)| (s(k), v)).collect()
}

fn names(xs: &[&str]) -> Vec<String> {
    xs.iter().map(|x| s(x)).collect()
}

fn dir(path: &str, space: Option<SpaceNode>, children: Vec<Directory>) -> Directory {
    Directory {
        directories: children,
        path: s(path),
        parent_directory: None,
        space,
        rest_to_copy: vec![],
    }
}

fn node(name: &str, deps: &[&str], envs: &[&str], mapping: Option<Vec<(&str, Vec<&str>)>>, vars: Option<Document>) -> SpaceNode {
    SpaceNode {
        info: SpaceSchema {
            name: s(name),
            dependencies: Some(names(deps)),
            space_to_parent_mapping: mapping
                .map(|m| m.into_iter().map(|(k, v)| (s(k), names(&v))).collect()),
            environments: Some(names(envs)),
            generate: None,
        },
        variables: vars,
    }
}

fn base_vars() -> Document {
    doc(vec![("dev", obj(vec![("url", text("a"))])), ("prod", obj(vec![("url", text("b"))]))])
}

fn graph(root: Directory) -> SpaceGraph {
    match create_space_graph(root) {
        Ok(g) => g,
        Err(_) => panic!("graph refused"),
    }
}

fn resolved_of<'a>(table: &'a [(String, ResolvedSpace)], name: &str) -> &'a ResolvedSpace {
    &table.iter().find(|(n, _)| n == name).unwrap().1
}

fn same(a: &Document, b: &Document) -> bool {
    values_equal(&JsonValue::Object(clone_document(a)), &JsonValue::Object(clone_document(b)))
}

#[test]
fn simple_inheritance_through_dependency() {
    let root = dir(
        "/cfg",
        None,
        vec![
            dir("/cfg/base", Some(node("base", &[], &["dev", "prod"], None, Some(base_vars()))), vec![]),
            dir("/cfg/app", Some(node("app", &["base"], &["dev", "prod"], None, None)), vec![]),
        ],
    );
    let table = match resolve_spaces(graph(root)) {
        Ok(t) => t,
        Err(_) => panic!("resolution failed"),
    };
    let app = resolved_of(&table, "app");
    assert!(same(&app.variables, &base_vars()));
}

#[test]
fn renamed_environment_and_silent_drop() {
    let root = dir(
        "/cfg",
        None,
        vec![
            dir("/cfg/base", Some(node("base", &[], &["dev", "prod"], None, Some(base_vars()))), vec![]),
            dir(
                "/cfg/app",
                Some(node("app", &["base"], &["dev", "staging"], Some(vec![("staging", vec!["prod"])]), None)),
                vec![],
            ),
        ],
    );
    let table = match resolve_spaces(graph(root)) {
        Ok(t) => t,
        Err(_) => panic!("resolution failed"),
    };
    let app = resolved_of(&table, "app");
    let expected = doc(vec![("dev", obj(vec![])), ("staging", obj(vec![("url", text("b"))]))]);
    assert!(same(&app.variables, &expected));
}

#[test]
fn conflicting_leaf_fails_with_merge_conflict() {
    let root = dir(
        "/cfg",
        None,
        vec![
            dir(
                "/cfg/base",
                Some(node("base", &[], &["dev"], None, Some(doc(vec![("dev", obj(vec![("url", text("a"))]))])))),
                vec![],
            ),
            dir(
                "/cfg/app",
                Some(node("app", &["base"], &["dev"], None, Some(doc(vec![("dev", obj(vec![("url", text("c"))]))])))),
                vec![],
            ),
        ],
    );
    match resolve_spaces(graph(root)) {
        Err(ResolveError::MergeConflict { space, source, conflict }) => {
            assert_eq!(space, "app");
            assert_eq!(source, "base");
            assert_eq!(conflict.path, names(&["dev", "url"]));
            assert!(values_equal(&conflict.existing, &text("c")));
            assert!(values_equal(&conflict.incoming, &text("a")));
        },
        _ => panic!("expected a merge conflict"),
    }
}

#[test]
fn cycle_is_detected_and_unrelated_space_resolves() {
    let root = dir(
        "/cfg",
        None,
        vec![
            dir("/cfg/a", Some(node("a", &["b"], &["dev"], None, None)), vec![]),
            dir("/cfg/b", Some(node("b", &["a"], &["dev"], None, None)), vec![]),
            dir("/cfg/c", Some(node("c", &[], &["dev"], None, Some(doc(vec![("dev", obj(vec![("k", text("v"))]))])))), vec![]),
        ],
    );
    let g = graph(root);
    for name in ["a", "b"] {
        let mut visiting = vec![];
        let mut table = vec![];
        match resolve_space(&s(name), &mut visiting, &mut table, &g) {
            Err(ResolveError::CyclicDependency(_)) => {},
            _ => panic!("expected a cycle"),
        }
    }
    let mut visiting = vec![];
    let mut table = vec![];
    assert!(resolve_space(&s("c"), &mut visiting, &mut table, &g).is_ok());
    assert!(matches!(resolve_spaces(g), Err(ResolveError::CyclicDependency(_))));
}

#[test]
fn missing_dependency_is_reported() {
    let root = dir("/cfg", Some(node("app", &["nowhere"], &["dev"], None, None)), vec![]);
    match resolve_spaces(graph(root)) {
        Err(ResolveError::SpaceNotFound(n)) => assert_eq!(n, "nowhere"),
        _ => panic!("expected a missing space"),
    }
}

#[test]
fn resolving_twice_gives_the_same_documents() {
    let make = || {
        dir(
            "/cfg",
            Some(node("root", &[], &["dev", "prod"], None, Some(base_vars()))),
            vec![
                dir("/cfg/lib", Some(node("lib", &[], &["dev", "prod"], None, Some(doc(vec![("dev", obj(vec![("x", text("1"))]))])))), vec![]),
                dir("/cfg/app", Some(node("app", &["lib"], &["dev", "prod"], None, None)), vec![]),
            ],
        )
    };
    let t1 = match resolve_spaces(graph(make())) {
        Ok(t) => t,
        Err(_) => panic!("resolution failed"),
    };
    let t2 = match resolve_spaces(graph(make())) {
        Ok(t) => t,
        Err(_) => panic!("resolution failed"),
    };
    for name in ["root", "lib", "app"] {
        assert!(same(&resolved_of(&t1, name).variables, &resolved_of(&t2, name).variables));
    }
    let app = resolved_of(&t1, "app");
    let expected = doc(vec![
        ("dev", obj(vec![("url", text("a")), ("x", text("1"))])),
        ("prod", obj(vec![("url", text("b"))])),
    ]);
    assert!(same(&app.variables, &expected));
}

#[test]
fn nested_space_inherits_parent_through_its_mapping() {
    let root = dir(
        "/cfg",
        Some(node("root", &[], &["dev", "prod"], None, Some(base_vars()))),
        vec![dir(
            "/cfg/svc",
            Some(node("svc", &[], &["live"], Some(vec![("live", vec!["prod"])]), None)),
            vec![dir("/cfg/svc/files", None, vec![])],
        )],
    );
    let g = graph(root);
    assert_eq!(g.len(), 2);
    assert_eq!(g[1].parent_space, Some(s("root")));
    assert_eq!(g[1].files_to_copy.to_copy.len(), 1);
    match &g[1].files_to_copy.to_copy[0] {
        ToCopy::Directory { path, .. } => assert_eq!(path, "/cfg/svc/files"),
        ToCopy::File(_) => panic!("expected a directory"),
    }
    let table = match resolve_spaces(g) {
        Ok(t) => t,
        Err(_) => panic!("resolution failed"),
    };
    let svc = resolved_of(&table, "svc");
    let expected = doc(vec![("live", obj(vec![("url", text("b"))])), ("dev", obj(vec![("url", text("a"))]))]);
    assert!(same(&svc.variables, &expected));
    assert_eq!(svc.root_mapping.get_space(&s("prod")), Some(&s("live")));
    assert_eq!(svc.root_mapping.get_space(&s("dev")), None);
}

#[test]
fn duplicate_ancestor_in_declaration_is_refused() {
    let root = dir(
        "/cfg",
        Some(node("root", &[], &["a", "b"], Some(vec![("a", vec!["x"]), ("b", vec!["x"])]), None)),
        vec![],
    );
    assert!(create_space_graph(root).is_err());
}

#[test]
fn merging_a_document_with_its_copy_changes_nothing() {
    let mut m = base_vars();
    let copy = clone_document(&m);
    assert!(merge_map_consume(&mut m, copy).is_ok());
    assert!(same(&m, &base_vars()));
}

#[test]
fn differing_leaves_conflict_in_either_order() {
    let a = doc(vec![("k", text("1")), ("n", obj(vec![("x", JsonValue::Null)]))]);
    let b = doc(vec![("k", JsonValue::Number(s("1")))]);
    let mut a1 = clone_document(&a);
    assert!(merge_map_consume(&mut a1, clone_document(&b)).is_err());
    let mut b1 = clone_document(&b);
    assert!(merge_map_consume(&mut b1, clone_document(&a)).is_err());
}

#[test]
fn disjoint_and_nested_objects_merge() {
    let mut a = doc(vec![("k", obj(vec![("x", JsonValue::Bool(true))]))]);
    let b = doc(vec![("k", obj(vec![("y", JsonValue::Array(vec![JsonValue::Null]))])), ("z", text("q"))]);
    assert!(merge_map_consume(&mut a, b).is_ok());
    let expected = doc(vec![
        ("z", text("q")),
        ("k", obj(vec![("y", JsonValue::Array(vec![JsonValue::Null])), ("x", JsonValue::Bool(true))])),
    ]);
    assert!(same(&a, &expected));
}

#[test]
fn file_names_follow_std_paths() {
    let name = |p: &str| ToCopy::File(s(p)).last_segment().ok().map(|x| x.to_string());
    assert_eq!(name("/a/b.txt"), Some(s("b.txt")));
    assert_eq!(name("a/b/"), Some(s("b")));
    assert_eq!(name("a/."), Some(s("a")));
    assert_eq!(name("."), None);
    assert_eq!(name("a/.."), None);
    assert_eq!(name("/"), None);
}

#[test]
fn graph_check_rejects_undeclared_targets_and_duplicate_names() {
    let ok = graph(dir("/cfg", Some(node("root", &[], &["live"], Some(vec![("live", vec!["prod"])]), None)), vec![]));
    assert!(weaveconfig::resolve_spaces::check_graph(&ok));
    let undeclared = graph(dir("/cfg", Some(node("root", &[], &["dev"], Some(vec![("live", vec!["prod"])]), None)), vec![]));
    assert!(!weaveconfig::resolve_spaces::check_graph(&undeclared));
    let twice = graph(dir(
        "/cfg",
        Some(node("x", &[], &[], None, None)),
        vec![dir("/cfg/y", Some(node("x", &[], &[], None, None)), vec![])],
    ));
    assert!(!weaveconfig::resolve_spaces::check_graph(&twice));
}

#[test]
fn resolved_and_in_progress_spaces_return_at_once() {
    let g = graph(dir("/cfg", Some(node("root", &[], &["dev"], None, Some(base_vars()))), vec![]));
    let mut visiting = vec![];
    let mut table = vec![];
    assert!(resolve_space(&s("root"), &mut visiting, &mut table, &g).is_ok());
    assert_eq!(table.len(), 1);
    assert!(resolve_space(&s("root"), &mut visiting, &mut table, &g).is_ok());
    assert_eq!(table.len(), 1);
    let mut table2 = vec![];
    let mut visiting2 = vec![s("root")];
    match resolve_space(&s("root"), &mut visiting2, &mut table2, &g) {
        Err(ResolveError::CyclicDependency(n)) => assert_eq!(n, "root"),
        _ => panic!("expected a cycle"),
    }
    assert!(table2.is_empty());
}

#[test]
fn conflicting_scalar_leaves_target_unchanged() {
    let mut v = text("a");
    assert!(merge_values_consume(&mut v, text("b")).is_err());
    assert!(values_equal(&v, &text("a")));
    let mut w = array_of_x();
    assert!(merge_values_consume(&mut w, obj(vec![])).is_err());
    assert!(values_equal(&w, &array_of_x()));
}

fn array_of_x() -> JsonValue {
    JsonValue::Array(vec![text("x")])
}

#[test]
fn nested_conflict_fails_in_either_order_with_its_path() {
    let a = doc(vec![("k", obj(vec![("m", obj(vec![("x", text("1"))]))]))]);
    let b = doc(vec![("k", obj(vec![("m", obj(vec![("x", text("2"))])), ("n", JsonValue::Null)]))]);
    let mut a1 = clone_document(&a);
    match merge_map_consume(&mut a1, clone_document(&b)) {
        Err(c) => {
            assert_eq!(c.path, names(&["k", "m", "x"]));
            assert!(values_equal(&c.existing, &text("1")));
            assert!(values_equal(&c.incoming, &text("2")));
        },
        Ok(()) => panic!("expected a conflict"),
    }
    let mut b1 = clone_document(&b);
    assert!(merge_map_consume(&mut b1, clone_document(&a)).is_err());
}
