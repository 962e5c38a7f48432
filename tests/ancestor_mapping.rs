use weaveconfig::ancestor_mapping::{AncestorMapping, RootMappingError};

fn s(x: &str) -> String {
    x.to_string()
}

#[test]
fn test_add_mapping_success() {
    let mut mapping = AncestorMapping::new();
    assert!(mapping.add_mapping(s("dev"), s("dev")).is_ok());
    assert!(mapping.add_mapping(s("test"), s("test")).is_ok());
    assert!(mapping.add_mapping(s("prod1"), s("prod")).is_ok());
    assert!(mapping.add_mapping(s("prod2"), s("prod")).is_ok());

    assert_eq!(mapping.get_space(&s("dev")), Some(&s("dev")));
    assert_eq!(mapping.get_space(&s("prod1")), Some(&s("prod")));
    assert_eq!(mapping.get_space(&s("prod2")), Some(&s("prod")));
    assert_eq!(mapping.get_space(&s("test")), Some(&s("test")));

    let prod_ancestors = mapping.get_ancestors(&s("prod"));
    assert!(prod_ancestors.contains(&s("prod1")));
    assert!(prod_ancestors.contains(&s("prod2")));
    assert_eq!(prod_ancestors.len(), 2);
}

#[test]
fn test_add_mapping_duplicate() {
    let mut mapping = AncestorMapping::new();
    assert!(mapping.add_mapping(s("prod1"), s("prod")).is_ok());

    let result = mapping.add_mapping(s("prod1"), s("staging"));
    assert!(matches!(result, Err(RootMappingError::DuplicateAncestor(_))));
    if let Err(RootMappingError::DuplicateAncestor(ancestor)) = result {
        assert_eq!(ancestor, "prod1");
    }

    assert_eq!(mapping.get_space(&s("prod1")), Some(&s("prod")));
}

#[test]
fn test_replace_mapping_existing() {
    let mut mapping = AncestorMapping::new();
    mapping.add_mapping(s("prod1"), s("prod")).unwrap();
    mapping.add_mapping(s("prod2"), s("prod")).unwrap();

    let previous = mapping.replace_mapping(s("prod1"), s("staging"));
    assert_eq!(previous, Some(s("prod")));

    assert_eq!(mapping.get_space(&s("prod1")), Some(&s("staging")));

    let prod_ancestors = mapping.get_ancestors(&s("prod"));
    assert!(!prod_ancestors.contains(&s("prod1")));
    assert!(prod_ancestors.contains(&s("prod2")));
    assert_eq!(prod_ancestors.len(), 1);

    let staging_ancestors = mapping.get_ancestors(&s("staging"));
    assert!(staging_ancestors.contains(&s("prod1")));
    assert_eq!(staging_ancestors.len(), 1);
}

#[test]
fn test_replace_mapping_nonexistent() {
    let mut mapping = AncestorMapping::new();
    let previous = mapping.replace_mapping(s("nonexistent"), s("staging"));
    assert_eq!(previous, None);
    assert!(!mapping.contains_ancestor(&s("nonexistent")));
    assert!(!mapping.contains_space(&s("staging")));
}

#[test]
fn test_remove_mapping_by_ancestor() {
    let mut mapping = AncestorMapping::new();
    mapping.add_mapping(s("prod1"), s("prod")).unwrap();
    mapping.add_mapping(s("prod2"), s("prod")).unwrap();

    assert!(mapping.remove_mapping_by_ancestor(&s("prod1")));
    assert!(!mapping.contains_ancestor(&s("prod1")));
    let prod_ancestors = mapping.get_ancestors(&s("prod"));
    assert!(!prod_ancestors.contains(&s("prod1")));
    assert!(prod_ancestors.contains(&s("prod2")));

    assert!(mapping.remove_mapping_by_ancestor(&s("prod2")));
    assert!(!mapping.contains_space(&s("prod")));
}

#[test]
fn test_remove_mapping_by_space() {
    let mut mapping = AncestorMapping::new();
    mapping.add_mapping(s("dev"), s("dev")).unwrap();
    mapping.add_mapping(s("prod1"), s("prod")).unwrap();
    mapping.add_mapping(s("prod2"), s("prod")).unwrap();

    assert!(mapping.remove_mapping_by_space(&s("prod")));
    assert!(!mapping.contains_space(&s("prod")));
    assert!(!mapping.contains_ancestor(&s("prod1")));
    assert!(!mapping.contains_ancestor(&s("prod2")));

    assert!(!mapping.remove_mapping_by_space(&s("staging")));
}

#[test]
fn test_clear_mappings() {
    let mut mapping = AncestorMapping::new();
    mapping.add_mapping(s("dev"), s("dev")).unwrap();
    mapping.add_mapping(s("test"), s("test")).unwrap();
    mapping.add_mapping(s("prod1"), s("prod")).unwrap();

    mapping.clear();
    assert!(mapping.list_ancestor_to_space().is_empty());
    assert!(mapping.list_space_to_ancestor().is_empty());
}

#[test]
fn test_contains_methods() {
    let mut mapping = AncestorMapping::new();
    mapping.add_mapping(s("dev"), s("dev")).unwrap();
    mapping.add_mapping(s("prod1"), s("prod")).unwrap();

    assert!(mapping.contains_ancestor(&s("dev")));
    assert!(mapping.contains_ancestor(&s("prod1")));
    assert!(!mapping.contains_ancestor(&s("test")));

    assert!(mapping.contains_space(&s("dev")));
    assert!(mapping.contains_space(&s("prod")));
    assert!(!mapping.contains_space(&s("test")));
}

#[test]
fn add_mapping_keeps_latest_space_per_ancestor() {
    let mut mapping = AncestorMapping::new();
    assert!(mapping.add_mapping(s("a"), s("x")).is_ok());
    assert!(mapping.add_mapping(s("b"), s("y")).is_ok());
    assert!(mapping.replace_mapping(s("a"), s("z")).is_some());
    assert_eq!(mapping.get_space(&s("a")), Some(&s("z")));
    assert_eq!(mapping.get_space(&s("b")), Some(&s("y")));
    assert!(mapping.add_mapping(s("a"), s("w")).is_err());
    assert_eq!(mapping.get_space(&s("a")), Some(&s("z")));
}

#[test]
fn directions_stay_inverse_after_edits() {
    let mut mapping = AncestorMapping::new();
    mapping.add_mapping(s("p1"), s("prod")).unwrap();
    mapping.add_mapping(s("p2"), s("prod")).unwrap();
    mapping.add_mapping(s("d"), s("dev")).unwrap();
    mapping.replace_mapping(s("p2"), s("dev"));
    mapping.remove_mapping_by_ancestor(&s("p1"));
    for (ancestor, space) in mapping.list_ancestor_to_space() {
        assert!(mapping.get_ancestors(space).contains(ancestor));
    }
    for (space, ancestors) in mapping.list_space_to_ancestor() {
        assert!(!ancestors.is_empty());
        for a in ancestors {
            assert_eq!(mapping.get_space(a), Some(space));
        }
    }
    assert!(!mapping.contains_space(&s("prod")));
    assert_eq!(mapping.get_ancestors(&s("dev")).len(), 2);
}

#[test]
fn from_space_to_ancestors_builds_and_rejects() {
    let ok = AncestorMapping::from_space_to_ancestors(vec![
        (s("prod"), vec![s("prod-us"), s("prod-eu")]),
        (s("dev"), vec![s("dev")]),
    ]);
    let m = ok.unwrap();
    assert_eq!(m.get_space(&s("prod-eu")), Some(&s("prod")));
    assert_eq!(m.get_space(&s("dev")), Some(&s("dev")));
    assert_eq!(m.get_ancestors(&s("prod")).len(), 2);

    let dup = AncestorMapping::from_space_to_ancestors(vec![
        (s("prod"), vec![s("x")]),
        (s("dev"), vec![s("x")]),
    ]);
    match dup {
        Err(RootMappingError::DuplicateAncestor(a)) => assert_eq!(a, "x"),
        Ok(_) => panic!("duplicate ancestor accepted"),
    }
}

#[test]
fn cloned_mapping_has_same_entries() {
    let mut m = AncestorMapping::new();
    m.add_mapping(s("a"), s("x")).unwrap();
    m.add_mapping(s("b"), s("x")).unwrap();
    let c = m.clone();
    assert_eq!(c.get_space(&s("a")), Some(&s("x")));
    assert_eq!(c.get_ancestors(&s("x")).len(), 2);
}
