use weaveconfig::apply_resolved::{needs_substitution, substitute_path_segment};
use weaveconfig::file_graph::validate_json_extension;
use weaveconfig::map_path::{map_path, MapPathError};
use weaveconfig::serialize_env::escape_string;

#[test]
fn test_escape_string() {
    let input = "Hello, \"World\"!\n";
    let expected = "Hello, \\\"World\\\"!\\n".to_string();
    assert_eq!(escape_string(input), expected);
}

#[test]
fn escape_string_covers_every_special_character() {
    assert_eq!(escape_string("a\\b\tc\rd\0e"), "a\\\\b\\tc\\rd\\0e");
    assert_eq!(escape_string(""), "");
}

#[test]
fn path_segments_substitute_only_a_leading_match() {
    assert!(needs_substitution("_forenv.json", "_forenv"));
    assert!(!needs_substitution("x_forenv", "_forenv"));
    assert_eq!(substitute_path_segment("_forenv.json", "_forenv", "dev"), "dev.json");
    assert_eq!(substitute_path_segment("a_forenv", "_forenv", "dev"), "a_forenv");
}

#[test]
fn json_extensions_are_checked() {
    assert!(validate_json_extension("json", "a.json").is_ok());
    assert!(validate_json_extension("jsonc", "a.jsonc").is_ok());
    let e = validate_json_extension("yaml", "a.yaml").err().unwrap();
    assert_eq!(e.extension, "yaml");
    assert_eq!(e.file_name, "a.yaml");
}

#[test]
fn map_path_replaces_root_by_its_parent() {
    assert_eq!(map_path("/p/weaveconfig", "/p/weaveconfig/app").ok().unwrap(), "/p/app");
    assert_eq!(map_path("/p/weaveconfig", "/p/weaveconfig").ok().unwrap(), "/p");
    assert_eq!(map_path("/w", "/w/a").ok().unwrap(), "/a");
    assert_eq!(map_path("/w", "/w").ok().unwrap(), "/");
    assert!(matches!(map_path("/", "/a"), Err(MapPathError::RootHasNoParent)));
    assert!(matches!(map_path("w", "w/a"), Err(MapPathError::RootHasNoParent)));
    assert!(matches!(map_path("/p/w", "/p/wx"), Err(MapPathError::NotWithinRoot)));
    assert!(matches!(map_path("/p/w", "/q"), Err(MapPathError::NotWithinRoot)));
}
