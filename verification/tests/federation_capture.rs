use rac_engine::federation::ParentCorpusErrorCode;
use rac_engine::federation_capture::{
    check_corpus_directory, check_manifest_unchanged, check_root_corpus_device, check_strictly_contained,
    config_text, declared_source, is_excluded, relative_components,
};
use rac_engine::manifest_yaml::{parse_declaration_yaml, parse_strict_v2_yaml, YamlNode};

#[test]
fn a_checkout_must_lie_strictly_inside_the_invocation_repository() {
    assert!(check_strictly_contained("/repo/vendor/std", "/repo").is_ok());
    let e = check_strictly_contained("/repo", "/repo").unwrap_err();
    assert_eq!(e.code, ParentCorpusErrorCode::PathEscape);
    assert_eq!(e.path.as_deref(), Some("/repo"));
    assert!(check_strictly_contained("/other/std", "/repo").is_err());
    assert!(check_strictly_contained("/repository/std", "/repo").is_err());
}

#[test]
fn a_governing_config_declares_its_source() {
    let path = "/repo/vendor/std/.decided/config.yaml";
    assert_eq!(declared_source(path, "corpus:\n  source: acme/standards\n", false).unwrap(), "acme/standards");
    let missing = declared_source(path, "corpus:\n  name: x\n", false).unwrap_err();
    assert_eq!(missing.code, ParentCorpusErrorCode::ParentSourceMissing);
    assert_eq!(missing.message, "version 2 graph nodes must declare corpus.source");
    let root_missing = declared_source(path, "other: 1\n", true).unwrap_err();
    assert_eq!(root_missing.code, ParentCorpusErrorCode::ChildSourceMissing);
    let long = format!("corpus:\n  source: {}\n", "a".repeat(256));
    let e = declared_source(path, &long, false).unwrap_err();
    assert_eq!(e.message, "federation limit exceeded: dimension=source-bytes, limit=255, observed=256");
    let anchored = declared_source(path, "corpus: &a\n  source: x\n", false).unwrap_err();
    assert_eq!(anchored.code, ParentCorpusErrorCode::MalformedManifest);
    let list = declared_source(path, "- a\n- b\n", false).unwrap_err();
    assert!(list.message.ends_with("governing config YAML must be one mapping"));
}

#[test]
fn configs_must_be_utf8() {
    assert_eq!(config_text("c", b"corpus: {}\n", false).unwrap(), "corpus: {}\n");
    let e = config_text("c", &[0xff, 0xfe], true).unwrap_err();
    assert_eq!(e.code, ParentCorpusErrorCode::InvalidConfig);
    assert_eq!(e.message, "version 2 root config must be valid UTF-8");
}

#[test]
fn a_manifest_must_not_change_while_parsed() {
    assert!(check_manifest_unchanged("m", Some(b"a"), Some(b"a"), false).is_ok());
    assert!(check_manifest_unchanged("m", None, None, false).is_ok());
    let e = check_manifest_unchanged("m", Some(b"a"), Some(b"b"), true).unwrap_err();
    assert_eq!(e.code, ParentCorpusErrorCode::SnapshotChanged);
    assert_eq!(e.message, "root federation manifest changed while it was parsed");
    assert!(check_manifest_unchanged("m", None, Some(b""), false).is_err());
}

#[test]
fn corpora_stay_on_one_filesystem() {
    assert!(check_corpus_directory("/c", true, 7, 7).is_ok());
    assert!(check_corpus_directory("/c", false, 7, 7).is_err());
    assert_eq!(check_corpus_directory("/c", true, 8, 7).unwrap_err().code, ParentCorpusErrorCode::UnsupportedFilesystem);
    assert!(check_root_corpus_device("/c", 1, 1).is_ok());
    assert_eq!(check_root_corpus_device("/c", 2, 1).unwrap_err().message, "root corpus crosses a filesystem boundary");
}

#[test]
fn relative_paths_join_lexically() {
    assert_eq!(relative_components("vendor/./std/", "root").unwrap(), vec!["vendor".to_string(), "std".to_string()]);
    assert!(relative_components(".", "corpus").unwrap().is_empty());
    let e = relative_components("../x", "root").unwrap_err();
    assert_eq!(e.message, "parent root must be a relative path without '..': ../x");
    assert!(relative_components("/abs", "root").is_err());
    assert_eq!(relative_components("", "corpus").unwrap_err().message, "parent corpus must be a non-empty relative path");
}

#[test]
fn excluded_entries_are_the_exclusions_and_what_lies_under_them() {
    let exclusions = vec!["/repo/vendor/std".to_string()];
    assert!(is_excluded("/repo/vendor/std", &exclusions));
    assert!(is_excluded("/repo/vendor/std/decisions", &exclusions));
    assert!(!is_excluded("/repo/vendor/std2", &exclusions));
}

#[test]
fn yaml_is_parsed_and_shaped_by_the_library() {
    let (_, node) = parse_strict_v2_yaml("m", "version: 2\nparents: []\n", "## inherits").unwrap();
    assert!(matches!(node, YamlNode::Mapping(ref entries) if entries.len() == 2));
    let e = parse_strict_v2_yaml("m", "a: [\n", "## inherits").unwrap_err();
    assert!(e.message.contains("## inherits YAML must be one mapping: "));
    let e = parse_declaration_yaml("m", "- a: 1\n- b: 2\n").unwrap_err();
    assert_eq!(e.code, ParentCorpusErrorCode::MultipleParents);
}
