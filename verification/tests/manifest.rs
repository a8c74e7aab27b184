use rac_engine::federation::ParentCorpusErrorCode;
use rac_engine::manifest_yaml::{check_declaration_shape, check_yaml_mapping, yaml_shape, ShapeError, YamlNode};
use rac_engine::manifest::{
    check_graph_overrides, graph_inherits_block, graph_manifest_parents, heading_sections,
    inherits_block, overrides_block, parent_declaration_v1,
    reject_misspelled_operational_headings, MarkdownEvent, RawGraphOverride, RawGraphParent,
    fenced_yaml_blocks, normalize_newlines, split_char, strict_yaml_lexical_check, text_lines,
    valid_alias, valid_v1_digest, valid_v2_digest, validate_relative_path, validate_v2_path,
    validate_v2_path_limits,
};

#[test]
fn newlines_are_normalised_to_line_feeds() {
    assert_eq!(normalize_newlines("a\r\nb\rc\n"), "a\nb\nc\n");
    assert_eq!(normalize_newlines("\r\r\n"), "\n\n");
    assert_eq!(normalize_newlines(""), "");
}

#[test]
fn lines_follow_str_lines() {
    assert_eq!(text_lines("a\r\nb\n\nc"), vec!["a", "b", "", "c"]);
    assert_eq!(text_lines("a\n"), vec!["a"]);
    assert_eq!(text_lines("\n"), vec![""]);
    assert!(text_lines("").is_empty());
    assert_eq!(text_lines("x\r"), vec!["x\r"]);
    assert_eq!(split_char("a//b", '/'), vec!["a", "", "b"]);
}

#[test]
fn yaml_blocks_are_read_between_fences() {
    let text = "# Corpus\n\n## inherits\n\n```yaml\nversion: 2\nparents: []\n```\n\n~~~~ text\nignored\n~~~~\n";
    let blocks = fenced_yaml_blocks("m.md", text, 2, 100).unwrap();
    assert_eq!(blocks, vec!["version: 2\nparents: []".to_string()]);
    let none = fenced_yaml_blocks("m.md", text, 8, 100).unwrap();
    assert!(none.is_empty());
}

#[test]
fn an_open_fence_is_a_malformed_manifest() {
    let err = fenced_yaml_blocks("m.md", "```yaml\nversion: 2\n", 0, 10).unwrap_err();
    assert_eq!(err.message, "malformed federation manifest m.md: unterminated fenced block");
    assert_eq!(err.stable_code(), "parent-corpus-malformed-manifest");
}

#[test]
fn aliases_and_digests_have_strict_syntax() {
    assert!(valid_alias("standards"));
    assert!(valid_alias("a.b_c-d9"));
    assert!(!valid_alias(""));
    assert!(!valid_alias("Std"));
    assert!(!valid_alias("-a"));
    assert!(!valid_alias("a-"));
    assert!(!valid_alias("ä"));
    let v2 = format!("sha256-v2:{}", "0123456789abcdef".repeat(4));
    assert!(valid_v2_digest(&v2));
    assert!(!valid_v2_digest(&v2.to_uppercase()));
    assert!(!valid_v2_digest(&format!("sha256:{}", "0".repeat(64))));
    assert!(valid_v1_digest(&format!("sha256:{}", "0".repeat(64))));
    assert!(!valid_v1_digest(&format!("sha256:{}", "0".repeat(63))));
}

#[test]
fn version_two_paths_are_posix_relative() {
    assert!(validate_v2_path("vendor/standards", "root").is_ok());
    assert_eq!(validate_v2_path("", "root").unwrap_err(), "'root' must be a non-empty POSIX-relative path");
    assert_eq!(validate_v2_path("/abs", "root").unwrap_err(), "'root' must be POSIX-relative");
    assert_eq!(validate_v2_path("a\\b", "root").unwrap_err(), "'root' must be POSIX-relative");
    assert_eq!(validate_v2_path("c:x", "root").unwrap_err(), "'root' must be POSIX-relative");
    assert_eq!(
        validate_v2_path("a//b", "corpus").unwrap_err(),
        "'corpus' must not contain empty, '.', or '..' components"
    );
    assert_eq!(
        validate_v2_path(&"x".repeat(256), "root").unwrap_err(),
        "'root' component exceeds 255 UTF-8 bytes"
    );
    let deep = vec!["a"; 65].join("/");
    assert_eq!(validate_v2_path(&deep, "root").unwrap_err(), "'root' exceeds 64 path components");
}

#[test]
fn path_limits_report_the_limit_and_one_more() {
    assert!(validate_v2_path_limits("m.md", "vendor/standards", "root").is_ok());
    let err = validate_v2_path_limits("m.md", &"x".repeat(4097), "root").unwrap_err();
    assert_eq!(err.message, "federation limit exceeded: dimension=root-path-bytes, limit=4096, observed=4097");
    assert_eq!(err.stable_code(), "corpus-federation-limit-exceeded");
    let deep = vec!["a"; 65].join("/");
    let err = validate_v2_path_limits("m.md", &deep, "corpus").unwrap_err();
    assert_eq!(err.message, "federation limit exceeded: dimension=corpus-path-components, limit=64, observed=65");
}

#[test]
fn yaml_anchors_aliases_tags_and_merges_are_refused() {
    assert!(strict_yaml_lexical_check("m.md", "version: 2\nparents: []\n").is_ok());
    assert!(strict_yaml_lexical_check("m.md", "a: 'x &y'\nb: \"*z\"\nc: 1 # &c\n").is_ok());
    let err = strict_yaml_lexical_check("m.md", "a: &x 1\n").unwrap_err();
    assert_eq!(
        err.message,
        "malformed federation manifest m.md: version 2 YAML forbids anchors, aliases, custom tags, and merge keys (line 1)"
    );
    let err = strict_yaml_lexical_check("m.md", "k: v\nb: !tag x\n").unwrap_err();
    assert!(err.message.ends_with("(line 2)"));
    assert!(strict_yaml_lexical_check("m.md", "  <<: base\n").is_err());
    assert!(strict_yaml_lexical_check("m.md", "x: [1, *a]\n").is_err());
}

#[test]
fn version_one_paths_are_repository_relative() {
    assert!(validate_relative_path("vendor/standards", "root").is_ok());
    assert!(validate_relative_path("./vendor", "root").is_ok());
    assert_eq!(validate_relative_path("", "root").unwrap_err(), "'root' must be a non-empty relative path");
    assert_eq!(validate_relative_path("/x", "root").unwrap_err(), "'root' must not be absolute");
    assert_eq!(validate_relative_path("a/../b", "corpus").unwrap_err(), "'corpus' must not contain '..'");
}

use rac_engine::manifest::{is_top_level_atx_h2, is_top_level_heading};

fn lines(text: &str) -> Vec<String> {
    text_lines(text)
}

#[test]
fn top_level_headings_are_recognised() {
    let l = lines("# Corpus\n\n## inherits\n    ## indented\n##\tTab\nSetext\n======\n- not\n");
    assert!(!is_top_level_atx_h2(&l, 0));
    assert!(is_top_level_atx_h2(&l, 2));
    assert!(!is_top_level_atx_h2(&l, 3));
    assert!(is_top_level_atx_h2(&l, 4));
    assert!(!is_top_level_atx_h2(&l, -1));
    assert!(!is_top_level_atx_h2(&l, 99));
    assert!(is_top_level_heading(&l, 0));
    assert!(!is_top_level_heading(&l, 1));
    assert!(!is_top_level_heading(&l, 3));
    assert!(is_top_level_heading(&l, 5));
    assert!(!is_top_level_heading(&l, 7));
}

const MANIFEST: &str = ".decided/corpus.md";

fn raw_parent(alias: &str, source: &str) -> RawGraphParent {
    RawGraphParent {
        alias: alias.to_string(),
        source: source.to_string(),
        root: format!("vendor/{alias}"),
        corpus: "decisions".to_string(),
        digest: format!("sha256-v2:{}", "a".repeat(64)),
    }
}

#[test]
fn graph_parents_are_checked_and_ordered_by_source() {
    let raw = vec![raw_parent("zeta", "acme/zeta"), raw_parent("alpha", "acme/beta")];
    let parents = graph_manifest_parents(MANIFEST, 2, &raw, &vec![true, true]).unwrap();
    assert_eq!(parents.len(), 2);
    assert_eq!(parents[0].source, "acme/beta");
    assert_eq!(parents[0].alias, "alpha");
    assert_eq!(parents[0].version, 2);
    assert_eq!(parents[1].source, "acme/zeta");
    assert_eq!(parents[1].root, "vendor/zeta");
}

#[test]
fn graph_parent_refusals() {
    let one = |p: RawGraphParent, valid: bool| graph_manifest_parents(MANIFEST, 2, &vec![p], &vec![valid]).unwrap_err();

    let e = graph_manifest_parents(MANIFEST, 3, &vec![raw_parent("a", "acme/a")], &vec![true]).unwrap_err();
    assert_eq!(e.code, ParentCorpusErrorCode::MalformedManifest);
    assert_eq!(e.message, "malformed federation manifest .decided/corpus.md: unsupported inheritance manifest version: 3");
    assert_eq!(e.path.as_deref(), Some(MANIFEST));

    let e = graph_manifest_parents(MANIFEST, 2, &vec![], &vec![]).unwrap_err();
    assert_eq!(e.message, "malformed federation manifest .decided/corpus.md: version 2 parents must not be empty");

    let many: Vec<RawGraphParent> = (0..33).map(|i| raw_parent(&format!("p{i}"), &format!("acme/p{i}"))).collect();
    let e = graph_manifest_parents(MANIFEST, 2, &many, &vec![true; 33]).unwrap_err();
    assert_eq!(e.code, ParentCorpusErrorCode::LimitExceeded);
    assert_eq!(e.message, "federation limit exceeded: dimension=direct-parents, limit=32, observed=33");

    let e = one(raw_parent(&"a".repeat(65), "acme/a"), true);
    assert_eq!(e.message, "federation limit exceeded: dimension=alias-bytes, limit=64, observed=65");

    let e = one(raw_parent("Bad", "acme/a"), true);
    assert_eq!(e.code, ParentCorpusErrorCode::MalformedManifest);
    assert!(e.message.ends_with("'alias' must match the version 2 lowercase syntax and be at most 64 bytes"));

    let e = one(raw_parent("a", "acme/a"), false);
    assert!(e.message.ends_with("'source' must be a lower-case slash-namespaced identity of at most 255 bytes"));

    let mut p = raw_parent("a", "acme/a");
    p.root = "../up".to_string();
    let e = one(p, true);
    assert_eq!(e.code, ParentCorpusErrorCode::PathEscape);
    assert_eq!(e.message, "'root' must not contain empty, '.', or '..' components");

    let mut p = raw_parent("a", "acme/a");
    p.digest = format!("sha256-v2:{}", "A".repeat(64));
    let e = one(p, true);
    assert!(e.message.ends_with("'digest' must be sha256-v2: followed by exactly 64 lowercase hexadecimal characters"));

    let e = graph_manifest_parents(MANIFEST, 2, &vec![raw_parent("a", "acme/a"), raw_parent("a", "acme/b")], &vec![true, true]).unwrap_err();
    assert_eq!(e.code, ParentCorpusErrorCode::DuplicateParent);
    assert_eq!(e.message, "duplicate direct parent alias 'a'");

    let e = graph_manifest_parents(MANIFEST, 2, &vec![raw_parent("a", "acme/a"), raw_parent("b", "acme/a")], &vec![true, true]).unwrap_err();
    assert_eq!(e.code, ParentCorpusErrorCode::DuplicateParent);
    assert_eq!(e.message, "duplicate direct parent source 'acme/a'");
}

#[test]
fn graph_override_checks() {
    let item = |t: &str| RawGraphOverride {
        target: t.to_string(),
        replacement: "APP-1".to_string(),
        rationale: "ADR-1".to_string(),
    };
    assert!(check_graph_overrides(MANIFEST, 2, &vec![item("std::REQ-1")]).is_ok());
    let e = check_graph_overrides(MANIFEST, 1, &vec![]).unwrap_err();
    assert!(e.message.ends_with("## overrides version must match ## inherits version 2"));
    let e = check_graph_overrides(MANIFEST, 2, &vec![item("")]).unwrap_err();
    assert!(e.message.ends_with("version 2 override operands must be non-empty canonical references"));
    let e = check_graph_overrides(MANIFEST, 2, &vec![item("x"); 4097]).unwrap_err();
    assert_eq!(e.message, "federation limit exceeded: dimension=overrides, limit=4096, observed=4097");
}

fn heading(tag: &str, content: &str, line: i64) -> MarkdownEvent {
    MarkdownEvent { heading: true, tag: tag.to_string(), content: content.to_string(), line }
}

#[test]
fn sections_run_to_the_next_top_level_heading() {
    let text = "# Corpus\n\n## inherits\n\n```yaml\nversion: 2\n```\n\n### detail\n\n## overrides\n\ntext\n";
    let events = vec![
        heading("h1", "Corpus", 0),
        heading("h2", "inherits", 2),
        heading("h3", "detail", 8),
        heading("h2", "overrides", 10),
    ];
    assert_eq!(heading_sections(text, &events, "inherits"), vec![(3, 10)]);
    assert_eq!(heading_sections(text, &events, "overrides"), vec![(11, 13)]);
    assert!(heading_sections(text, &events, "missing").is_empty());
    // An indented (code-block) heading line does not open a section.
    let indented = "    ## inherits\n";
    assert!(heading_sections(indented, &vec![heading("h2", "inherits", 0)], "inherits").is_empty());
}

#[test]
fn operational_headings_must_be_lowercase() {
    let text = "## Inherits\n";
    let events = vec![heading("h2", "Inherits", 0)];
    let e = reject_misspelled_operational_headings(MANIFEST, text, &events).unwrap_err();
    assert_eq!(e.code, ParentCorpusErrorCode::MalformedManifest);
    assert_eq!(
        e.message,
        "malformed federation manifest .decided/corpus.md: federation heading must use exact lowercase spelling: ## inherits"
    );
    assert!(reject_misspelled_operational_headings(MANIFEST, "## inherits\n", &vec![heading("h2", "inherits", 0)]).is_ok());
    assert!(reject_misspelled_operational_headings(MANIFEST, "## Other\n", &vec![heading("h2", "Other", 0)]).is_ok());
    let e = reject_misspelled_operational_headings(MANIFEST, "## OVERRIDES\n", &vec![heading("h2", "OVERRIDES", 0)]).unwrap_err();
    assert!(e.message.ends_with("## overrides"));
}

#[test]
fn manifest_sections_yield_their_yaml_blocks() {
    let text = "## inherits\n\n```yaml\nversion: 2\n```\n\n## overrides\n\n```yaml\nversion: 2\nitems: []\n```\n";
    let events = vec![heading("h2", "inherits", 0), heading("h2", "overrides", 6)];
    assert_eq!(graph_inherits_block(MANIFEST, text, &events).unwrap(), "version: 2");
    assert_eq!(inherits_block(MANIFEST, text, &events).unwrap(), "version: 2");
    assert_eq!(overrides_block(MANIFEST, text, &events).unwrap().unwrap(), "version: 2\nitems: []");

    let none = "## inherits\n\n```yaml\nversion: 2\n```\n";
    assert_eq!(overrides_block(MANIFEST, none, &vec![heading("h2", "inherits", 0)]).unwrap(), None);

    let e = graph_inherits_block(MANIFEST, "# title\n", &vec![heading("h1", "title", 0)]).unwrap_err();
    assert!(e.message.ends_with("manifest must contain exactly one exact lowercase '## inherits' heading"));
    let e = inherits_block(MANIFEST, "# title\n", &vec![heading("h1", "title", 0)]).unwrap_err();
    assert!(e.message.ends_with("missing exact lowercase heading '## inherits'"));

    let twice = "## inherits\n\n## inherits\n";
    let events = vec![heading("h2", "inherits", 0), heading("h2", "inherits", 2)];
    let e = inherits_block(MANIFEST, twice, &events).unwrap_err();
    assert_eq!(e.code, ParentCorpusErrorCode::MultipleParents);
    assert_eq!(e.message, "the first federation increment accepts exactly one ## inherits declaration");

    let two_blocks = "## inherits\n```yaml\na: 1\n```\n```yaml\nb: 2\n```\n";
    let events = vec![heading("h2", "inherits", 0)];
    let e = inherits_block(MANIFEST, two_blocks, &events).unwrap_err();
    assert_eq!(e.message, "## inherits must contain exactly one fenced YAML mapping");
    let e = graph_inherits_block(MANIFEST, two_blocks, &events).unwrap_err();
    assert!(e.message.ends_with("## inherits must contain exactly one fenced yaml block"));

    let open = "## inherits\n```yaml\na: 1\n";
    let e = graph_inherits_block(MANIFEST, open, &vec![heading("h2", "inherits", 0)]).unwrap_err();
    assert!(e.message.ends_with("unterminated fenced block"));

    let misspelled = "## Overrides\n";
    let e = graph_inherits_block(MANIFEST, misspelled, &vec![heading("h2", "Overrides", 0)]).unwrap_err();
    assert!(e.message.ends_with("spelling: ## overrides"));

    let dup = "## overrides\n\n## overrides\n";
    let events = vec![heading("h2", "overrides", 0), heading("h2", "overrides", 2)];
    let e = overrides_block(MANIFEST, dup, &events).unwrap_err();
    assert!(e.message.ends_with("## overrides may appear at most once"));
}

fn string(s: &str) -> YamlNode {
    YamlNode::String(s.to_string())
}

fn nested(depth: usize) -> YamlNode {
    let mut node = YamlNode::Null;
    for _ in 0..depth {
        node = YamlNode::Sequence(vec![node]);
    }
    node
}

#[test]
fn yaml_shape_counts_nodes_in_document_order() {
    let map = YamlNode::Mapping(vec![
        (string("version"), YamlNode::Number("2".to_string())),
        (string("parents"), YamlNode::Sequence(vec![YamlNode::Bool(true), YamlNode::Null])),
    ]);
    let mut nodes = 0usize;
    assert_eq!(yaml_shape(&map, 1, &mut nodes), Ok(()));
    assert_eq!(nodes, 7);
    assert!(check_yaml_mapping(MANIFEST, "## inherits", &map).is_ok());

    let e = check_yaml_mapping(MANIFEST, "## inherits", &YamlNode::Sequence(vec![])).unwrap_err();
    assert_eq!(e.message, "malformed federation manifest .decided/corpus.md: ## inherits YAML must be one mapping");

    let bad_key = YamlNode::Mapping(vec![(YamlNode::Number("1".to_string()), YamlNode::Null)]);
    let e = check_yaml_mapping(MANIFEST, "## inherits", &bad_key).unwrap_err();
    assert!(e.message.ends_with("version 2 YAML mapping keys must be strings"));

    let tagged = YamlNode::Mapping(vec![(string("a"), YamlNode::Tagged)]);
    let e = check_yaml_mapping(MANIFEST, "## overrides", &tagged).unwrap_err();
    assert!(e.message.ends_with("version 2 YAML forbids custom tags"));

    // Thirty-two levels are accepted, thirty-three are not.
    let ok = YamlNode::Mapping(vec![(string("a"), nested(30))]);
    assert!(check_yaml_mapping(MANIFEST, "## inherits", &ok).is_ok());
    let deep = YamlNode::Mapping(vec![(string("a"), nested(31))]);
    let e = check_yaml_mapping(MANIFEST, "## inherits", &deep).unwrap_err();
    assert_eq!(e.code, ParentCorpusErrorCode::LimitExceeded);
    assert_eq!(e.message, "federation limit exceeded: dimension=yaml-depth, limit=32, observed=33");

    let wide = YamlNode::Mapping(vec![(string("a"), YamlNode::Sequence((0..16382).map(|_| YamlNode::Null).collect()))]);
    let mut count = 0usize;
    assert_eq!(yaml_shape(&wide, 1, &mut count), Err(ShapeError::TooManyNodes));
    let e = check_yaml_mapping(MANIFEST, "## inherits", &wide).unwrap_err();
    assert_eq!(e.message, "federation limit exceeded: dimension=yaml-nodes, limit=16384, observed=16385");
    let fits = YamlNode::Mapping(vec![(string("a"), YamlNode::Sequence((0..16381).map(|_| YamlNode::Null).collect()))]);
    assert!(check_yaml_mapping(MANIFEST, "## inherits", &fits).is_ok());
}

#[test]
fn version_one_declarations() {
    let mut p = raw_parent("standards", "acme/standards");
    p.digest = format!("sha256:{}", "b".repeat(64));
    let d = parent_declaration_v1(MANIFEST, 1, &p, true).unwrap();
    assert_eq!(d.version, 1);
    assert_eq!(d.alias, "standards");
    let e = parent_declaration_v1(MANIFEST, 2, &p, true).unwrap_err();
    assert!(e.message.ends_with("unsupported inheritance manifest version: 2"));
    let e = parent_declaration_v1(MANIFEST, 1, &p, false).unwrap_err();
    assert!(e.message.ends_with("'source' must be a lower-case slash-namespaced corpus identity"));
    let mut q = p.clone();
    q.root = "/abs".to_string();
    let e = parent_declaration_v1(MANIFEST, 1, &q, true).unwrap_err();
    assert_eq!(e.code, ParentCorpusErrorCode::PathEscape);
    assert_eq!(e.message, "'root' must not be absolute");
    let mut q = p.clone();
    q.digest = format!("sha256-v2:{}", "b".repeat(64));
    let e = parent_declaration_v1(MANIFEST, 1, &q, true).unwrap_err();
    assert!(e.message.ends_with("'digest' must be sha256: followed by exactly 64 lowercase hexadecimal characters"));

    let two = YamlNode::Sequence(vec![YamlNode::Mapping(vec![]), YamlNode::Mapping(vec![])]);
    let e = check_declaration_shape(MANIFEST, &two).unwrap_err();
    assert_eq!(e.code, ParentCorpusErrorCode::MultipleParents);
    let e = check_declaration_shape(MANIFEST, &YamlNode::Null).unwrap_err();
    assert!(e.message.ends_with("## inherits YAML must be one mapping"));
    assert!(check_declaration_shape(MANIFEST, &YamlNode::Mapping(vec![])).is_ok());
}
