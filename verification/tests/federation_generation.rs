use rac_engine::corpus::ArtifactKey;
use rac_engine::federation_generation::{
    closure_generation, GenerationEdge, GenerationFile, GenerationMapping, GenerationNode,
    GenerationRedirect, GraphGenerationInput,
};

fn key(source: &str, canonical_id: &str) -> ArtifactKey {
    ArtifactKey::new(source, canonical_id)
}

fn fixture() -> GraphGenerationInput {
    GraphGenerationInput {
        recursive: true,
        root_source: "acme/app".into(),
        root_corpus_path: "decisions".into(),
        root_config_bytes: b"corpus:\n  source: acme/app\n".to_vec(),
        root_manifest_bytes: Some(b"# Corpus\n\n## inherits\n\n```yaml\nversion: 2\n```\n".to_vec()),
        root_files: vec![
            GenerationFile { relative_path: "requirements/b.md".into(), bytes: b"B".to_vec() },
            GenerationFile { relative_path: "decisions/a.md".into(), bytes: b"A".to_vec() },
        ],
        inherited_nodes: vec![GenerationNode {
            source: "acme/standards".into(),
            canonical_digest: format!("sha256-v2:{}", "1".repeat(64)),
            config_bytes: b"corpus:\n  source: acme/standards\n".to_vec(),
            manifest_bytes: None,
            files: vec![GenerationFile {
                relative_path: "decisions/standard.md".into(),
                bytes: b"standard".to_vec(),
            }],
        }],
        edges: vec![GenerationEdge {
            owner_source: "acme/app".into(),
            target_source: "acme/standards".into(),
            declared_pin: format!("sha256-v2:{}", "1".repeat(64)),
            alias: "standards".into(),
            root: "vendor/standards".into(),
            corpus: "decisions".into(),
        }],
        mappings: vec![GenerationMapping {
            owner_rank: 1,
            owner_source: "acme/app".into(),
            target: key("acme/standards", "STD-0123456789AB"),
            replacement: key("acme/app", "APP-0123456789AB"),
            rationale: key("acme/app", "APP-ABCDEFGHJKMN"),
        }],
        terminal_redirects: vec![GenerationRedirect {
            target: key("acme/standards", "STD-0123456789AB"),
            terminal: key("acme/app", "APP-0123456789AB"),
        }],
    }
}

#[test]
fn generation_has_frozen_known_vector() {
    assert_eq!(
        closure_generation(&fixture()),
        "sha256-v3:2e64f14ddf26d996a5910a844d92ad66e121b1711b9899560c77257134f79c65"
    );
}

#[test]
fn semantic_table_order_does_not_change_generation() {
    let expected = closure_generation(&fixture());
    let mut permuted = fixture();
    permuted.root_files.reverse();
    permuted.inherited_nodes.reverse();
    permuted.edges.reverse();
    permuted.mappings.reverse();
    permuted.terminal_redirects.reverse();
    assert_eq!(closure_generation(&permuted), expected);
}

#[test]
fn mapping_order_uses_topological_owner_rank_before_source() {
    let mut ranked = fixture();
    ranked.mappings.push(GenerationMapping {
        owner_rank: 0,
        owner_source: "z-parent".into(),
        target: key("acme/standards", "STD-ABCDEFGHJKMN"),
        replacement: key("z-parent", "STD-ABCDEFGHJKMN"),
        rationale: key("z-parent", "DEC-ABCDEFGHJKMN"),
    });
    let expected = closure_generation(&ranked);
    ranked.mappings.reverse();
    assert_eq!(closure_generation(&ranked), expected);

    ranked.mappings[0].owner_rank = 2;
    assert_ne!(closure_generation(&ranked), expected);
}

#[test]
fn every_answer_affecting_section_changes_generation() {
    type GenerationMutation = Box<dyn Fn(&mut GraphGenerationInput)>;

    let original = fixture();
    let expected = closure_generation(&original);

    let mut mutations: Vec<GenerationMutation> = vec![
        Box::new(|input| input.recursive = false),
        Box::new(|input| input.root_source.push('2')),
        Box::new(|input| input.root_corpus_path.push('2')),
        Box::new(|input| input.root_config_bytes.push(b'2')),
        Box::new(|input| input.root_manifest_bytes.as_mut().unwrap().push(b'2')),
        Box::new(|input| input.root_files[0].bytes.push(b'2')),
        Box::new(|input| input.inherited_nodes[0].canonical_digest.push('2')),
        Box::new(|input| input.inherited_nodes[0].config_bytes.push(b'2')),
        Box::new(|input| input.inherited_nodes[0].manifest_bytes = Some(b"nested".to_vec())),
        Box::new(|input| input.inherited_nodes[0].files[0].bytes.push(b'2')),
        Box::new(|input| input.edges[0].alias.push('2')),
        Box::new(|input| input.mappings[0].rationale.canonical_id.push('2')),
        Box::new(|input| input.terminal_redirects[0].terminal.canonical_id.push('2')),
    ];

    for mutate in mutations.drain(..) {
        let mut changed = original.clone();
        mutate(&mut changed);
        assert_ne!(closure_generation(&changed), expected);
    }
}

#[test]
fn manifest_absence_differs_from_empty_manifest() {
    let mut absent = fixture();
    absent.root_manifest_bytes = None;
    let mut empty = fixture();
    empty.root_manifest_bytes = Some(Vec::new());
    assert_ne!(closure_generation(&absent), closure_generation(&empty));
}

#[test]
fn generation_is_a_prefixed_lowercase_hex_digest() {
    let generation = closure_generation(&fixture());
    let hex = generation.strip_prefix("sha256-v3:").unwrap();
    assert_eq!(hex.len(), 64);
    assert!(hex.chars().all(|c| c.is_ascii_digit() || ('a'..='f').contains(&c)));
}

#[test]
fn repeated_edges_in_any_order_give_one_generation() {
    let mut a = fixture();
    let mut second = a.edges[0].clone();
    second.alias = "std".into();
    a.edges.push(second.clone());
    a.edges.push(a.edges[0].clone());
    let mut b = fixture();
    b.edges.insert(0, second);
    b.edges.push(b.edges[1].clone());
    assert_eq!(closure_generation(&a), closure_generation(&b));
    assert_ne!(closure_generation(&a), closure_generation(&fixture()));
}

#[test]
fn absent_and_empty_manifests_differ() {
    let mut absent = fixture();
    absent.root_manifest_bytes = None;
    let mut empty = fixture();
    empty.root_manifest_bytes = Some(Vec::new());
    assert_ne!(closure_generation(&absent), closure_generation(&empty));
}
