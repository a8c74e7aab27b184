use rac_engine::corpus::{ArtifactKey, ArtifactOrigin, ArtifactPath, Layer};
use rac_engine::export::{
    full_graph_corpus_pin, full_pin_with_prefix, full_sha256_pin, graph_export_edges, normalize_newlines,
    EdgeKind, ExportIdentity,
};
use rac_engine::graph_composed::GraphComposition;
use rac_engine::graph_composition::{
    GraphCompositionInput, GraphOverrideDeclaration, SourceNodeInput, SourceParentInput,
};
use rac_engine::item::{CorpusItem, DeclaredRelationship};

const APP: &str = "acme/app";
const STD: &str = "acme/standards";
const HEX: &str = "0123456789abcdef0123456789abcdef0123456789abcdef0123456789abcdef";

fn item(source: &str, id: &str, relationships: Vec<DeclaredRelationship>) -> CorpusItem {
    let origin = if source == APP {
        ArtifactOrigin { source: source.to_string(), layer: Layer::Local, pin: None, alias: None }
    } else {
        ArtifactOrigin {
            source: source.to_string(),
            layer: Layer::Inherited,
            pin: Some(format!("sha256-v2:{HEX}")),
            alias: Some("standards".to_string()),
        }
    };
    let relative = format!("decisions/{}.md", id.to_lowercase());
    CorpusItem {
        key: ArtifactKey::new(source, id),
        origin,
        artifact_path: ArtifactPath::new(source, &relative),
        path: relative.clone(),
        spec_name: Some("decision".to_string()),
        identifier: id.to_string(),
        identifiers: vec![id.to_string()],
        artifact_type: "decision".to_string(),
        title: None,
        status: None,
        live_decision: true,
        relationships,
    }
}

fn composed() -> GraphComposition {
    let relates = DeclaredRelationship {
        relationship: "relates-to".to_string(),
        external: false,
        references: vec!["STD-001".to_string(), "NOPE-9".to_string()],
    };
    let items = vec![
        item(STD, "STD-001", vec![]),
        item(APP, "APP-001", vec![]),
        item(APP, "APP-002", vec![relates]),
    ];
    let nodes = vec![
        SourceNodeInput::new(APP, vec![SourceParentInput::new(STD, "standards")]),
        SourceNodeInput::new(STD, vec![]),
    ];
    let decl = GraphOverrideDeclaration::new(
        APP,
        ArtifactKey::new(STD, "STD-001"),
        ArtifactKey::new(APP, "APP-001"),
        ArtifactKey::new(APP, "APP-002"),
    );
    match GraphComposition::compose(GraphCompositionInput::new(APP, nodes, items, vec![decl])) {
        Ok(c) => c,
        Err(findings) => panic!("composition refused: {:?}", findings),
    }
}

#[test]
fn complete_pins_carry_sixty_four_lower_hex_digits() {
    assert!(full_sha256_pin(&format!("sha256:{HEX}")));
    assert!(!full_sha256_pin(&format!("sha256:{}", &HEX[1..])));
    assert!(!full_sha256_pin(&format!("sha256:{}", HEX.to_uppercase())));
    assert!(!full_sha256_pin(&format!("sha256-v2:{HEX}")));
    assert!(full_graph_corpus_pin(&format!("sha256-v2:{HEX}")));
    assert!(full_graph_corpus_pin(&format!("sha256:{HEX}")));
    assert!(!full_graph_corpus_pin(&format!("sha512:{HEX}")));
    assert!(!full_pin_with_prefix("sha256:0123456789abcdef", "sha256:"));
}

#[test]
fn export_identity_is_the_key_source_and_id() {
    let identity = ExportIdentity::from_key(&ArtifactKey::new(STD, "STD-001"));
    assert_eq!(identity, ExportIdentity { source: STD.to_string(), id: "STD-001".to_string() });
}

#[test]
fn graph_edges_follow_redirects_and_keep_the_authored_token() {
    let graph = composed();
    let kinds = vec![EdgeKind { name: "relates-to".to_string(), directional: true, external_provider: true }];
    let included = vec![ArtifactKey::new(APP, "APP-002")];
    let provider = Some("jira".to_string());
    let edges = match graph_export_edges(&graph, &included, &graph.terminal_redirects(), &kinds, &provider) {
        Ok(edges) => edges,
        Err(error) => panic!("{}", error.message()),
    };
    assert_eq!(edges.len(), 2);
    assert!(edges.iter().all(|edge| edge.source == "APP-002" && edge.directed));
    assert!(edges.iter().all(|edge| edge.provider.as_deref() == Some("jira")));
    assert!(edges.windows(2).all(|pair| pair[0].authored_token <= pair[1].authored_token));
    let unresolved = edges.iter().find(|edge| edge.authored_token.as_deref() == Some("NOPE-9")).unwrap();
    assert!(!unresolved.resolved);
    assert_eq!(unresolved.target, "NOPE-9");
    assert_eq!(unresolved.effective_terminal, None);
    let resolved = edges.iter().find(|edge| edge.authored_token.as_deref() == Some("STD-001")).unwrap();
    assert!(resolved.resolved);
    assert_eq!(resolved.target, "APP-001");
    assert_eq!(
        resolved.effective_terminal,
        Some(ExportIdentity { source: APP.to_string(), id: "APP-001".to_string() })
    );
    assert_eq!(resolved.target_identity, resolved.effective_terminal);
}

#[test]
fn graph_edges_leave_out_artifacts_that_are_not_exported() {
    let graph = composed();
    let edges = match graph_export_edges(&graph, &vec![], &graph.terminal_redirects(), &vec![], &None) {
        Ok(edges) => edges,
        Err(error) => panic!("{}", error.message()),
    };
    assert!(edges.is_empty());
}

#[test]
fn newlines_are_normalized_like_universal_newline_reads() {
    assert_eq!(normalize_newlines("a\r\nb\rc\n\r\r\n"), "a\nb\nc\n\n\n");
    assert_eq!(normalize_newlines("plain"), "plain");
    assert_eq!(normalize_newlines(""), "");
}
