use rac_engine::corpus::{ArtifactKey, ArtifactOrigin, ArtifactPath, Layer};
use rac_engine::federation::VerifiedFederationEdge;
use rac_engine::federation_observability::{
    artifact_label, key_label, posix_display, relative_display, FederationExplainReport,
    FederationLayout, FederationNodeLayout, FederationStatusReport,
};
use rac_engine::graph_composed::GraphComposition;
use rac_engine::graph_composition::{
    GraphCompositionInput, GraphFindingReason, GraphLookupError, GraphOverrideDeclaration,
    GraphOverrideState, SourceNodeInput, SourceParentInput,
};
use rac_engine::item::CorpusItem;

const APP: &str = "acme/app";
const STD: &str = "acme/standards";
const PIN: &str = "sha256-v2:1111111111111111111111111111111111111111111111111111111111111111";

fn item(source: &str, id: &str, live: bool) -> CorpusItem {
    let origin = if source == APP {
        ArtifactOrigin { source: source.to_string(), layer: Layer::Local, pin: None, alias: None }
    } else {
        ArtifactOrigin {
            source: source.to_string(),
            layer: Layer::Inherited,
            pin: Some(PIN.to_string()),
            alias: Some("standards".to_string()),
        }
    };
    let relative = format!("decisions/{}.md", id.to_lowercase());
    CorpusItem {
        key: ArtifactKey::new(source, id),
        origin,
        artifact_path: ArtifactPath::new(source, &relative),
        path: relative.clone(),
        spec_name: Some("decision".to_string()),
        identifier: id.to_string(),
        identifiers: vec![id.to_string()],
        artifact_type: "decision".to_string(),
        title: Some(format!("{id} title")),
        status: Some("Accepted".to_string()),
        live_decision: live,
        relationships: vec![],
    }
}

fn nodes() -> Vec<SourceNodeInput> {
    vec![
        SourceNodeInput::new(APP, vec![SourceParentInput::new(STD, "standards")]),
        SourceNodeInput::new(STD, vec![]),
    ]
}

fn override_std() -> GraphOverrideDeclaration {
    GraphOverrideDeclaration::new(
        APP,
        ArtifactKey::new(STD, "STD-001"),
        ArtifactKey::new(APP, "APP-001"),
        ArtifactKey::new(APP, "APP-002"),
    )
}

fn composed() -> GraphComposition {
    let items = vec![item(STD, "STD-001", true), item(APP, "APP-001", true), item(APP, "APP-002", true)];
    match GraphComposition::compose(GraphCompositionInput::new(APP, nodes(), items, vec![override_std()])) {
        Ok(c) => c,
        Err(findings) => panic!("composition refused: {:?}", findings),
    }
}

#[test]
fn key_labels_are_source_qualified() {
    assert_eq!(key_label(&ArtifactKey::new("acme/standards", "ADR-001")), "acme/standards::ADR-001");
}

#[test]
fn relative_paths_are_posix_and_checkout_independent() {
    assert_eq!(relative_display("checkout", "checkout/vendor/standards"), "vendor/standards");
}

#[test]
fn every_override_state_has_a_stable_word() {
    assert_eq!(GraphOverrideState::Overridden.as_str(), "overridden");
    assert_eq!(GraphOverrideState::Replacement.as_str(), "replacement");
    assert_eq!(GraphOverrideState::Lineage.as_str(), "lineage");
}

#[test]
fn relative_display_falls_back_to_the_path_and_shows_the_root_as_dot() {
    assert_eq!(relative_display("/repo", "/repo"), ".");
    assert_eq!(relative_display("/repo", "/elsewhere/x"), "/elsewhere/x");
    assert_eq!(posix_display("a\\b"), "a/b");
    assert_eq!(posix_display(""), ".");
}

#[test]
fn composition_overrides_the_inherited_record_at_the_root() {
    let c = composed();
    assert_eq!(c.root_source(), APP);
    assert_eq!(c.catalog().len(), 3);
    let effective: Vec<String> = c.effective().iter().map(|it| it.key.canonical_id.clone()).collect();
    assert_eq!(effective, vec!["APP-001".to_string(), "APP-002".to_string()]);
    assert_eq!(c.root_local().len(), 2);
    assert_eq!(c.ordered_overrides().len(), 1);
    assert_eq!(
        c.terminal_from(APP, &ArtifactKey::new(STD, "STD-001")),
        Some(&ArtifactKey::new(APP, "APP-001"))
    );
    // The parent's own projection keeps its record.
    assert_eq!(
        c.terminal_from(STD, &ArtifactKey::new(STD, "STD-001")),
        Some(&ArtifactKey::new(STD, "STD-001"))
    );
    assert_eq!(c.topological_sources(), &vec![STD.to_string(), APP.to_string()]);
}

#[test]
fn unqualified_and_qualified_lookups_differ_in_what_they_select() {
    let c = composed();
    let unqualified = c.resolve_from(APP, "STD-001").unwrap();
    assert!(!unqualified.qualified);
    assert_eq!(unqualified.selected, ArtifactKey::new(APP, "APP-001"));
    assert_eq!(unqualified.effective_terminal, ArtifactKey::new(APP, "APP-001"));
    assert_eq!(unqualified.historical_candidates, vec![ArtifactKey::new(STD, "STD-001")]);

    let qualified = c.resolve_from(APP, "standards::STD-001").unwrap();
    assert!(qualified.qualified);
    assert_eq!(qualified.selected, ArtifactKey::new(STD, "STD-001"));
    assert_eq!(qualified.effective_terminal, ArtifactKey::new(APP, "APP-001"));

    assert!(matches!(c.resolve_from("acme/nope", "STD-001"), Err(GraphLookupError::UnknownContext)));
    assert!(matches!(c.resolve_from(APP, "ADR-404"), Err(GraphLookupError::NotFound)));
    assert!(matches!(c.resolve_from(APP, "a::b::c"), Err(GraphLookupError::InvalidQualifiedReference)));
    assert!(matches!(c.resolve_public("std-001"), Ok(_)));
}

#[test]
fn provenance_names_every_part_of_the_override() {
    let c = composed();
    let target = c.provenance_for(&ArtifactKey::new(STD, "STD-001")).unwrap();
    assert_eq!(target.len(), 1);
    assert_eq!(target[0].state, GraphOverrideState::Overridden);
    let replacement = c.provenance_for(&ArtifactKey::new(APP, "APP-001")).unwrap();
    assert_eq!(replacement[0].state, GraphOverrideState::Replacement);
    // The rationale is cited by the override but is not carried along it.
    let rationale = c.provenance_for(&ArtifactKey::new(APP, "APP-002")).unwrap();
    assert!(rationale.is_empty());
    assert!(c.provenance_for(&ArtifactKey::new(APP, "APP-404")).is_none());
}

#[test]
fn refused_override_is_reported_as_a_finding() {
    let items = vec![item(STD, "STD-001", true), item(APP, "APP-001", true), item(APP, "APP-002", false)];
    let refused = GraphComposition::compose(GraphCompositionInput::new(APP, nodes(), items, vec![override_std()]));
    match refused {
        Ok(_) => panic!("a non-live rationale must be refused"),
        Err(findings) => {
            assert!(findings.iter().any(|f| f.reason == GraphFindingReason::RationaleNotLive));
        }
    }
}

#[test]
fn explanation_of_an_unqualified_reference() {
    let c = composed();
    let report = FederationExplainReport::from_corpus(&c, APP, "STD-001");
    assert!(report.ok());
    assert_eq!(report.outcome, "resolved");
    assert_eq!(report.message, "the reference selects the effective source-owned artifact directly");
    assert_eq!(report.qualified, Some(false));
    assert_eq!(report.visible_sources, vec![APP.to_string(), STD.to_string()]);
    assert_eq!(report.aliases.len(), 1);
    assert_eq!(report.aliases[0].alias, "standards");
    assert_eq!(report.aliases[0].source, STD);
    let selected = report.selected.as_ref().unwrap();
    assert_eq!(selected.key, ArtifactKey::new(APP, "APP-001"));
    assert!(selected.writable);
    assert_eq!(
        artifact_label(selected),
        "acme/app::APP-001 (decision, local, decisions/app-001.md)"
    );
    assert_eq!(report.override_provenance.len(), 1);
    assert_eq!(report.override_provenance[0].state, GraphOverrideState::Replacement);
    let text = report.render_human();
    assert!(text.starts_with("RESOLVED  STD-001\nContext: acme/app\n"));
    assert!(text.contains("Selected: acme/app::APP-001 (decision, local, decisions/app-001.md)\n"));
    assert!(text.contains(
        "1. acme/app [replacement]: acme/standards::STD-001 -> acme/app::APP-001 (rationale acme/app::APP-002)"
    ));
    assert!(text.ends_with("- standards -> acme/standards"));
}

#[test]
fn explanation_of_a_qualified_reference_and_of_failures() {
    let c = composed();
    let report = FederationExplainReport::from_corpus(&c, APP, "standards::STD-001");
    assert_eq!(
        report.message,
        "the qualified reference selects source-owned history; the effective projection redirects it through explicit overrides"
    );
    assert_eq!(report.selected.as_ref().unwrap().key, ArtifactKey::new(STD, "STD-001"));
    assert!(!report.selected.as_ref().unwrap().writable);
    assert_eq!(report.override_provenance[0].state, GraphOverrideState::Overridden);

    let unknown = FederationExplainReport::from_corpus(&c, "acme/nope", "STD-001");
    assert!(!unknown.ok());
    assert_eq!(unknown.outcome, "unknown-context");
    assert!(unknown.visible_sources.is_empty());
    assert!(unknown.render_human().starts_with("UNKNOWN-CONTEXT  STD-001\n"));
    assert!(unknown.render_human().ends_with("Overrides: none"));

    let missing = FederationExplainReport::from_corpus(&c, APP, "ADR-404");
    assert_eq!(missing.outcome, "not-found");
    let invalid = FederationExplainReport::from_corpus(&c, APP, "a::b::c");
    assert_eq!(invalid.outcome, "invalid-reference");
}

fn layout() -> FederationLayout {
    FederationLayout {
        repository_root: "/repo".to_string(),
        root_source: APP.to_string(),
        root_corpus_path: "decisions".to_string(),
        root_corpus_root: "/repo/decisions".to_string(),
        root_config_path: "/repo/.decided/config.yaml".to_string(),
        manifest_path: "/repo/.decided/corpus.md".to_string(),
        nodes: vec![FederationNodeLayout {
            source: STD.to_string(),
            digest: PIN.to_string(),
            manifest_version: Some(2),
            source_route: vec![APP.to_string(), STD.to_string()],
            route_count: 1,
            config_path: "/repo/vendor/standards/.decided/config.yaml".to_string(),
            manifest_path: None,
            corpus_root: "/repo/vendor/standards/decisions".to_string(),
        }],
        edges: vec![VerifiedFederationEdge {
            owner_source: APP.to_string(),
            alias: "standards".to_string(),
            target_source: STD.to_string(),
            declared_digest: PIN.to_string(),
            canonical_digest: PIN.to_string(),
            root: "vendor/standards".to_string(),
            corpus: "decisions".to_string(),
            materialisation_root: "/repo/vendor/standards".to_string(),
            corpus_root: "/repo/vendor/standards/decisions".to_string(),
        }],
        materialisation_roots: vec!["/repo/vendor/standards".to_string(), "/repo/vendor/standards".to_string()],
    }
}

#[test]
fn status_report_counts_and_orders_the_closure() {
    let c = composed();
    let report = FederationStatusReport::from_corpus(&layout(), &c);
    assert_eq!(report.summary.sources, 2);
    assert_eq!(report.summary.inherited_sources, 1);
    assert_eq!(report.summary.edges, 1);
    assert_eq!(report.summary.physical_routes, 2);
    assert_eq!(report.summary.max_depth, 1);
    assert_eq!(report.summary.catalog_artifacts, 3);
    assert_eq!(report.summary.effective_artifacts, 2);
    assert_eq!(report.summary.root_local_artifacts, 2);
    assert_eq!(report.summary.overrides, 1);
    assert_eq!(report.read_only_roots, vec!["vendor/standards".to_string()]);
    assert_eq!(report.sources[0].source, APP);
    assert_eq!(report.sources[0].config_path, ".decided/config.yaml");
    assert_eq!(report.sources[1].artifact_count, 1);
    assert_eq!(report.sources[1].effective_artifact_count, 0);
    assert_eq!(report.edges[0].materialisation_root, "vendor/standards");
    let text = report.render_human();
    assert!(text.starts_with("PASS  Federation verified\nRoot: acme/app (decisions)\n"));
    assert!(text.contains("Sources: 2 (1 inherited) | edges: 1 | physical routes: 2 | max depth: 1\n"));
    assert!(text.contains("Artifacts: 3 catalog | 2 effective | 2 root-local | overrides: 1\n"));
    assert!(text.contains(
        "- acme/standards [inherited] artifacts 0/1; route acme/app -> acme/standards (1 physical route); read-only\n"
    ));
    assert!(text.contains("- acme/app --standards--> acme/standards (vendor/standards/decisions)\n"));
    assert!(text.ends_with("\nRead-only boundaries: 1 verified materialisation root"));
}

use rac_engine::federation::{GraphCorpusManifest, SnapshotFile, VerifiedFederation, VerifiedFederationNode};
use rac_engine::federation_generation::{closure_generation, closure_generation_from_verified, generation_input_from_verified};

fn verified() -> VerifiedFederation {
    let file = |path: &str, bytes: &[u8]| SnapshotFile {
        relative_path: path.to_string(),
        absolute_path: format!("/repo/{path}"),
        bytes: bytes.to_vec(),
    };
    VerifiedFederation {
        repository_root: "/repo".to_string(),
        root_source: APP.to_string(),
        root_corpus_path: "decisions".to_string(),
        root_corpus_root: "/repo/decisions".to_string(),
        root_files: vec![file("decisions/app-001.md", b"A")],
        root_config_path: "/repo/.decided/config.yaml".to_string(),
        root_config_bytes: b"corpus:\n  source: acme/app\n".to_vec(),
        manifest: GraphCorpusManifest {
            path: "/repo/.decided/corpus.md".to_string(),
            bytes: b"# Corpus\n".to_vec(),
            parents: vec![],
            override_mapping_bytes: None,
        },
        nodes: vec![VerifiedFederationNode {
            source: STD.to_string(),
            digest: PIN.to_string(),
            config_path: "/repo/vendor/standards/.decided/config.yaml".to_string(),
            config_bytes: b"corpus:\n  source: acme/standards\n".to_vec(),
            manifest_path: "/repo/vendor/standards/.decided/corpus.md".to_string(),
            manifest_bytes: None,
            manifest_version: None,
            override_mapping_bytes: None,
            corpus_root: "/repo/vendor/standards/decisions".to_string(),
            files: vec![file("decisions/std-001.md", b"S")],
        }],
        edges: layout().edges,
        materialisation_roots: vec!["/repo/vendor/standards".to_string()],
        corpus_roots: vec!["/repo/vendor/standards/decisions".to_string()],
    }
}

#[test]
fn generation_input_carries_the_verified_closure() {
    let c = composed();
    let v = verified();
    let input = generation_input_from_verified(&v, true, &c);
    assert_eq!(input.root_source, APP);
    assert_eq!(input.root_manifest_bytes, Some(b"# Corpus\n".to_vec()));
    assert_eq!(input.inherited_nodes.len(), 1);
    assert_eq!(input.inherited_nodes[0].canonical_digest, PIN);
    assert_eq!(input.edges[0].declared_pin, PIN);
    assert_eq!(input.mappings.len(), 1);
    assert_eq!(input.mappings[0].target, ArtifactKey::new(STD, "STD-001"));
    assert_eq!(input.terminal_redirects.len(), 1);
    assert_eq!(input.terminal_redirects[0].terminal, ArtifactKey::new(APP, "APP-001"));
    assert_eq!(closure_generation_from_verified(&v, true, &c), closure_generation(&input));
    assert_ne!(closure_generation_from_verified(&v, false, &c), closure_generation(&input));
}

#[test]
fn the_topological_order_lists_each_source_once_and_ends_at_the_root() {
    let graph = composed();
    let order = graph.topological_sources();
    assert_eq!(order, &vec![STD.to_string(), APP.to_string()]);
    assert_eq!(order.last().map(String::as_str), Some(graph.root_source()));
}

#[test]
fn a_source_outside_the_graph_sees_nothing() {
    let graph = composed();
    assert!(graph.visibility().is_visible(APP, STD));
    assert!(!graph.visibility().is_visible(STD, APP));
    assert!(!graph.visibility().is_visible("zeta/other", APP));
    assert!(!graph.visibility().is_visible("zeta/other", "zeta/other"));
}
