use rac_engine::commands::{file_validation, Issue};
use rac_engine::corpus::{ArtifactKey, ArtifactOrigin, ArtifactPath, Layer};
use rac_engine::derived::{live_decisions, source_aware_artifacts};
use rac_engine::federation_graph::{entry_action, EntryAction};
use rac_engine::item::CorpusItem;

fn item(id: &str, spec: Option<&str>, live: bool, layer: Layer) -> CorpusItem {
    let source = if layer == Layer::Local { "acme/app" } else { "acme/standards" };
    CorpusItem {
        key: ArtifactKey::new(source, id),
        origin: ArtifactOrigin { source: source.to_string(), layer, pin: None, alias: None },
        artifact_path: ArtifactPath::new(source, &format!("{id}.md")),
        path: format!("decisions/{id}.md"),
        spec_name: spec.map(|s| s.to_string()),
        identifier: id.to_string(),
        identifiers: vec![id.to_string()],
        artifact_type: spec.unwrap_or("unknown").to_string(),
        title: None,
        status: None,
        live_decision: live,
        relationships: vec![],
    }
}

#[test]
fn source_aware_rows_keep_identity_and_display_path() {
    let items = vec![item("ADR-001", Some("decision"), true, Layer::Local)];
    let rows = source_aware_artifacts(&items);
    assert_eq!(rows.len(), 1);
    assert_eq!(rows[0].key, ArtifactKey::new("acme/app", "ADR-001"));
    assert_eq!(rows[0].path, ArtifactPath::new("acme/app", "ADR-001.md"));
    assert_eq!(rows[0].display_path, "decisions/ADR-001.md");
}

#[test]
fn only_live_decisions_are_listed() {
    let items = vec![
        item("ADR-001", Some("decision"), true, Layer::Local),
        item("ADR-002", Some("decision"), false, Layer::Local),
        item("REQ-001", Some("requirement"), true, Layer::Local),
        item("ADR-003", Some("decision"), true, Layer::Inherited),
    ];
    let (keys, paths) = live_decisions(&items);
    assert_eq!(keys, vec![ArtifactKey::new("acme/app", "ADR-001"), ArtifactKey::new("acme/standards", "ADR-003")]);
    assert_eq!(paths, vec!["decisions/ADR-001.md".to_string(), "decisions/ADR-003.md".to_string()]);
}

fn issue(severity: &'static str) -> Issue {
    Issue { severity, code: "c".to_string(), message: "m".to_string(), line: None }
}

#[test]
fn file_rows_follow_their_issues() {
    let decision = item("ADR-001", Some("decision"), true, Layer::Local);
    let row = file_validation(&decision, vec![issue("warning")], false);
    assert_eq!(row.status, "valid");
    assert_eq!(row.issues.len(), 1);
    assert!(row.origin.is_none());
    let row = file_validation(&decision, vec![issue("error")], false);
    assert_eq!(row.status, "invalid");
    let unknown = item("NOTE", None, false, Layer::Local);
    let row = file_validation(&unknown, vec![issue("error")], false);
    assert_eq!(row.status, "skipped");
    assert_eq!(row.artifact_type, "unknown");
    assert!(row.issues.is_empty());
    let inherited = item("ADR-009", Some("decision"), true, Layer::Inherited);
    let row = file_validation(&inherited, vec![issue("error")], true);
    assert_eq!(row.status, "valid");
    assert!(row.issues.is_empty());
    assert_eq!(row.origin.unwrap().layer, Layer::Inherited);
}

#[test]
fn snapshot_walk_decisions() {
    assert_eq!(entry_action(Some("a.md"), false, false, false, true), EntryAction::Capture);
    assert_eq!(entry_action(Some("a.md"), false, false, false, false), EntryAction::RefuseIrregular);
    assert_eq!(entry_action(Some("a.MD"), false, false, false, true), EntryAction::Skip);
    assert_eq!(entry_action(Some(".hidden"), false, false, true, false), EntryAction::Skip);
    assert_eq!(entry_action(Some("sub"), false, false, true, false), EntryAction::Descend);
    assert_eq!(entry_action(Some("link.md"), false, true, false, false), EntryAction::RefuseSymlink);
    assert_eq!(entry_action(Some("a.md"), true, true, false, true), EntryAction::Skip);
    assert_eq!(entry_action(None, false, false, false, true), EntryAction::Skip);
}
