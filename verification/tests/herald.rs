use rac_engine::herald::{render, HeraldDecision, HeraldReport, MARKER};

fn decision(id: &str) -> HeraldDecision {
    HeraldDecision {
        key: None,
        origin: None,
        id: id.to_string(),
        title: format!("{id} title"),
        status: "Accepted".to_string(),
        path: format!("decisions/{id}.md"),
        matching_entries: vec!["src/**".to_string()],
        changed_paths: vec![
            "src/a.rs".to_string(),
            "src/b.rs".to_string(),
            "src/c.rs".to_string(),
            "src/d.rs".to_string(),
        ],
    }
}

#[test]
fn empty_state_is_stable() {
    let body = render(&HeraldReport { decisions: vec![] }, "", 5);
    assert!(body.starts_with(MARKER));
    assert!(body.contains("No recorded decisions govern"));
    assert!(body.ends_with('\n'));
}

#[test]
fn overflow_and_path_collapse_match_contract() {
    let body = render(
        &HeraldReport { decisions: vec![decision("ADR-001"), decision("ADR-002")] },
        "https://example.com/blob/HEAD/",
        1,
    );
    assert!(body.contains("<details><summary>1 more governing decision</summary>"));
    assert!(body.contains("`src/a.rs`, `src/b.rs`, `src/c.rs` +1 more"));
    assert!(body.contains("https://example.com/blob/HEAD/decisions/ADR-001.md"));
}

#[test]
fn report_without_decisions_has_none() {
    assert!(!HeraldReport { decisions: vec![] }.has_decisions());
    assert!(HeraldReport { decisions: vec![decision("ADR-001")] }.has_decisions());
}

use rac_engine::corpus::{ArtifactKey, ArtifactOrigin, Layer};
use rac_engine::herald::{changed_paths, collect, collect_from_composed, GoverningMatch};

fn found(id: &str, source: Option<&str>, entry: &str) -> GoverningMatch {
    GoverningMatch {
        key: source.map(|s| ArtifactKey::new(s, id)),
        origin: source.map(|s| ArtifactOrigin { source: s.to_string(), layer: Layer::Local, pin: None, alias: None }),
        id: id.to_string(),
        title: format!("{id} title"),
        status: "Accepted".to_string(),
        path: format!("decisions/{id}.md"),
        matching_entry: entry.to_string(),
    }
}

#[test]
fn changed_paths_are_distinct_sorted_and_not_blank() {
    let paths = vec![
        "src/b.rs".to_string(),
        "src/a.rs".to_string(),
        "  ".to_string(),
        "src/a.rs".to_string(),
        String::new(),
    ];
    assert_eq!(changed_paths(&paths), vec!["src/a.rs".to_string(), "src/b.rs".to_string()]);
}

#[test]
fn collection_merges_one_decision_across_paths() {
    let lookups = vec![
        ("src/a.rs".to_string(), vec![found("ADR-001", None, "src/**/*.rs")]),
        ("src/b.rs".to_string(), vec![found("ADR-001", None, "src/**/*.rs")]),
    ];
    let report = collect(&lookups);
    assert_eq!(report.decisions.len(), 1);
    assert_eq!(report.decisions[0].changed_paths, vec!["src/a.rs".to_string(), "src/b.rs".to_string()]);
    assert_eq!(report.decisions[0].matching_entries, vec!["src/**/*.rs".to_string()]);
    assert!(report.decisions[0].origin.is_none());
}

#[test]
fn collection_orders_by_id_and_unions_scopes() {
    let lookups = vec![
        ("src/a.rs".to_string(), vec![found("ADR-002", None, "src/*.rs"), found("ADR-001", None, "src/**")]),
        ("src/b.rs".to_string(), vec![found("ADR-001", None, "src/b.rs")]),
    ];
    let report = collect(&lookups);
    let ids: Vec<&str> = report.decisions.iter().map(|d| d.id.as_str()).collect();
    assert_eq!(ids, vec!["ADR-001", "ADR-002"]);
    assert_eq!(report.decisions[0].matching_entries, vec!["src/**".to_string(), "src/b.rs".to_string()]);
    assert_eq!(report.decisions[1].changed_paths, vec!["src/a.rs".to_string()]);
}

#[test]
fn composed_collection_keeps_equal_ids_of_different_sources_apart() {
    let lookups = vec![(
        "src/a.rs".to_string(),
        vec![
            found("ADR-001", Some("zeta/standards"), "src/**"),
            found("ADR-001", Some("acme/app"), "src/**"),
            found("ADR-009", None, "src/**"),
        ],
    )];
    let report = collect_from_composed(&lookups);
    assert_eq!(report.decisions.len(), 2);
    assert_eq!(report.decisions[0].key, Some(ArtifactKey::new("acme/app", "ADR-001")));
    assert_eq!(report.decisions[1].key, Some(ArtifactKey::new("zeta/standards", "ADR-001")));
    assert!(report.decisions[0].origin.is_some());
}
