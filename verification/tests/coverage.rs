use rac_engine::corpus::{ArtifactKey, ArtifactOrigin, ArtifactPath, Layer};
use rac_engine::coverage::{analyze_coverage, Relationship, GAP_UNAPPLIED, GAP_UNSCHEDULED, GAP_UNSCOPED};
use rac_engine::index::{build_repository_index, build_repository_index_from_items};
use rac_engine::item::CorpusItem;

fn item(id: &str, kind: Option<&str>, path: &str) -> CorpusItem {
    CorpusItem {
        key: ArtifactKey::new("acme/app", id),
        origin: ArtifactOrigin { source: "acme/app".to_string(), layer: Layer::Local, pin: None, alias: None },
        artifact_path: ArtifactPath::new("acme/app", path),
        path: format!("decisions/{path}"),
        spec_name: kind.map(|k| k.to_string()),
        identifier: id.to_string(),
        identifiers: vec![id.to_string(), id.to_lowercase()],
        artifact_type: kind.unwrap_or("unknown").to_string(),
        title: Some(format!("{id} title")),
        status: None,
        live_decision: false,
        relationships: vec![],
    }
}

fn edge(from: &str, to: Option<&str>) -> Relationship {
    Relationship {
        source_artifact: Some(ArtifactPath::new("acme/app", from)),
        resolved_artifact: to.map(|t| ArtifactPath::new("acme/app", t)),
    }
}

#[test]
fn every_gap_class_is_found_and_ordered() {
    let items = vec![
        item("REQ-001", Some("requirement"), "req1.md"),
        item("REQ-002", Some("requirement"), "req2.md"),
        item("ADR-001", Some("decision"), "adr1.md"),
        item("ADR-002", Some("decision"), "adr2.md"),
        item("RM-001", Some("roadmap"), "rm1.md"),
        item("RM-002", Some("roadmap"), "rm2.md"),
        item("NOTE", None, "note.md"),
    ];
    let rels = vec![
        edge("rm1.md", Some("req1.md")),
        edge("req2.md", Some("adr1.md")),
        edge("adr2.md", Some("adr2.md")),
        edge("rm2.md", None),
    ];
    let report = analyze_coverage("decisions", &items, &rels);
    let got: Vec<(&str, &str)> = report.gaps.iter().map(|g| (g.gap, g.id.as_str())).collect();
    assert_eq!(
        got,
        vec![
            (GAP_UNSCHEDULED, "REQ-002"),
            (GAP_UNAPPLIED, "ADR-002"),
            (GAP_UNSCOPED, "RM-002"),
        ]
    );
    assert_eq!(report.counts(), (1, 1, 1));
    assert_eq!(report.gaps[0].missing, "no roadmap schedules this requirement");
    assert!(report.gaps[0].artifact_path.is_none());
    assert_eq!(report.directory, "decisions");
}

#[test]
fn gaps_of_one_class_are_ordered_by_path() {
    let items = vec![
        item("REQ-009", Some("requirement"), "z.md"),
        item("REQ-001", Some("requirement"), "a.md"),
    ];
    let report = analyze_coverage("decisions", &items, &vec![]);
    let ids: Vec<&str> = report.gaps.iter().map(|g| g.id.as_str()).collect();
    assert_eq!(ids, vec!["REQ-001", "REQ-009"]);
    assert_eq!(report.counts(), (2, 0, 0));
}

#[test]
fn index_rows_keep_walk_order_and_identity() {
    let items = vec![item("ADR-002", Some("decision"), "b.md"), item("ADR-001", Some("decision"), "a.md")];
    let index = build_repository_index("decisions", &items, true);
    assert_eq!(index.artifacts.len(), 2);
    assert_eq!(index.artifacts[0].id, "ADR-002");
    assert_eq!(index.artifacts[0].aliases, vec!["ADR-002".to_string(), "adr-002".to_string()]);
    assert!(index.artifacts[0].origin.is_none());
    assert!(index.recursive);
    let composed = build_repository_index_from_items("decisions", &items, false);
    assert_eq!(composed.artifacts[1].origin.as_ref().unwrap().source, "acme/app");
}
