use rac_engine::composition::{
    valid_source_alias, CanonicalId, ComposedCorpus, InvalidOverrideReason, LookupError,
    OverrideDeclaration, OverrideSyntaxError, ParentIdentity, QualifiedCanonicalId,
    FINDING_CANONICAL_COLLISION, FINDING_INVALID_OVERRIDE,
};
use rac_engine::corpus::{ArtifactKey, ArtifactOrigin, ArtifactPath, Layer};
use rac_engine::federated_corpus::{accept_composition, FederatedCorpusError};
use rac_engine::item::CorpusItem;
use sha2::Digest;

const CHILD: &str = "acme/app";
const PARENT: &str = "acme/standards";

fn item(source: &str, id: &str, spec: &str, live: bool) -> CorpusItem {
    let origin = if source == CHILD {
        ArtifactOrigin { source: source.to_string(), layer: Layer::Local, pin: None, alias: None }
    } else {
        ArtifactOrigin {
            source: source.to_string(),
            layer: Layer::Inherited,
            pin: Some("sha256:00".to_string()),
            alias: Some("std".to_string()),
        }
    };
    let relative = format!("{}/{}.md", spec, id.to_lowercase());
    CorpusItem {
        key: ArtifactKey::new(source, id),
        origin,
        artifact_path: ArtifactPath::new(source, &relative),
        path: relative.clone(),
        spec_name: Some(spec.to_string()),
        identifier: id.to_string(),
        identifiers: vec![id.to_string()],
        artifact_type: spec.to_string(),
        title: None,
        status: None,
        live_decision: live,
        relationships: vec![],
    }
}

fn parent() -> ParentIdentity {
    ParentIdentity::new(PARENT, "std").unwrap()
}

fn composed_with_override() -> ComposedCorpus {
    let local = vec![
        item(CHILD, "REQ-APP-1", "requirement", false),
        item(CHILD, "ADR-1", "decision", true),
    ];
    let inherited = vec![
        item(PARENT, "REQ-STD-1", "requirement", false),
        item(PARENT, "REQ-STD-2", "requirement", false),
    ];
    let decl = OverrideDeclaration::parse("std::REQ-STD-1", "REQ-APP-1", "ADR-1").unwrap();
    ComposedCorpus::compose(local, inherited, parent(), vec![decl])
}

#[test]
fn syntax_of_identifiers_and_aliases() {
    assert!(valid_source_alias("std"));
    assert!(valid_source_alias("a1-b_c.d"));
    assert!(!valid_source_alias(""));
    assert!(!valid_source_alias("Std"));
    assert!(!valid_source_alias("1std"));
    assert!(!valid_source_alias("std/x"));
    assert_eq!(CanonicalId::new("").unwrap_err(), OverrideSyntaxError::InvalidCanonicalId);
    assert_eq!(CanonicalId::new(" X").unwrap_err(), OverrideSyntaxError::InvalidCanonicalId);
    assert_eq!(CanonicalId::new("a::b").unwrap_err(), OverrideSyntaxError::QualifiedLocalId);
    assert_eq!(CanonicalId::new("REQ-1").unwrap().as_str(), "REQ-1");
    assert_eq!(
        QualifiedCanonicalId::parse("REQ-1").unwrap_err(),
        OverrideSyntaxError::ParentMustBeQualified
    );
    assert_eq!(
        QualifiedCanonicalId::parse("std::a::b").unwrap_err(),
        OverrideSyntaxError::InvalidQualifiedId
    );
    assert_eq!(
        QualifiedCanonicalId::parse("Std::REQ-1").unwrap_err(),
        OverrideSyntaxError::InvalidSourceAlias
    );
    let q = QualifiedCanonicalId::parse("std::REQ-1").unwrap();
    assert_eq!(q.alias(), "std");
    assert_eq!(q.canonical_id().as_str(), "REQ-1");
    assert_eq!(q.text(), "std::REQ-1");
    assert_eq!(ParentIdentity::new(PARENT, "Bad").unwrap_err(), OverrideSyntaxError::InvalidSourceAlias);
    assert_eq!(
        OverrideDeclaration::parse("std::REQ-1", "", "ADR-1").unwrap_err(),
        OverrideSyntaxError::InvalidCanonicalId
    );
    assert_eq!(
        OverrideSyntaxError::InvalidQualifiedId.message(),
        "qualified id must contain exactly one `::` delimiter"
    );
}

#[test]
fn local_composition_resolves_case_insensitively() {
    let c = ComposedCorpus::local(vec![
        item(CHILD, "REQ-2", "requirement", false),
        item(CHILD, "REQ-1", "requirement", false),
    ]);
    assert!(c.parent().is_none());
    assert!(c.overrides().is_empty());
    assert_eq!(c.catalog().len(), 2);
    assert_eq!(c.catalog()[0].identifier, "REQ-1");
    assert_eq!(c.local_items().len(), 2);
    assert_eq!(c.effective().len(), 2);
    assert_eq!(c.resolve("req-2").unwrap().identifier, "REQ-2");
    assert_eq!(c.resolve("REQ-3"), Err(LookupError::NotFound));
    assert_eq!(c.resolve("std::REQ-1"), Err(LookupError::NotFound));
}

#[test]
fn valid_override_hides_parent_and_answers_replacement() {
    let c = composed_with_override();
    assert!(c.findings().is_empty());
    assert_eq!(c.overrides().len(), 1);
    let o = &c.overrides()[0];
    assert_eq!(o.parent, ArtifactKey::new(PARENT, "REQ-STD-1"));
    assert_eq!(o.replacement, ArtifactKey::new(CHILD, "REQ-APP-1"));
    assert_eq!(o.rationale, ArtifactKey::new(CHILD, "ADR-1"));
    assert!(c.is_overridden(&ArtifactKey::new(PARENT, "REQ-STD-1")));
    assert!(!c.is_overridden(&ArtifactKey::new(PARENT, "REQ-STD-2")));

    let effective: Vec<String> = c.effective().iter().map(|i| i.identifier.clone()).collect();
    assert_eq!(effective.len(), 3);
    assert!(!effective.contains(&"REQ-STD-1".to_string()));
    assert_eq!(c.catalog().len(), 4);
    assert_eq!(c.local_items().len(), 2);

    // The overridden identifier answers with the replacement.
    assert_eq!(c.resolve("REQ-STD-1").unwrap().key, ArtifactKey::new(CHILD, "REQ-APP-1"));
    // The qualified form keeps the parent's history reachable.
    assert_eq!(c.resolve("std::REQ-STD-1").unwrap().key, ArtifactKey::new(PARENT, "REQ-STD-1"));
    assert_eq!(c.resolve("REQ-STD-2").unwrap().key, ArtifactKey::new(PARENT, "REQ-STD-2"));
    assert_eq!(c.item(&ArtifactKey::new(PARENT, "REQ-STD-1")).unwrap().identifier, "REQ-STD-1");
    assert!(c.item(&ArtifactKey::new(PARENT, "NOPE")).is_none());
    assert!(c.content(&ArtifactKey::new(PARENT, "REQ-STD-1")).is_none());
}

#[test]
fn qualified_reference_errors() {
    let c = composed_with_override();
    assert_eq!(c.resolve("std::"), Err(LookupError::InvalidQualifiedReference));
    assert_eq!(c.resolve("std::a::b"), Err(LookupError::InvalidQualifiedReference));
    assert_eq!(c.resolve("other::REQ-STD-2"), Err(LookupError::NotFound));
    assert_eq!(c.resolve("std::REQ-APP-1"), Err(LookupError::NotFound));
}

#[test]
fn override_rejections_are_findings() {
    let local = vec![
        item(CHILD, "REQ-APP-1", "requirement", false),
        item(CHILD, "ADR-1", "decision", false),
        item(CHILD, "NOTE-1", "note", false),
    ];
    let inherited = vec![item(PARENT, "REQ-STD-1", "requirement", false)];
    let cases = vec![
        (("other::REQ-STD-1", "REQ-APP-1", "ADR-1"), InvalidOverrideReason::ParentAliasMismatch),
        (("std::REQ-MISSING", "REQ-APP-1", "ADR-1"), InvalidOverrideReason::ParentNotFound),
        (("std::REQ-STD-1", "REQ-NONE", "ADR-1"), InvalidOverrideReason::ReplacementNotFound),
        (("std::REQ-STD-1", "NOTE-1", "ADR-1"), InvalidOverrideReason::TypeMismatch),
        (("std::REQ-STD-1", "REQ-APP-1", "ADR-9"), InvalidOverrideReason::RationaleNotFound),
        (("std::REQ-STD-1", "REQ-APP-1", "NOTE-1"), InvalidOverrideReason::RationaleNotDecision),
        (("std::REQ-STD-1", "REQ-APP-1", "ADR-1"), InvalidOverrideReason::RationaleNotLive),
    ];
    for ((p, r, q), reason) in cases {
        let decl = OverrideDeclaration::parse(p, r, q).unwrap();
        let c = ComposedCorpus::compose(local.clone(), inherited.clone(), parent(), vec![decl]);
        assert!(c.overrides().is_empty(), "{p} {r} {q}");
        assert_eq!(c.findings().len(), 1, "{p} {r} {q}");
        assert_eq!(c.findings()[0].code, FINDING_INVALID_OVERRIDE);
        assert_eq!(c.findings()[0].reason, Some(reason), "{p} {r} {q}");
        assert_eq!(c.effective().len(), 4);
    }
    assert_eq!(InvalidOverrideReason::RationaleNotLive.as_str(), "rationale-not-live");
}

#[test]
fn duplicate_parent_declarations_are_rejected() {
    let local = vec![
        item(CHILD, "REQ-APP-1", "requirement", false),
        item(CHILD, "ADR-1", "decision", true),
    ];
    let inherited = vec![item(PARENT, "REQ-STD-1", "requirement", false)];
    let d1 = OverrideDeclaration::parse("std::REQ-STD-1", "REQ-APP-1", "ADR-1").unwrap();
    let d2 = OverrideDeclaration::parse("std::req-std-1", "REQ-APP-1", "ADR-1").unwrap();
    let c = ComposedCorpus::compose(local, inherited, parent(), vec![d1, d2]);
    assert!(c.overrides().is_empty());
    assert_eq!(c.findings().len(), 2);
    for f in c.findings() {
        assert_eq!(f.reason, Some(InvalidOverrideReason::DuplicateParent));
    }
}

#[test]
fn shared_canonical_ids_collide_and_become_ambiguous() {
    let local = vec![item(CHILD, "REQ-1", "requirement", false)];
    let inherited = vec![item(PARENT, "REQ-1", "requirement", false)];
    let c = ComposedCorpus::compose(local, inherited, parent(), vec![]);
    assert_eq!(c.findings().len(), 1);
    assert_eq!(c.findings()[0].code, FINDING_CANONICAL_COLLISION);
    match c.resolve("req-1") {
        Err(LookupError::Ambiguous(keys)) => {
            assert_eq!(keys.len(), 2);
            assert!(keys.contains(&ArtifactKey::new(CHILD, "REQ-1")));
            assert!(keys.contains(&ArtifactKey::new(PARENT, "REQ-1")));
        }
        other => panic!("expected ambiguity, got {other:?}"),
    }
    assert_eq!(c.resolve("std::REQ-1").unwrap().key, ArtifactKey::new(PARENT, "REQ-1"));
}

#[test]
fn findings_are_the_refusals_and_collisions_in_key_order() {
    let local = vec![
        item(CHILD, "REQ-1", "requirement", false),
        item(CHILD, "ADR-1", "decision", true),
    ];
    let inherited = vec![item(PARENT, "REQ-1", "requirement", false), item(PARENT, "REQ-9", "requirement", false)];
    let bad = OverrideDeclaration::parse("std::REQ-MISSING", "REQ-1", "ADR-1").unwrap();
    let c = ComposedCorpus::compose(local, inherited, parent(), vec![bad]);
    assert_eq!(c.findings().len(), 2);
    assert_eq!(c.findings()[0].code, FINDING_CANONICAL_COLLISION);
    assert_eq!(c.findings()[0].reason, None);
    assert_eq!(c.findings()[1].code, FINDING_INVALID_OVERRIDE);
    assert_eq!(c.findings()[1].reason, Some(InvalidOverrideReason::ParentNotFound));
}

#[test]
fn captured_content_keeps_the_last_capture_of_a_known_key() {
    let local = vec![item(CHILD, "REQ-1", "requirement", false)];
    let captured = vec![
        (ArtifactKey::new(CHILD, "REQ-1"), b"first".to_vec()),
        (ArtifactKey::new(CHILD, "NOPE"), b"x".to_vec()),
        (ArtifactKey::new(CHILD, "REQ-1"), b"second".to_vec()),
    ];
    let c = ComposedCorpus::compose_with_content(local, vec![], parent(), vec![], captured);
    assert_eq!(c.content(&ArtifactKey::new(CHILD, "REQ-1")).unwrap(), &b"second".to_vec());
    assert!(c.content(&ArtifactKey::new(CHILD, "NOPE")).is_none());
}

#[test]
fn a_composition_with_any_finding_is_refused_at_the_manifest() {
    let accepted = accept_composition(composed_with_override(), ".decided/federation.yml", CHILD, PARENT);
    assert!(accepted.is_ok());

    let local = vec![item(CHILD, "REQ-APP-1", "requirement", false), item(CHILD, "ADR-1", "decision", true)];
    let inherited = vec![item(PARENT, "REQ-STD-1", "requirement", false)];
    let decl = OverrideDeclaration::parse("std::REQ-MISSING", "REQ-APP-1", "ADR-1").unwrap();
    let refused = ComposedCorpus::compose(local, inherited, parent(), vec![decl]);
    let first_message = refused.findings()[0].message.clone();
    match accept_composition(refused, ".decided/federation.yml", CHILD, PARENT) {
        Err(error) => {
            assert_eq!(error.stable_code(), FINDING_INVALID_OVERRIDE);
            assert_eq!(error.path(), Some(".decided/federation.yml"));
            match error {
                FederatedCorpusError::Composition { message, .. } => assert_eq!(
                    message,
                    format!("{first_message} (child source 'acme/app', parent source 'acme/standards')")
                ),
                other => panic!("unexpected {other:?}"),
            }
        }
        Ok(_) => panic!("a composition with a finding was accepted"),
    }
}

#[test]
fn export_projection_checks_pins_content_and_findings() {
    let full_pin = format!("sha256:{}", "ab".repeat(32));
    let local = vec![item(CHILD, "REQ-1", "requirement", false)];
    let mut std_item = item(PARENT, "REQ-STD-1", "requirement", false);
    std_item.origin.pin = Some(full_pin.clone());
    let captured = vec![
        (ArtifactKey::new(CHILD, "REQ-1"), b"line one\r\nline two\r".to_vec()),
        (ArtifactKey::new(PARENT, "REQ-STD-1"), b"standard\n".to_vec()),
    ];
    let c = ComposedCorpus::compose_with_content(local.clone(), vec![std_item.clone()], parent(), vec![], captured.clone());
    let records = rac_engine::export::export_projection(&c, false, false).unwrap();
    assert_eq!(records.len(), 2);
    let req = records.iter().find(|r| r.key == ArtifactKey::new(CHILD, "REQ-1")).unwrap();
    assert_eq!(req.text, "line one\nline two\n");
    let digest: String = sha2::Sha256::digest(req.text.as_bytes()).iter().map(|b| format!("{b:02x}")).collect();
    assert_eq!(req.content_digest, digest);
    let local_only = rac_engine::export::export_projection(&c, true, false).unwrap();
    assert_eq!(local_only.len(), 1);

    // An inherited record without a complete pin is refused.
    let short = item(PARENT, "REQ-STD-1", "requirement", false);
    let c = ComposedCorpus::compose_with_content(local.clone(), vec![short], parent(), vec![], captured.clone());
    let e = rac_engine::export::export_projection(&c, false, false).unwrap_err();
    assert_eq!(
        e.message(),
        "federated-export-missing-pin: inherited record acme/standards::REQ-STD-1 does not carry a full lowercase SHA-256 pin"
    );

    // Content that was never captured is refused.
    let c = ComposedCorpus::compose_with_content(local.clone(), vec![std_item.clone()], parent(), vec![], vec![captured[1].clone()]);
    let e = rac_engine::export::export_projection(&c, false, false).unwrap_err();
    assert_eq!(e.message(), "federated-export-snapshot-missing: verified content is unavailable for acme/app::REQ-1");

    // Content that is not UTF-8 is refused.
    let bad = vec![(ArtifactKey::new(CHILD, "REQ-1"), vec![0xff]), captured[1].clone()];
    let c = ComposedCorpus::compose_with_content(local.clone(), vec![std_item.clone()], parent(), vec![], bad);
    let e = rac_engine::export::export_projection(&c, false, false).unwrap_err();
    assert_eq!(e.message(), "federated-export-invalid-utf8: content for acme/app::REQ-1 is not valid UTF-8");

    // A composition with a finding is refused with it.
    let decl = OverrideDeclaration::parse("std::REQ-MISSING", "REQ-1", "REQ-1").unwrap();
    let c = ComposedCorpus::compose_with_content(local, vec![std_item], parent(), vec![decl], captured);
    let first = format!("{}: {}", c.findings()[0].code, c.findings()[0].message);
    let e = rac_engine::export::export_projection(&c, false, false).unwrap_err();
    assert_eq!(e.message(), first);
}
