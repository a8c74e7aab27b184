use rac_engine::corpus::{ArtifactKey, ArtifactOrigin, ArtifactPath, CorpusLayer, Layer};
use rac_engine::coverage::Relationship;
use rac_engine::derived::{CanonicalRedirect, SourceAwareArtifact};
use rac_engine::derived_model::{validate_federated_model, DerivedModel, FederatedCacheError, ModelRow};

fn layer(source: &str, kind: Layer) -> CorpusLayer {
    CorpusLayer { source: source.to_string(), layer: kind, pin: None, alias: None }
}

fn origin(source: &str, kind: Layer) -> ArtifactOrigin {
    ArtifactOrigin { source: source.to_string(), layer: kind, pin: None, alias: None }
}

fn row(source: &str, kind: Layer, id: &str) -> ModelRow {
    ModelRow {
        key: Some(ArtifactKey::new(source, id)),
        artifact_path: Some(ArtifactPath::new(source, &format!("{id}.md"))),
        origin: Some(origin(source, kind)),
        path: format!("{id}.md"),
    }
}

fn verified_layers() -> Vec<CorpusLayer> {
    vec![layer("acme/app", Layer::Local), layer("acme/standards", Layer::Inherited)]
}

fn good_model() -> DerivedModel {
    let artifact = SourceAwareArtifact {
        key: ArtifactKey::new("acme/app", "ADR-1"),
        path: ArtifactPath::new("acme/app", "ADR-1.md"),
        origin: origin("acme/app", Layer::Local),
        display_path: "ADR-1.md".to_string(),
    };
    DerivedModel {
        layers: vec![layer("acme/standards", Layer::Inherited), layer("acme/app", Layer::Local)],
        source_artifacts: vec![artifact],
        index_entries: vec![row("acme/app", Layer::Local, "ADR-1")],
        resolution_entries: vec![
            row("acme/app", Layer::Local, "ADR-1"),
            row("acme/standards", Layer::Inherited, "STD-1"),
        ],
        canonical_redirects: vec![CanonicalRedirect {
            parent: ArtifactKey::new("acme/standards", "STD-1"),
            replacement: ArtifactKey::new("acme/app", "ADR-1"),
            rationale: ArtifactKey::new("acme/app", "ADR-1"),
        }],
        live_decision_keys: vec![ArtifactKey::new("acme/app", "ADR-1")],
        live_decision_paths: vec!["ADR-1.md".to_string()],
        scope_rows: vec![row("acme/app", Layer::Local, "ADR-1")],
        relationships: vec![Relationship {
            source_artifact: Some(ArtifactPath::new("acme/app", "ADR-1.md")),
            resolved_artifact: None,
        }],
    }
}

fn message(r: Result<(), FederatedCacheError>) -> String {
    match r {
        Ok(()) => String::new(),
        Err(FederatedCacheError::InvalidModel { message }) => message,
        Err(other) => format!("{other:?}"),
    }
}

#[test]
fn a_model_that_agrees_with_the_verified_layers_is_accepted() {
    assert_eq!(validate_federated_model(&verified_layers(), &good_model()), Ok(()));
}

#[test]
fn a_model_with_other_layers_is_refused() {
    let mut model = good_model();
    model.layers.pop();
    assert_eq!(
        message(validate_federated_model(&verified_layers(), &model)),
        "derived layers do not match the verified generation"
    );
}

#[test]
fn a_scope_row_without_origin_is_refused() {
    let mut model = good_model();
    model.scope_rows[0].origin = None;
    assert_eq!(
        message(validate_federated_model(&verified_layers(), &model)),
        "scope or liveness projection is not source-aware"
    );
}

#[test]
fn identity_rows_must_keep_every_verified_source() {
    let mut model = good_model();
    model.resolution_entries.pop();
    model.canonical_redirects.clear();
    assert_eq!(
        message(validate_federated_model(&verified_layers(), &model)),
        "identity projection does not retain both verified sources"
    );
}

#[test]
fn a_relationship_endpoint_that_climbs_out_is_refused() {
    let mut model = good_model();
    model.relationships[0].resolved_artifact = Some(ArtifactPath::new("acme/app", "../secret.md"));
    assert_eq!(
        message(validate_federated_model(&verified_layers(), &model)),
        "relationship projection contains an invalid endpoint"
    );
}

#[test]
fn an_identity_row_without_provenance_is_refused() {
    let mut model = good_model();
    model.resolution_entries[1].origin = None;
    assert_eq!(
        message(validate_federated_model(&verified_layers(), &model)),
        "identity projection is missing source provenance"
    );
}

#[test]
fn cache_errors_keep_their_stable_codes() {
    let refused = validate_federated_model(&verified_layers(), &DerivedModel { layers: vec![], ..good_model() });
    assert_eq!(refused.unwrap_err().stable_code(), "federated-cache-invalid-model");
    let composed = FederatedCacheError::composition("cross-corpus-invalid-override", "bad mapping");
    assert_eq!(composed.stable_code(), "cross-corpus-invalid-override");
    let snapshot = FederatedCacheError::ChildSnapshot { logical_path: "a.md".to_string(), message: "gone".to_string() };
    assert_eq!(snapshot.stable_code(), "federated-child-snapshot-failed");
}

#[test]
fn an_origin_must_be_the_layer_its_source_resolves_to() {
    let mut pinned = layer("acme/standards", Layer::Inherited);
    pinned.pin = Some("sha256-v2:ff".to_string());
    let mut layers = verified_layers();
    layers.push(pinned.clone());
    let mut model = good_model();
    model.layers.push(pinned);
    assert_eq!(
        message(validate_federated_model(&layers, &model)),
        "identity projection contains physical or mismatched paths"
    );
}
