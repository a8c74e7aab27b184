use rac_engine::corpus::{
    compatible_corpus_name, ArtifactKey, ArtifactPath, CorpusLayer, Layer, PhysicalArtifactLocator,
    PhysicalCorpusLocator,
};

#[test]
fn composite_keys_order_by_source_then_local_identity() {
    let mut keys = [
        ArtifactKey::new("zeta/standards", "ADR-001"),
        ArtifactKey::new("acme/app", "ADR-002"),
        ArtifactKey::new("acme/app", "ADR-001"),
    ];
    keys.sort();
    assert_eq!(
        keys.iter()
            .map(|key| (key.source.as_str(), key.canonical_id.as_str()))
            .collect::<Vec<_>>(),
        vec![
            ("acme/app", "ADR-001"),
            ("acme/app", "ADR-002"),
            ("zeta/standards", "ADR-001"),
        ]
    );

    let mut paths = [
        ArtifactPath::new("zeta/standards", "a.md"),
        ArtifactPath::new("acme/app", "z.md"),
        ArtifactPath::new("acme/app", "a.md"),
    ];
    paths.sort();
    assert_eq!(paths[0], ArtifactPath::new("acme/app", "a.md"));
    assert_eq!(paths[2], ArtifactPath::new("zeta/standards", "a.md"));
}

#[test]
fn layer_origin_keys_and_paths_carry_the_source() {
    let layer = CorpusLayer::inherited("acme/standards", "standards", "sha256:0123456789abcdef");
    let origin = layer.origin();
    assert_eq!(origin.layer, Layer::Inherited);
    assert_eq!(origin.key("ADR-001"), ArtifactKey::new("acme/standards", "ADR-001"));
    assert_eq!(
        origin.path("decisions/adr-001.md"),
        ArtifactPath::new("acme/standards", "decisions/adr-001.md")
    );
    assert_eq!(Layer::Local.as_str(), "local");
    assert!(Layer::Local.is_writable());
    assert!(!Layer::Inherited.is_writable());
}

#[test]
fn corpus_name_is_the_last_directory_segment() {
    assert_eq!(compatible_corpus_name("repo/decisions/"), "decisions");
    assert_eq!(compatible_corpus_name("decisions"), "decisions");
}

#[test]
fn stable_identity_does_not_include_clone_location() {
    let layer = CorpusLayer::inherited("acme/standards", "standards", "sha256:0123456789abcdef");
    let left = PhysicalArtifactLocator::new(
        PhysicalCorpusLocator::new("/clone-a", "/clone-a/vendor/standards/decisions"),
        "/clone-a/vendor/standards/decisions/decisions/adr-001.md",
    );
    let right = PhysicalArtifactLocator::new(
        PhysicalCorpusLocator::new("/clone-b", "/clone-b/vendor/standards/decisions"),
        "/clone-b/vendor/standards/decisions/decisions/adr-001.md",
    );

    assert_ne!(left, right);
    assert_eq!(layer.origin().key("ADR-001"), ArtifactKey::new("acme/standards", "ADR-001"));
    assert_eq!(
        layer.origin().path("decisions/adr-001.md"),
        ArtifactPath::new("acme/standards", "decisions/adr-001.md")
    );
    let mut fields = serde_json::Map::new();
    fields.insert("source".to_string(), serde_json::Value::String(layer.source.clone()));
    fields.insert("layer".to_string(), serde_json::Value::String("inherited".to_string()));
    fields.insert(
        "pin".to_string(),
        layer.pin.clone().map(serde_json::Value::String).unwrap_or(serde_json::Value::Null),
    );
    fields.insert(
        "alias".to_string(),
        layer.alias.clone().map(serde_json::Value::String).unwrap_or(serde_json::Value::Null),
    );
    assert!(!serde_json::to_string(&serde_json::Value::Object(fields)).unwrap().contains("clone-"));
}
