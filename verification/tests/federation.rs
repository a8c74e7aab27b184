use rac_engine::federation::{digest_snapshot, digest_snapshot_v2, SnapshotFile};

fn snapshot_file(relative_path: &str, bytes: &[u8]) -> SnapshotFile {
    SnapshotFile {
        relative_path: relative_path.to_string(),
        absolute_path: format!("/parent/decisions/{relative_path}"),
        bytes: bytes.to_vec(),
    }
}

const PARENT_CONFIG: &[u8] = b"repository_key: STD\ncorpus:\n  source: acme/standards\n";

#[test]
fn digest_v1_matches_known_vector_in_any_file_order() {
    let files = vec![snapshot_file("a.md", b"alpha\n"), snapshot_file("sub/b.md", b"beta\r\n")];
    let digest = digest_snapshot("acme/standards", PARENT_CONFIG, &files);
    assert_eq!(digest, "sha256:899d5cdfa52b90a157b018dceb20f4f2901e0d56c91b089c12286c0b8b7b3325");
    let mut reversed = files.clone();
    reversed.reverse();
    assert_eq!(digest_snapshot("acme/standards", PARENT_CONFIG, &reversed), digest);
}

#[test]
fn digest_v1_changes_with_every_input() {
    let files = vec![snapshot_file("a.md", b"alpha\n"), snapshot_file("sub/b.md", b"beta\r\n")];
    let digest = digest_snapshot("acme/standards", PARENT_CONFIG, &files);
    assert_ne!(digest_snapshot("acme/other", PARENT_CONFIG, &files), digest);
    assert_ne!(digest_snapshot("acme/standards", b"changed", &files), digest);
    let changed = vec![snapshot_file("a.md", b"alpha!\n"), snapshot_file("sub/b.md", b"beta\r\n")];
    assert_ne!(digest_snapshot("acme/standards", PARENT_CONFIG, &changed), digest);
}

#[test]
fn digest_v2_distinguishes_absent_and_empty_manifests() {
    let files = vec![snapshot_file("a.md", b"alpha\n")];
    let absent = digest_snapshot_v2("acme/standards", PARENT_CONFIG, None, &files);
    let empty = digest_snapshot_v2("acme/standards", PARENT_CONFIG, Some(&[]), &files);
    assert!(absent.starts_with("sha256-v2:"));
    assert_eq!(absent.len(), "sha256-v2:".len() + 64);
    assert_ne!(absent, empty);
    let v1 = digest_snapshot("acme/standards", PARENT_CONFIG, &files);
    assert_ne!(&v1["sha256:".len()..], &absent["sha256-v2:".len()..]);
}

#[test]
fn digests_are_prefixed_lowercase_sha256_hex() {
    let d = digest_snapshot_v2("acme/std", b"cfg", None, &[]);
    assert!(d.starts_with("sha256-v2:"));
    assert_eq!(d.len(), "sha256-v2:".len() + 64);
    assert!(d["sha256-v2:".len()..].chars().all(|c| c.is_ascii_digit() || ('a'..='f').contains(&c)));
    assert_ne!(d, digest_snapshot_v2("acme/std", b"cfg", Some(&[]), &[]));
}
