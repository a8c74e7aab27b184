use rac_engine::federation::{digest_snapshot, ParentDeclaration, SnapshotFile};
use rac_engine::federation_graph::{
    add_limited, admit_logical_node, check_after_read, check_before_read, check_captured_edge, check_depth,
    check_directory, check_directory_after, check_materialisation_root, check_siblings, check_v1_parent,
    check_within_root, discoverable_name,
    v1_entry_action, CapturedManifestKind, CapturedNode, EntryAction, StableFileIdentity,
};
use rac_engine::federation::ParentCorpusErrorCode;
use rac_engine::federation_walk::{accept_edge, begin_edge, finish_edge, WalkState};

fn declaration(version: u32, source: &str, digest: &str) -> ParentDeclaration {
    ParentDeclaration {
        version,
        alias: "standards".to_string(),
        source: source.to_string(),
        root: "vendor/standards".to_string(),
        corpus: "decisions".to_string(),
        digest: digest.to_string(),
    }
}

fn captured_with(source: &str, manifest: CapturedManifestKind, body: &[u8]) -> CapturedNode {
    CapturedNode::new(
        source.to_string(),
        "/repo/vendor/standards/.decided/config.yaml".to_string(),
        b"corpus:\n  source: acme/standards\n".to_vec(),
        if manifest == CapturedManifestKind::Absent { None } else { Some(b"version: 2\n".to_vec()) },
        vec![SnapshotFile {
            relative_path: "a.md".to_string(),
            absolute_path: "/repo/vendor/standards/decisions/a.md".to_string(),
            bytes: body.to_vec(),
        }],
        manifest,
        "/repo/vendor/standards/.decided/corpus.md".to_string(),
    )
}

fn captured(source: &str, manifest: CapturedManifestKind) -> CapturedNode {
    captured_with(source, manifest, b"alpha\n")
}

const OWNER: &str = "/repo/.decided/corpus.md";

#[test]
fn counters_saturate_and_stop_at_the_limit() {
    let mut count = 3usize;
    assert!(add_limited(&mut count, 2, 5, "edges", "/repo").is_ok());
    assert_eq!(count, 5);
    let err = add_limited(&mut count, 1, 5, "edges", "/repo").unwrap_err();
    assert_eq!(err.message, "federation limit exceeded: dimension=edges, limit=5, observed=6");
    assert_eq!(count, 5);
    let mut huge = usize::MAX - 1;
    assert!(add_limited(&mut huge, 10, 100, "files", "/repo").is_err());
}

#[test]
fn overlapping_sibling_roots_are_refused_unless_identical() {
    let first = declaration(2, "acme/standards", "sha256-v2:x");
    let siblings = vec![("/repo/vendor/standards".to_string(), first.clone())];
    assert!(check_siblings("/repo/vendor/other", &declaration(2, "acme/other", "p"), &siblings).is_ok());
    assert!(check_siblings("/repo/vendor/standards", &first, &siblings).is_ok());
    let err = check_siblings("/repo/vendor/standards/nested", &declaration(2, "acme/other", "p"), &siblings).unwrap_err();
    assert_eq!(err.message, "sibling parent roots overlap for 'acme/standards' and 'acme/other'");
    assert_eq!(err.stable_code(), "corpus-federation-overlapping-roots");
    assert!(check_siblings("/repo/vendor/standards", &declaration(2, "acme/standards", "other-pin"), &siblings).is_err());
    // Component-wise: a shared string prefix is no overlap.
    assert!(check_siblings("/repo/vendor/standards2", &declaration(2, "acme/other", "p"), &siblings).is_ok());
}

#[test]
fn captured_edges_are_checked_in_order() {
    let node = captured("acme/standards", CapturedManifestKind::Absent);
    let v2 = node.digest_v2.clone();
    let ok = check_captured_edge(OWNER, &declaration(2, "acme/standards", &v2), &node, false, &vec![], None);
    assert_eq!(ok.unwrap(), v2);

    let v1 = digest_snapshot(&node.source, &node.config_bytes, &node.files);
    assert_eq!(
        check_captured_edge(OWNER, &declaration(1, "acme/standards", &v1), &node, false, &vec![], None).unwrap(),
        v1
    );

    // The version-2 pin is the digest of what was captured: other file bytes
    // verify to another pin, and the old pin is refused for them.
    let edited = captured_with("acme/standards", CapturedManifestKind::Absent, b"edited\n");
    let e = check_captured_edge(OWNER, &declaration(2, "acme/standards", &v2), &edited, false, &vec![], None).unwrap_err();
    assert_eq!(e.stable_code(), "parent-corpus-digest-mismatch");
    assert_eq!(
        v2,
        rac_engine::federation::digest_snapshot_v2(&node.source, &node.config_bytes, None, &node.files)
    );

    let err = check_captured_edge(OWNER, &declaration(2, "acme/other", &v2), &node, false, &vec![], None).unwrap_err();
    assert_eq!(err.stable_code(), "parent-corpus-source-mismatch");
    assert_eq!(err.message, "manifest source 'acme/other' does not match inherited corpus.source 'acme/standards'");

    let err = check_captured_edge(OWNER, &declaration(2, "acme/standards", "sha256-v2:stale"), &node, false, &vec![], None).unwrap_err();
    assert_eq!(err.stable_code(), "parent-corpus-digest-mismatch");

    let inherits = captured("acme/standards", CapturedManifestKind::V1);
    // Its manifest bytes enter its digest.
    assert_ne!(inherits.digest_v2, v2);
    let err = check_captured_edge(OWNER, &declaration(2, "acme/standards", &inherits.digest_v2), &inherits, true, &vec![], None).unwrap_err();
    assert_eq!(err.message, "version-1 parent source 'acme/standards' declares its own inheritance");

    let active = vec!["acme/app".to_string(), "acme/standards".to_string()];
    let err = check_captured_edge(OWNER, &declaration(2, "acme/standards", &v2), &node, false, &active, None).unwrap_err();
    assert_eq!(err.message, "federation source cycle: acme/app -> acme/standards -> acme/standards");

    let err = check_captured_edge(OWNER, &declaration(2, "acme/standards", &v2), &node, false, &vec![], Some("sha256-v2:old")).unwrap_err();
    assert_eq!(err.stable_code(), "corpus-federation-divergent-pin");
    assert!(check_captured_edge(OWNER, &declaration(2, "acme/standards", &v2), &node, false, &vec![], Some(v2.as_str())).is_ok());
}

#[test]
fn depth_is_limited() {
    assert!(check_depth(16, "/repo").is_ok());
    let err = check_depth(17, "/repo").unwrap_err();
    assert_eq!(err.message, "federation limit exceeded: dimension=depth, limit=16, observed=17");
    assert_eq!(err.path.as_deref(), Some("/repo"));
}

#[test]
fn logical_nodes_are_counted_against_their_limits() {
    let node = captured("acme/standards", CapturedManifestKind::Absent);
    let root = "/repo/vendor/standards/decisions";
    let (mut files, mut bytes) = (0usize, 0usize);
    assert!(admit_logical_node(0, &mut files, &mut bytes, &node, 10, root).is_ok());
    assert_eq!(files, 1);
    assert_eq!(bytes, node.config_bytes.len() + 10 + 6);

    let err = admit_logical_node(256, &mut files, &mut bytes, &node, 0, root).unwrap_err();
    assert_eq!(err.message, "federation limit exceeded: dimension=unique-inherited-sources, limit=256, observed=257");
    assert_eq!(err.path.as_deref(), Some(node.config_path.as_str()));
    assert_eq!((files, bytes), (1, node.config_bytes.len() + 16));

    let mut full = 50_000usize;
    let err = admit_logical_node(1, &mut full, &mut bytes, &node, 0, root).unwrap_err();
    assert_eq!(err.message, "federation limit exceeded: dimension=inherited-files, limit=50000, observed=50001");
    assert_eq!(err.path.as_deref(), Some(root));

    let mut heavy = 268_435_456usize;
    let mut few = 0usize;
    let err = admit_logical_node(1, &mut few, &mut heavy, &node, 0, root).unwrap_err();
    assert_eq!(err.message, "federation limit exceeded: dimension=logical-bytes, limit=268435456, observed=268435457");
    assert_eq!(few, 1);
    assert_eq!(heavy, 268_435_456);
}

fn identity(links: u64, length: u64) -> StableFileIdentity {
    StableFileIdentity { device: 7, inode: 42, links, length, changed_seconds: 1, changed_nanos: 2 }
}

#[test]
fn reads_are_refused_before_and_after_by_identity() {
    let p = "/repo/vendor/a.md";
    assert!(check_before_read(p, false, true, Some(identity(1, 10)), true, Some(7), 100, "file-bytes").is_ok());
    let e = check_before_read(p, true, false, None, true, Some(7), 100, "file-bytes").unwrap_err();
    assert_eq!(e.code, ParentCorpusErrorCode::SymlinkTraversal);
    assert_eq!(e.message, "federation input must be a real regular file: /repo/vendor/a.md");
    let e = check_before_read(p, false, true, None, true, Some(7), 100, "file-bytes").unwrap_err();
    assert_eq!(e.message, "stable file identity is unavailable for /repo/vendor/a.md");
    let e = check_before_read(p, false, true, Some(identity(2, 10)), true, Some(7), 100, "file-bytes").unwrap_err();
    assert_eq!(e.message, "inherited files must have exactly one hard link: /repo/vendor/a.md");
    assert!(check_before_read(p, false, true, Some(identity(2, 10)), false, None, 100, "file-bytes").is_ok());
    let e = check_before_read(p, false, true, Some(identity(1, 10)), true, Some(8), 100, "file-bytes").unwrap_err();
    assert_eq!(e.message, "federation input crosses a filesystem boundary: /repo/vendor/a.md");
    let e = check_before_read(p, false, true, Some(identity(1, 101)), true, Some(7), 100, "file-bytes").unwrap_err();
    assert_eq!(e.code, ParentCorpusErrorCode::LimitExceeded);
    assert_eq!(e.message, "federation limit exceeded: dimension=file-bytes, limit=100, observed=101");

    assert!(check_after_read(p, identity(1, 10), Some(identity(1, 10)), 10).is_ok());
    let e = check_after_read(p, identity(1, 10), Some(identity(1, 10)), 9).unwrap_err();
    assert_eq!(e.code, ParentCorpusErrorCode::SnapshotChanged);
    assert_eq!(e.message, "federation input changed during capture: /repo/vendor/a.md");
    let mut touched = identity(1, 10);
    touched.changed_nanos = 3;
    assert!(check_after_read(p, identity(1, 10), Some(touched), 10).is_err());
    let e = check_after_read(p, identity(1, 10), None, 10).unwrap_err();
    assert_eq!(e.code, ParentCorpusErrorCode::UnsupportedFilesystem);
}

#[test]
fn directories_keep_their_device_and_identity() {
    let d = "/repo/vendor";
    assert_eq!(check_directory(d, Some(identity(3, 0)), 7).unwrap(), identity(3, 0));
    let e = check_directory(d, Some(identity(3, 0)), 8).unwrap_err();
    assert_eq!(e.message, "federation directory crosses a filesystem boundary: /repo/vendor");
    let e = check_directory(d, None, 7).unwrap_err();
    assert_eq!(e.message, "stable directory identity is unavailable for /repo/vendor");
    assert!(check_directory_after(d, identity(3, 0), Some(identity(3, 0))).is_ok());
    let e = check_directory_after(d, identity(3, 0), Some(identity(4, 0))).unwrap_err();
    assert_eq!(e.message, "inherited directory changed during capture: /repo/vendor");
}

#[test]
fn version_one_entries_are_decided_by_name_and_kind() {
    assert!(!discoverable_name(None));
    assert!(!discoverable_name(Some(".git")));
    assert!(discoverable_name(Some("a.md")));
    assert_eq!(v1_entry_action("a.md", true, false, false), EntryAction::RefuseSymlink);
    assert_eq!(v1_entry_action("linked", true, true, false), EntryAction::Skip);
    assert_eq!(v1_entry_action("dir", false, true, false), EntryAction::Descend);
    assert_eq!(v1_entry_action("a.md", false, false, true), EntryAction::Capture);
    assert_eq!(v1_entry_action("a.md", false, false, false), EntryAction::RefuseIrregular);
    assert_eq!(v1_entry_action("a.txt", false, false, true), EntryAction::Skip);
    assert!(check_within_root("/repo/std/decisions/a.md", "/repo/std/decisions", "/repo/std/decisions/a.md").is_ok());
    let e = check_within_root("/elsewhere/a.md", "/repo/std/decisions", "/repo/std/decisions/a.md").unwrap_err();
    assert_eq!(e.message, "parent artifact escapes corpus root: /repo/std/decisions/a.md");
}

#[test]
fn version_one_parents_are_checked_against_their_snapshot() {
    let d = declaration(1, "acme/standards", "sha256:abc");
    let m = "/repo/.decided/corpus.md";
    let cfg = "/repo/vendor/std/.decided/config.yaml";
    assert!(check_v1_parent(m, &d, "acme/app", "acme/standards", cfg, "sha256:abc").is_ok());
    let e = check_v1_parent(m, &d, "acme/app", "acme/other", cfg, "sha256:abc").unwrap_err();
    assert_eq!(e.code, ParentCorpusErrorCode::SourceMismatch);
    assert_eq!(e.message, "manifest source 'acme/standards' does not match parent corpus.source 'acme/other'");
    assert_eq!(e.path.as_deref(), Some(cfg));
    let e = check_v1_parent(m, &d, "acme/standards", "acme/standards", cfg, "sha256:abc").unwrap_err();
    assert_eq!(e.code, ParentCorpusErrorCode::SourceCollision);
    assert_eq!(e.message, "child and parent must declare distinct corpus.source values; both are 'acme/standards'");
    let e = check_v1_parent(m, &d, "acme/app", "acme/standards", cfg, "sha256:def").unwrap_err();
    assert_eq!(e.code, ParentCorpusErrorCode::DigestMismatch);
    assert_eq!(e.message, "declared parent digest 'sha256:abc' does not match verified digest 'sha256:def'");
    assert_eq!(e.path.as_deref(), Some(m));

    assert!(check_materialisation_root("vendor/std", "/repo/vendor/std", "/repo", true).is_ok());
    assert!(check_materialisation_root("vendor/std", "/repo/vendor/std", "/repo", false).is_err());
    let e = check_materialisation_root(".", "/repo", "/repo", true).unwrap_err();
    assert_eq!(e.code, ParentCorpusErrorCode::PathEscape);
    assert_eq!(e.path.as_deref(), Some("."));
}

#[test]
fn the_walk_records_edges_routes_and_nodes() {
    let mut w = WalkState::new();
    let node = captured("acme/standards", CapturedManifestKind::Absent);
    let v2 = node.digest_v2.clone();
    let d = declaration(2, "acme/standards", &v2);
    let root = "/repo/vendor/standards";
    assert!(begin_edge(&mut w, "/repo", root, &d, &vec![]).is_ok());
    assert_eq!(w.edge_count, 1);
    let expand = accept_edge(&mut w, "acme/app", OWNER, false, &d, root, &node, "/repo/vendor/standards/decisions").unwrap();
    assert!(expand);
    assert_eq!(w.active, vec!["acme/standards".to_string()]);
    assert_eq!(w.edges.len(), 1);
    assert_eq!(w.edges[0].target_source, "acme/standards");
    assert_eq!(w.materialisation_roots, vec![root.to_string()]);
    finish_edge(&mut w, root, "decisions", true, &node, 0, "/repo/vendor/standards/decisions").unwrap();
    assert!(w.active.is_empty());
    assert_eq!(w.nodes, vec![("acme/standards".to_string(), v2.clone())]);
    assert_eq!(w.expanded, vec![(root.to_string(), "decisions".to_string())]);
    assert_eq!(w.logical_files, 1);

    // A second edge to the same capture does not walk it again; a divergent pin is refused.
    assert!(!accept_edge(&mut w, "acme/other", OWNER, false, &d, root, &node, "/repo/vendor/standards/decisions").unwrap());
    let other = captured_with("acme/standards", CapturedManifestKind::Absent, b"changed\n");
    assert_ne!(other.digest_v2, node.digest_v2);
    let d2 = declaration(2, "acme/standards", &other.digest_v2);
    let before = w.edges.len();
    let err = accept_edge(&mut w, "acme/x", OWNER, false, &d2, "/repo/other", &other, "/repo/other/decisions").unwrap_err();
    assert_eq!(err.stable_code(), "corpus-federation-cycle");
    assert_eq!(w.edges.len(), before);
}

fn walked_edge(owner: &str, target: &str, root: &str) -> rac_engine::federation::VerifiedFederationEdge {
    rac_engine::federation::VerifiedFederationEdge {
        owner_source: owner.to_string(),
        alias: "parent".to_string(),
        target_source: target.to_string(),
        declared_digest: "sha256-v2:aa".to_string(),
        canonical_digest: "sha256-v2:aa".to_string(),
        root: root.to_string(),
        corpus: "decisions".to_string(),
        materialisation_root: format!("/repo/{root}"),
        corpus_root: format!("/repo/{root}/decisions"),
    }
}

#[test]
fn finishing_the_walk_orders_edges_sources_and_roots() {
    let mut state = rac_engine::federation_walk::WalkState::new();
    state.nodes = vec![
        ("zeta/std".to_string(), "sha256-v2:aa".to_string()),
        ("acme/std".to_string(), "sha256-v2:bb".to_string()),
    ];
    state.edges = vec![
        walked_edge("zeta/app", "acme/std", "b"),
        walked_edge("acme/app", "zeta/std", "a"),
        walked_edge("acme/app", "acme/std", "c"),
    ];
    state.materialisation_roots = vec!["/repo/b".to_string(), "/repo/a".to_string(), "/repo/b".to_string()];
    state.corpus_roots = vec!["/repo/b/decisions".to_string(), "/repo/a/decisions".to_string()];
    let outcome = rac_engine::federation_walk::finish_walk(state);
    let order: Vec<(String, String)> =
        outcome.edges.iter().map(|e| (e.owner_source.clone(), e.target_source.clone())).collect();
    assert_eq!(
        order,
        vec![
            ("acme/app".to_string(), "acme/std".to_string()),
            ("acme/app".to_string(), "zeta/std".to_string()),
            ("zeta/app".to_string(), "acme/std".to_string()),
        ]
    );
    assert_eq!(outcome.node_sources, vec!["acme/std".to_string(), "zeta/std".to_string()]);
    assert_eq!(outcome.materialisation_roots, vec!["/repo/a".to_string(), "/repo/b".to_string()]);
    assert_eq!(outcome.corpus_roots, vec!["/repo/a/decisions".to_string(), "/repo/b/decisions".to_string()]);
}
