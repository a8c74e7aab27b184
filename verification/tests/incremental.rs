use rac_engine::incremental::{assemble_incremental, FileState, ValidationRow};

fn state(hash: &str, size: u64, mtime: i64) -> FileState {
    FileState { content_hash: hash.to_string(), size, mtime_ns: mtime }
}

fn row(hash: &str, size: u64, mtime: i64, status: &str) -> ValidationRow {
    ValidationRow {
        size,
        mtime_ns: mtime,
        content_hash: hash.to_string(),
        artifact_type: "decision".to_string(),
        status: status.to_string(),
        issues: vec![],
    }
}

#[test]
fn unchanged_files_reuse_their_cached_result_with_the_new_stat() {
    let manifest = vec![
        ("a.md".to_string(), state("h1", 10, 200)),
        ("b.md".to_string(), state("h2", 20, 300)),
        ("c.md".to_string(), state("h3", 30, 400)),
    ];
    let previous = vec![
        ("a.md".to_string(), row("h1", 10, 100, "valid")),
        ("b.md".to_string(), row("old", 19, 100, "valid")),
    ];
    let fresh = vec![
        ("b.md".to_string(), row("h2", 20, 300, "invalid")),
        ("c.md".to_string(), row("h3", 30, 400, "valid")),
    ];
    let changed = vec!["b.md".to_string()];
    let r = assemble_incremental(&manifest, &changed, &previous, &fresh);
    assert_eq!(r.len(), 3);
    assert_eq!(r[0], ("a.md".to_string(), row("h1", 10, 200, "valid")));
    assert_eq!(r[1], ("b.md".to_string(), row("h2", 20, 300, "invalid")));
    assert_eq!(r[2], ("c.md".to_string(), row("h3", 30, 400, "valid")));
}

#[test]
fn cache_and_no_cache_agree_when_cached_results_are_current() {
    let manifest = vec![("a.md".to_string(), state("h1", 10, 200))];
    let fresh = vec![("a.md".to_string(), row("h1", 10, 200, "valid"))];
    let previous = vec![("a.md".to_string(), row("h1", 10, 100, "valid"))];
    let cached = assemble_incremental(&manifest, &vec![], &previous, &fresh);
    let uncached = assemble_incremental(&manifest, &vec![], &vec![], &fresh);
    assert_eq!(cached, uncached);
}
