use rac_engine::commands::{
    has_errors, py_strip, share_answer_is_yes, DirectoryValidation, FileValidation, Issue,
    StdinCorpusValidation, RelationshipIssue,
};

#[test]
fn share_answer_classification() {
    for yes in ["y", "Y", "yes", "YES", "  y  ", "Yes\n"] {
        assert!(share_answer_is_yes(yes), "{yes:?} should opt in");
    }
    for no in ["", "\n", "n", "no", "yess", "y e s", "ok"] {
        assert!(!share_answer_is_yes(no), "{no:?} should decline");
    }
}

#[test]
fn strip_removes_python_whitespace_on_both_ends() {
    assert_eq!(py_strip("  a b \t\n"), "a b");
    assert_eq!(py_strip("\u{1c}x\u{3000}"), "x");
    assert_eq!(py_strip("   "), "");
    assert_eq!(py_strip(""), "");
}

fn file(status: &'static str) -> FileValidation {
    FileValidation {
        path: "decisions/a.md".to_string(),
        artifact_type: "decision".to_string(),
        status,
        issues: vec![],
        origin: None,
        source_route: None,
        route_count: None,
    }
}

#[test]
fn directory_counts_follow_statuses() {
    let report = DirectoryValidation {
        directory: "decisions".to_string(),
        recursive: true,
        files: vec![file("valid"), file("invalid"), file("skipped"), file("valid")],
        okf: None,
    };
    assert_eq!(report.checked(), 3);
    assert_eq!(report.valid(), 2);
    assert_eq!(report.invalid(), 1);
    assert_eq!(report.skipped(), 1);
    assert!(!report.ok());

    let clean = DirectoryValidation {
        directory: "decisions".to_string(),
        recursive: false,
        files: vec![file("valid")],
        okf: Some(false),
    };
    assert!(!clean.ok());
    let passing = DirectoryValidation { okf: Some(true), ..clean };
    assert!(passing.ok());
}

#[test]
fn stdin_validation_fails_on_errors_or_relationship_issues() {
    let warning = Issue { severity: "warning", code: "w".to_string(), message: "m".to_string(), line: None };
    let error = Issue { severity: "error", code: "e".to_string(), message: "m".to_string(), line: Some(3) };
    assert!(!has_errors(&vec![warning.clone()]));
    assert!(has_errors(&vec![warning.clone(), error.clone()]));
    let ok = StdinCorpusValidation {
        source_path: "-".to_string(),
        structural_issues: vec![warning.clone()],
        relationship_issues: vec![],
    };
    assert!(ok.ok());
    let broken = StdinCorpusValidation {
        source_path: "-".to_string(),
        structural_issues: vec![warning],
        relationship_issues: vec![RelationshipIssue {
            source_path: "-".to_string(),
            relationship: "Related decisions".to_string(),
            target: "ADR-404".to_string(),
            issue: "unresolved".to_string(),
        }],
    };
    assert!(!broken.ok());
}
