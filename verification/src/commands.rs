//! Validation results as the command layer reports them, and the answer to
//! the opt-in prompt.
use vstd::prelude::*;

use crate::corpus::{ArtifactOrigin, Layer};
use crate::item::CorpusItem;
use crate::text::{chars_of, fold_case, lowercase, str_eq, string_from_chars};

verus! {

pub const STATUS_VALID: &'static str = "valid";
pub const STATUS_INVALID: &'static str = "invalid";
pub const STATUS_SKIPPED: &'static str = "skipped";

/// One validation issue of a file.
#[derive(Debug, Clone)]
pub struct Issue {
    /// `error`, `warning` or `info`.
    pub severity: &'static str,
    pub code: String,
    pub message: String,
    pub line: Option<i64>,
}

/// Some issue is an error.
pub open spec fn any_error(issues: Seq<Issue>) -> bool {
    exists|i: int| 0 <= i < issues.len() && issues[i].severity@ == "error"@
}

/// Whether any issue is an error.
pub fn has_errors(issues: &Vec<Issue>) -> (r: bool)
    ensures
        r == any_error(issues@),
{
    let mut i: usize = 0;
    while i < issues.len()
        invariant
            i <= issues@.len(),
            forall|k: int| 0 <= k < i ==> issues@[k].severity@ != "error"@,
        decreases issues@.len() - i,
    {
        if str_eq(issues[i].severity, "error") {
            return true;
        }
        i += 1;
    }
    false
}

/// The validation of one file.
pub struct FileValidation {
    pub path: String,
    pub artifact_type: String,
    pub status: &'static str,
    pub issues: Vec<Issue>,
    /// Stable source and layer identity for rows built from a composed
    /// corpus; absent for single-corpus validation.
    pub origin: Option<ArtifactOrigin>,
    /// Canonical source route for graph topology findings only.
    pub source_route: Option<Vec<String>>,
    /// Verified physical-route count represented by `source_route`.
    pub route_count: Option<usize>,
}

/// The validation of a directory. `okf` holds whether the optional
/// conformance check passed, when it ran.
pub struct DirectoryValidation {
    pub directory: String,
    pub recursive: bool,
    pub files: Vec<FileValidation>,
    pub okf: Option<bool>,
}

/// How many files have status `s` (or, with `negate`, another status).
pub open spec fn count_status(files: Seq<FileValidation>, s: Seq<char>, negate: bool, upto: int) -> nat
    decreases upto,
{
    if upto <= 0 {
        0
    } else {
        let prev = count_status(files, s, negate, upto - 1);
        if (files[upto - 1].status@ == s) != negate { prev + 1 } else { prev }
    }
}

fn count_files(files: &Vec<FileValidation>, s: &str, negate: bool) -> (r: usize)
    ensures
        r == count_status(files@, s@, negate, files@.len() as int),
{
    let mut n: usize = 0;
    let mut i: usize = 0;
    while i < files.len()
        invariant
            i <= files@.len(),
            n == count_status(files@, s@, negate, i as int),
            n <= i,
        decreases files@.len() - i,
    {
        if str_eq(files[i].status, s) != negate {
            n += 1;
        }
        i += 1;
    }
    n
}

impl DirectoryValidation {
    /// Files that were checked (not skipped).
    pub fn checked(&self) -> (r: usize)
        ensures
            r == count_status(self.files@, STATUS_SKIPPED@, true, self.files@.len() as int),
    {
        count_files(&self.files, STATUS_SKIPPED, true)
    }

    pub fn valid(&self) -> (r: usize)
        ensures
            r == count_status(self.files@, STATUS_VALID@, false, self.files@.len() as int),
    {
        count_files(&self.files, STATUS_VALID, false)
    }

    pub fn invalid(&self) -> (r: usize)
        ensures
            r == count_status(self.files@, STATUS_INVALID@, false, self.files@.len() as int),
    {
        count_files(&self.files, STATUS_INVALID, false)
    }

    pub fn skipped(&self) -> (r: usize)
        ensures
            r == count_status(self.files@, STATUS_SKIPPED@, false, self.files@.len() as int),
    {
        count_files(&self.files, STATUS_SKIPPED, false)
    }

    /// No file is invalid and conformance, when checked, passed.
    pub fn ok(&self) -> (r: bool)
        ensures
            r == (count_status(self.files@, STATUS_INVALID@, false, self.files@.len() as int) == 0
                && (self.okf matches Some(b) ==> b)),
    {
        let okf = match self.okf {
            Some(b) => b,
            None => true,
        };
        self.invalid() == 0 && okf
    }
}

/// One relationship refusal of a corpus.
pub struct RelationshipIssue {
    pub source_path: String,
    pub relationship: String,
    pub target: String,
    pub issue: String,
}

/// The validation of a document read from standard input against a corpus.
pub struct StdinCorpusValidation {
    pub source_path: String,
    pub structural_issues: Vec<Issue>,
    pub relationship_issues: Vec<RelationshipIssue>,
}

impl StdinCorpusValidation {
    /// No structural error and no relationship issue.
    pub fn ok(&self) -> (r: bool)
        ensures
            r == (!any_error(self.structural_issues@) && self.relationship_issues@.len() == 0),
    {
        !has_errors(&self.structural_issues) && self.relationship_issues.len() == 0
    }
}

/// The whitespace that `strip` removes: every character that Unicode
/// classes as a space separator or as a segment, paragraph or block
/// separator.
pub open spec fn is_space(c: char) -> bool {
    ||| c == ' ' || c == '\t' || c == '\n' || c == '\u{b}' || c == '\u{c}' || c == '\r'
    ||| ('\u{1c}' <= c && c <= '\u{1f}')
    ||| c == '\u{85}' || c == '\u{a0}' || c == '\u{1680}'
    ||| ('\u{2000}' <= c && c <= '\u{200a}')
    ||| c == '\u{2028}' || c == '\u{2029}' || c == '\u{202f}' || c == '\u{205f}' || c == '\u{3000}'
}

fn char_is_space(c: char) -> (r: bool)
    ensures
        r == is_space(c),
{
    c == ' ' || c == '\t' || c == '\n' || c == '\u{b}' || c == '\u{c}' || c == '\r'
        || ('\u{1c}' <= c && c <= '\u{1f}')
        || c == '\u{85}' || c == '\u{a0}' || c == '\u{1680}'
        || ('\u{2000}' <= c && c <= '\u{200a}')
        || c == '\u{2028}' || c == '\u{2029}' || c == '\u{202f}' || c == '\u{205f}' || c == '\u{3000}'
}

/// Leading spaces of `s`.
pub open spec fn lead(s: Seq<char>) -> int
    decreases s.len(),
{
    if s.len() > 0 && is_space(s[0]) { 1 + lead(s.drop_first()) } else { 0 }
}

/// `s` without leading and trailing spaces.
pub open spec fn strip(s: Seq<char>) -> Seq<char>
    decreases s.len(),
{
    if s.len() == 0 {
        s
    } else if is_space(s[0]) {
        strip(s.drop_first())
    } else if is_space(s.last()) {
        strip(s.drop_last())
    } else {
        s
    }
}

proof fn lemma_strip_sub(s: Seq<char>, a: int, b: int)
    requires
        0 <= a <= b <= s.len(),
        forall|i: int| 0 <= i < a ==> is_space(s[i]),
        forall|i: int| b <= i < s.len() ==> is_space(s[i]),
        a < b ==> !is_space(s[a]) && !is_space(s[b - 1]),
        a == b ==> b == s.len(),
    ensures
        strip(s) == s.subrange(a, b),
    decreases s.len(),
{
    if s.len() == 0 {
        assert(s.subrange(a, b) =~= s);
    } else if a > 0 {
        let t = s.drop_first();
        assert forall|i: int| 0 <= i < a - 1 implies is_space(t[i]) by {
            assert(t[i] == s[i + 1]);
        }
        assert forall|i: int| b - 1 <= i < t.len() implies is_space(t[i]) by {
            assert(t[i] == s[i + 1]);
        }
        if a < b {
            assert(t[a - 1] == s[a]);
            assert(t[b - 2] == s[b - 1]);
        }
        lemma_strip_sub(t, a - 1, b - 1);
        assert(t.subrange(a - 1, b - 1) =~= s.subrange(a, b));
    } else if b < s.len() {
        // a == 0
        if a == b {
            assert(false);
        }
        let t = s.drop_last();
        assert(!is_space(s[0]));
        assert(is_space(s.last()));
        assert forall|i: int| b <= i < t.len() implies is_space(t[i]) by {
            assert(t[i] == s[i]);
        }
        assert(t[0] == s[0]);
        assert(t[b - 1] == s[b - 1]);
        lemma_strip_sub(t, a, b);
        assert(t.subrange(a, b) =~= s.subrange(a, b));
    } else {
        if a == b {
            assert(s.len() == 0);
        }
        assert(!is_space(s[0]));
        assert(!is_space(s.last()));
        assert(s.subrange(0, s.len() as int) =~= s);
    }
}

/// `s` without leading and trailing whitespace.
pub fn py_strip(s: &str) -> (r: String)
    ensures
        r@ == strip(s@),
{
    let cs = chars_of(s);
    let n = cs.len();
    let mut a: usize = 0;
    while a < n && char_is_space(cs[a])
        invariant
            cs@ == s@,
            n == cs@.len(),
            a <= n,
            forall|i: int| 0 <= i < a ==> is_space(cs@[i]),
        decreases n - a,
    {
        a += 1;
    }
    let mut b: usize = n;
    while b > a && char_is_space(cs[b - 1])
        invariant
            cs@ == s@,
            n == cs@.len(),
            a <= b <= n,
            forall|i: int| b <= i < n ==> is_space(cs@[i]),
        decreases b,
    {
        b -= 1;
    }
    proof {
        if a == b && b < n {
            // everything from a on is space, so the first loop would have gone on
            assert(!(a < n && is_space(cs@[a as int])) || a == n);
            assert(is_space(cs@[a as int]));
            assert(false);
        }
        lemma_strip_sub(s@, a as int, b as int);
    }
    string_from_chars(&cs.as_slice()[a..b])
}

/// The answer to the sharing prompt opts in: exactly `y` or `yes`, in any
/// case, with surrounding whitespace stripped.
pub fn share_answer_is_yes(answer: &str) -> (r: bool)
    ensures
        r == (lowercase(strip(answer@)) == "y"@ || lowercase(strip(answer@)) == "yes"@),
{
    let stripped = py_strip(answer);
    let lower = fold_case(stripped.as_str());
    str_eq(lower.as_str(), "y") || str_eq(lower.as_str(), "yes")
}


/// The type a file is validated as: its specification's name, or
/// `unknown`.
pub open spec fn validated_type(it: CorpusItem) -> Seq<char> {
    match it.spec_name {
        Some(n) => n@,
        None => "unknown"@,
    }
}

/// The row of one walked file, given the issues its validation raised. A
/// file that matched no specification is skipped without issues; in a
/// composed view (`composed`) inherited files keep no issues, since their
/// own corpus answers for them, and carry their origin.
pub open spec fn file_row(r: FileValidation, it: CorpusItem, issues: Seq<Issue>, composed: bool) -> bool {
    let kept = if it.spec_name is None || (composed && it.origin.layer == Layer::Inherited) { Seq::empty() } else { issues };
    &&& r.path@ == it.path@
    &&& r.artifact_type@ == validated_type(it)
    &&& r.issues@ == kept
    &&& r.status@ == (if it.spec_name is None { STATUS_SKIPPED@ } else if any_error(kept) { STATUS_INVALID@ } else { STATUS_VALID@ })
    &&& r.origin == (if composed { Some(it.origin) } else { None })
    &&& r.source_route is None
    &&& r.route_count is None
}

/// Builds the row of one file from its validation issues.
pub fn file_validation(item: &CorpusItem, issues: Vec<Issue>, composed: bool) -> (r: FileValidation)
    ensures
        file_row(r, *item, issues@, composed),
{
    let artifact_type = match &item.spec_name {
        Some(n) => n.clone(),
        None => crate::text::owned("unknown"),
    };
    let origin = if composed { Some(item.origin.dup()) } else { None };
    if item.spec_name.is_none() {
        return FileValidation {
            path: item.path.clone(),
            artifact_type,
            status: STATUS_SKIPPED,
            issues: Vec::new(),
            origin,
            source_route: None,
            route_count: None,
        };
    }
    let kept = if composed && item.origin.layer == Layer::Inherited { Vec::new() } else { issues };
    let status = if has_errors(&kept) { STATUS_INVALID } else { STATUS_VALID };
    FileValidation {
        path: item.path.clone(),
        artifact_type,
        status,
        issues: kept,
        origin,
        source_route: None,
        route_count: None,
    }
}

} // verus!
