//! Incremental directory validation: each file's cached, path-free result
//! is reused when the file is unchanged under an unchanged configuration,
//! with only its stat proxy refreshed; other files take their freshly
//! computed result. Assembly runs in walk order.
use vstd::prelude::*;

use crate::corpus::copy_strings;
use crate::order::strings_view;
use crate::text::{owned, str_eq, views};

verus! {

/// What a directory scan records of one file.
#[derive(Debug, Clone, PartialEq, Eq)]
pub struct FileState {
    pub content_hash: String,
    pub size: u64,
    pub mtime_ns: i64,
}

/// The cached validation result of one file: its stat proxy and content
/// hash, and its path-free result (type, status, issue lines).
#[derive(Debug, Clone, PartialEq, Eq)]
pub struct ValidationRow {
    pub size: u64,
    pub mtime_ns: i64,
    pub content_hash: String,
    pub artifact_type: String,
    pub status: String,
    pub issues: Vec<String>,
}

/// A row as plain values.
pub type RowView = (u64, i64, Seq<char>, Seq<char>, Seq<char>, Seq<Seq<char>>);

pub open spec fn row_view(r: ValidationRow) -> RowView {
    (r.size, r.mtime_ns, r.content_hash@, r.artifact_type@, r.status@, strings_view(r.issues@))
}

/// The last row recorded for `rel` among the first `upto`.
pub open spec fn row_for(rows: Seq<(String, ValidationRow)>, rel: Seq<char>, upto: int) -> Option<RowView>
    decreases upto,
{
    if upto <= 0 {
        None
    } else if rows[upto - 1].0@ == rel {
        Some(row_view(rows[upto - 1].1))
    } else {
        row_for(rows, rel, upto - 1)
    }
}

pub open spec fn lookup_row(rows: Seq<(String, ValidationRow)>, rel: Seq<char>) -> Option<RowView> {
    row_for(rows, rel, rows.len() as int)
}

/// A cached result with the stat proxy of the current scan.
pub open spec fn refreshed(p: RowView, st: FileState) -> RowView {
    (st.size, st.mtime_ns, st.content_hash@, p.3, p.4, p.5)
}

/// The row assembled for one scanned file: the cached result refreshed when
/// the file is unchanged and cached, otherwise the fresh result.
pub open spec fn assembled(entry: (String, FileState), changed: Seq<Seq<char>>, previous: Seq<(String, ValidationRow)>,
    fresh: Seq<(String, ValidationRow)>) -> Option<RowView>
{
    if !changed.contains(entry.0@) && lookup_row(previous, entry.0@) is Some {
        Some(refreshed(lookup_row(previous, entry.0@).unwrap(), entry.1))
    } else {
        lookup_row(fresh, entry.0@)
    }
}

/// Whether the file needs its fresh result.
pub open spec fn needs_fresh(entry: (String, FileState), changed: Seq<Seq<char>>, previous: Seq<(String, ValidationRow)>) -> bool {
    changed.contains(entry.0@) || lookup_row(previous, entry.0@) is None
}

fn find_row(rows: &Vec<(String, ValidationRow)>, rel: &str) -> (r: Option<usize>)
    ensures
        match r {
            Some(i) => i < rows@.len() && lookup_row(rows@, rel@) == Some(row_view(rows@[i as int].1)),
            None => lookup_row(rows@, rel@) is None,
        },
{
    let mut i: usize = rows.len();
    while i > 0
        invariant
            i <= rows@.len(),
            lookup_row(rows@, rel@) == row_for(rows@, rel@, i as int),
        decreases i,
    {
        if str_eq(rows[i - 1].0.as_str(), rel) {
            return Some(i - 1);
        }
        i -= 1;
    }
    None
}

fn in_changed(changed: &Vec<String>, rel: &str) -> (r: bool)
    ensures
        r == views(changed@).contains(rel@),
{
    let mut i: usize = 0;
    while i < changed.len()
        invariant
            i <= changed@.len(),
            forall|k: int| 0 <= k < i ==> views(changed@)[k] != rel@,
        decreases changed@.len() - i,
    {
        assert(views(changed@)[i as int] == changed@[i as int]@);
        if str_eq(changed[i].as_str(), rel) {
            assert(views(changed@)[i as int] == rel@);
            return true;
        }
        i += 1;
    }
    false
}

fn copy_row(r: &ValidationRow) -> (c: ValidationRow)
    ensures
        row_view(c) == row_view(*r),
{
    ValidationRow {
        size: r.size,
        mtime_ns: r.mtime_ns,
        content_hash: owned(r.content_hash.as_str()),
        artifact_type: owned(r.artifact_type.as_str()),
        status: owned(r.status.as_str()),
        issues: copy_strings(&r.issues),
    }
}

/// The rows of an incremental validation, in walk order: for each scanned
/// file, its cached row with the new stat when it is unchanged and cached,
/// else its fresh row. `fresh` must hold a row for every file that needs
/// one.
pub fn assemble_incremental(
    manifest: &Vec<(String, FileState)>,
    changed: &Vec<String>,
    previous: &Vec<(String, ValidationRow)>,
    fresh: &Vec<(String, ValidationRow)>,
) -> (r: Vec<(String, ValidationRow)>)
    requires
        forall|i: int| 0 <= i < manifest@.len() && needs_fresh(#[trigger] manifest@[i], views(changed@), previous@)
            ==> lookup_row(fresh@, manifest@[i].0@) is Some,
    ensures
        r@.len() == manifest@.len(),
        forall|i: int| 0 <= i < r@.len() ==> (#[trigger] r@[i]).0@ == manifest@[i].0@
            && assembled(manifest@[i], views(changed@), previous@, fresh@) == Some(row_view(r@[i].1)),
{
    let mut out: Vec<(String, ValidationRow)> = Vec::new();
    let mut i: usize = 0;
    while i < manifest.len()
        invariant
            i <= manifest@.len(),
            out@.len() == i,
            forall|m: int| 0 <= m < manifest@.len() && needs_fresh(#[trigger] manifest@[m], views(changed@), previous@)
                ==> lookup_row(fresh@, manifest@[m].0@) is Some,
            forall|k: int| 0 <= k < i ==> (#[trigger] out@[k]).0@ == manifest@[k].0@
                && assembled(manifest@[k], views(changed@), previous@, fresh@) == Some(row_view(out@[k].1)),
        decreases manifest@.len() - i,
    {
        let rel = manifest[i].0.as_str();
        let st = &manifest[i].1;
        let is_changed = in_changed(changed, rel);
        let cached = if is_changed { None } else { find_row(previous, rel) };
        let row = match cached {
            Some(p) => {
                let prev = &previous[p].1;
                ValidationRow {
                    size: st.size,
                    mtime_ns: st.mtime_ns,
                    content_hash: owned(st.content_hash.as_str()),
                    artifact_type: owned(prev.artifact_type.as_str()),
                    status: owned(prev.status.as_str()),
                    issues: copy_strings(&prev.issues),
                }
            },
            None => {
                proof {
                    assert(needs_fresh(manifest@[i as int], views(changed@), previous@));
                }
                let q = find_row(fresh, rel).unwrap();
                copy_row(&fresh[q].1)
            },
        };
        out.push((owned(rel), row));
        assert(out@[i as int] == (out@[i as int].0, row));
        i += 1;
    }
    out
}

/// Cache and no-cache validation agree: when every cached row that would be
/// reused equals, once refreshed, the fresh result for the same file, the
/// incremental rows are exactly the fresh rows.
pub proof fn law_cache_equals_fresh(
    manifest: Seq<(String, FileState)>,
    changed: Seq<Seq<char>>,
    previous: Seq<(String, ValidationRow)>,
    fresh: Seq<(String, ValidationRow)>,
)
    requires
        forall|i: int| 0 <= i < manifest.len() ==> lookup_row(fresh, (#[trigger] manifest[i]).0@) is Some,
        forall|i: int| 0 <= i < manifest.len() && !changed.contains((#[trigger] manifest[i]).0@)
            && lookup_row(previous, manifest[i].0@) is Some
            ==> Some(refreshed(lookup_row(previous, manifest[i].0@).unwrap(), manifest[i].1)) == lookup_row(fresh, manifest[i].0@),
    ensures
        forall|i: int| 0 <= i < manifest.len() ==> assembled(#[trigger] manifest[i], changed, previous, fresh)
            == lookup_row(fresh, manifest[i].0@),
{
}

} // verus!
