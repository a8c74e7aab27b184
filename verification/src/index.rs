//! The repository inventory: one structural-identity row per artifact, in
//! the order the corpus was walked.
use vstd::prelude::*;

use crate::corpus::{ArtifactOrigin, copy_opt, copy_strings, opt_view};
use crate::item::CorpusItem;
use crate::text::{owned, views};

verus! {

/// One row of the inventory: structural identity only.
pub struct IndexEntry {
    pub id: String,
    pub artifact_type: String,
    pub title: Option<String>,
    pub path: String,
    pub aliases: Vec<String>,
    /// Present only when the row came from an explicit composed projection.
    pub origin: Option<ArtifactOrigin>,
}

/// Deterministic inventory of every artifact in a repository.
pub struct RepositoryIndex {
    pub directory: String,
    pub recursive: bool,
    pub artifacts: Vec<IndexEntry>,
}

/// `e` is the row of `it`, with its origin exactly when `with_origin`.
pub open spec fn indexes(e: IndexEntry, it: CorpusItem, with_origin: bool) -> bool {
    &&& e.id@ == it.identifier@
    &&& e.artifact_type@ == it.artifact_type@
    &&& opt_view(e.title) == opt_view(it.title)
    &&& e.path@ == it.path@
    &&& views(e.aliases@) == views(it.identifiers@)
    &&& e.origin == (if with_origin { Some(it.origin) } else { None })
}

/// The inventory of `items` under `directory`.
pub open spec fn inventory(r: RepositoryIndex, directory: Seq<char>, items: Seq<CorpusItem>, recursive: bool, with_origin: bool) -> bool {
    &&& r.directory@ == directory
    &&& r.recursive == recursive
    &&& r.artifacts@.len() == items.len()
    &&& forall|i: int| 0 <= i < items.len() ==> indexes(#[trigger] r.artifacts@[i], items[i], with_origin)
}

fn index_entry(it: &CorpusItem, with_origin: bool) -> (r: IndexEntry)
    ensures
        indexes(r, *it, with_origin),
{
    let aliases = copy_strings(&it.identifiers);
    IndexEntry {
        id: it.identifier.clone(),
        artifact_type: it.artifact_type.clone(),
        title: copy_opt(&it.title),
        path: it.path.clone(),
        aliases,
        origin: if with_origin { Some(it.origin.dup()) } else { None },
    }
}

fn repository_index_from_items(directory: &str, items: &Vec<CorpusItem>, recursive: bool, with_origin: bool) -> (r: RepositoryIndex)
    ensures
        inventory(r, directory@, items@, recursive, with_origin),
{
    let mut artifacts: Vec<IndexEntry> = Vec::new();
    let mut i: usize = 0;
    while i < items.len()
        invariant
            i <= items@.len(),
            artifacts@.len() == i,
            forall|k: int| 0 <= k < i ==> indexes(#[trigger] artifacts@[k], items@[k], with_origin),
        decreases items@.len() - i,
    {
        artifacts.push(index_entry(&items[i], with_origin));
        i += 1;
    }
    RepositoryIndex { directory: owned(directory), recursive, artifacts }
}

/// The inventory of a caller-selected projection, such as the effective
/// items of a composition; every row keeps its origin.
pub fn build_repository_index_from_items(directory: &str, items: &Vec<CorpusItem>, recursive: bool) -> (r: RepositoryIndex)
    ensures
        inventory(r, directory@, items@, recursive, true),
{
    repository_index_from_items(directory, items, recursive, true)
}

/// The inventory of a walked directory; rows carry no origin.
pub fn build_repository_index(directory: &str, items: &Vec<CorpusItem>, recursive: bool) -> (r: RepositoryIndex)
    ensures
        inventory(r, directory@, items@, recursive, false),
{
    repository_index_from_items(directory, items, recursive, false)
}

} // verus!
