//! The parsed artifact record that composition, coverage, index and export
//! read. It holds, as plain values, what those projections consult.
use vstd::prelude::*;

use crate::corpus::{ArtifactKey, ArtifactOrigin, ArtifactPath, Layer};
use crate::order::SortKey;
use crate::text::{lemma_keys_lt_cons, lemma_seq_lt_irreflexive, str_eq, str_lt};

verus! {

/// One declared relationship section of an artifact: the relationship name,
/// whether its targets lie outside the corpus, and the authored references.
#[derive(Debug, Clone, PartialEq, Eq)]
pub struct DeclaredRelationship {
    pub relationship: String,
    pub external: bool,
    pub references: Vec<String>,
}

/// One artifact of a corpus snapshot.
#[derive(Debug, Clone, PartialEq, Eq)]
pub struct CorpusItem {
    /// Stable `(source, canonical_id)` identity.
    pub key: ArtifactKey,
    /// Layer provenance.
    pub origin: ArtifactOrigin,
    /// Stable `(source, relative path)` identity.
    pub artifact_path: ArtifactPath,
    /// Display path as walked.
    pub path: String,
    /// Name of the artifact specification this document matched, if any
    /// (`decision`, `requirement`, `roadmap`, ...).
    pub spec_name: Option<String>,
    /// Primary identifier.
    pub identifier: String,
    /// Every identifier the artifact answers to (primary first).
    pub identifiers: Vec<String>,
    /// Classified artifact type.
    pub artifact_type: String,
    pub title: Option<String>,
    pub status: Option<String>,
    /// A decision whose status is live (accepted and not superseded).
    pub live_decision: bool,
    /// Declared relationship sections, in document order.
    pub relationships: Vec<DeclaredRelationship>,
}

/// Order key of items: artifact path, then artifact key.
pub open spec fn item_order_key(item: CorpusItem) -> Seq<Seq<char>> {
    seq![item.artifact_path.source@, item.artifact_path.relative_path@, item.key.source@, item.key.canonical_id@]
}

impl SortKey for CorpusItem {
    open spec fn sort_key(&self) -> Seq<Seq<char>> {
        item_order_key(*self)
    }

    fn key_lt(&self, other: &Self) -> (r: bool) {
        let ghost a = self.sort_key();
        let ghost b = other.sort_key();
        proof {
            let e = Seq::<Seq<char>>::empty();
            assert(a =~= seq![a[0]] + (seq![a[1]] + (seq![a[2]] + (seq![a[3]] + e))));
            assert(b =~= seq![b[0]] + (seq![b[1]] + (seq![b[2]] + (seq![b[3]] + e))));
            lemma_keys_lt_cons(a[0], seq![a[1]] + (seq![a[2]] + (seq![a[3]] + e)), b[0], seq![b[1]] + (seq![b[2]] + (seq![b[3]] + e)));
            lemma_keys_lt_cons(a[1], seq![a[2]] + (seq![a[3]] + e), b[1], seq![b[2]] + (seq![b[3]] + e));
            lemma_keys_lt_cons(a[2], seq![a[3]] + e, b[2], seq![b[3]] + e);
            lemma_keys_lt_cons(a[3], e, b[3], e);
            lemma_seq_lt_irreflexive(a[3]);
        }
        if !str_eq(&self.artifact_path.source, &other.artifact_path.source) {
            return str_lt(&self.artifact_path.source, &other.artifact_path.source);
        }
        if !str_eq(&self.artifact_path.relative_path, &other.artifact_path.relative_path) {
            return str_lt(&self.artifact_path.relative_path, &other.artifact_path.relative_path);
        }
        if !str_eq(&self.key.source, &other.key.source) {
            return str_lt(&self.key.source, &other.key.source);
        }
        str_lt(&self.key.canonical_id, &other.key.canonical_id)
    }
}

/// Indices of the items of one layer, in item order.
pub open spec fn layer_indices(items: Seq<CorpusItem>, layer: Layer, upto: int) -> Seq<int>
    decreases upto,
{
    if upto <= 0 {
        Seq::empty()
    } else {
        let before = layer_indices(items, layer, upto - 1);
        if items[upto - 1].origin.layer == layer { before.push(upto - 1) } else { before }
    }
}

/// The items of one layer, in order.
pub fn layer_positions(items: &Vec<CorpusItem>, layer: Layer) -> (r: Vec<usize>)
    ensures
        r@.map_values(|i: usize| i as int) == layer_indices(items@, layer, items@.len() as int),
        forall|k: int| 0 <= k < r@.len() ==> r@[k] < items@.len(),
{
    let mut r: Vec<usize> = Vec::new();
    let mut i: usize = 0;
    while i < items.len()
        invariant
            i <= items@.len(),
            r@.map_values(|i: usize| i as int) == layer_indices(items@, layer, i as int),
            forall|k: int| 0 <= k < r@.len() ==> r@[k] < items@.len(),
        decreases items@.len() - i,
    {
        if items[i].origin.layer == layer {
            r.push(i);
            assert(r@.map_values(|i: usize| i as int) =~= layer_indices(items@, layer, i as int).push(i as int));
        }
        i += 1;
    }
    r
}

} // verus!
