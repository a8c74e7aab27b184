//! The source-aware parts of the derived read model: per-artifact identity,
//! the live decisions, and the canonical redirects a composition retains.
use vstd::prelude::*;

use crate::composition::ComposedCorpus;
use crate::corpus::{ArtifactKey, ArtifactOrigin, ArtifactPath, opt_view};
use crate::graph_composed::GraphComposition;
use crate::item::CorpusItem;
use crate::text::str_eq;

verus! {

/// The bundle schema version.
pub const SCHEMA_VERSION: &'static str = "3";

pub const DECISION_TYPE: &'static str = "decision";

/// The source-aware identity of one searchable row.
#[derive(Debug, Clone)]
pub struct SourceAwareArtifact {
    pub key: ArtifactKey,
    pub path: ArtifactPath,
    pub origin: ArtifactOrigin,
    /// Display path, kept apart from the stable path identity.
    pub display_path: String,
}

/// One validated canonical redirect retained by a composed generation.
#[derive(Debug, Clone)]
pub struct CanonicalRedirect {
    pub parent: ArtifactKey,
    pub replacement: ArtifactKey,
    pub rationale: ArtifactKey,
}

/// `a` is the source-aware identity of `it`.
pub open spec fn identifies(a: SourceAwareArtifact, it: CorpusItem) -> bool {
    a.key@ == it.key@ && a.path@ == it.artifact_path@ && a.origin == it.origin && a.display_path@ == it.path@
}

/// The source-aware identity of every item, in item order.
pub fn source_aware_artifacts(items: &Vec<CorpusItem>) -> (r: Vec<SourceAwareArtifact>)
    ensures
        r@.len() == items@.len(),
        forall|i: int| 0 <= i < items@.len() ==> identifies(#[trigger] r@[i], items@[i]),
{
    let mut r: Vec<SourceAwareArtifact> = Vec::new();
    let mut i: usize = 0;
    while i < items.len()
        invariant
            i <= items@.len(),
            r@.len() == i,
            forall|k: int| 0 <= k < i ==> identifies(#[trigger] r@[k], items@[k]),
        decreases items@.len() - i,
    {
        let it = &items[i];
        r.push(SourceAwareArtifact {
            key: it.key.dup(),
            path: it.artifact_path.dup(),
            origin: it.origin.dup(),
            display_path: it.path.clone(),
        });
        i += 1;
    }
    r
}

/// A decision whose status is live.
pub open spec fn is_live_decision(it: CorpusItem) -> bool {
    opt_view(it.spec_name) == Some(DECISION_TYPE@) && it.live_decision
}

/// The live decisions among the first `upto` items, in item order.
pub open spec fn live_upto(items: Seq<CorpusItem>, upto: int) -> Seq<CorpusItem>
    decreases upto,
{
    if upto <= 0 {
        Seq::empty()
    } else {
        let prev = live_upto(items, upto - 1);
        if is_live_decision(items[upto - 1]) { prev.push(items[upto - 1]) } else { prev }
    }
}

/// The keys and display paths of the live decisions, in item order.
pub fn live_decisions(items: &Vec<CorpusItem>) -> (r: (Vec<ArtifactKey>, Vec<String>))
    ensures
        r.0@.len() == live_upto(items@, items@.len() as int).len(),
        r.1@.len() == r.0@.len(),
        forall|k: int| 0 <= k < r.0@.len() ==> (#[trigger] r.0@[k])@ == live_upto(items@, items@.len() as int)[k].key@
            && r.1@[k]@ == live_upto(items@, items@.len() as int)[k].path@,
{
    let mut keys: Vec<ArtifactKey> = Vec::new();
    let mut paths: Vec<String> = Vec::new();
    let mut i: usize = 0;
    while i < items.len()
        invariant
            i <= items@.len(),
            keys@.len() == live_upto(items@, i as int).len(),
            paths@.len() == keys@.len(),
            forall|k: int| 0 <= k < keys@.len() ==> (#[trigger] keys@[k])@ == live_upto(items@, i as int)[k].key@
                && paths@[k]@ == live_upto(items@, i as int)[k].path@,
        decreases items@.len() - i,
    {
        let it = &items[i];
        let live = match &it.spec_name {
            Some(n) => str_eq(n.as_str(), DECISION_TYPE) && it.live_decision,
            None => false,
        };
        assert(live == is_live_decision(items@[i as int]));
        let ghost lp = live_upto(items@, i as int);
        if live {
            keys.push(it.key.dup());
            paths.push(it.path.clone());
            assert(live_upto(items@, i as int + 1) == lp.push(items@[i as int]));
            assert forall|k: int| 0 <= k < keys@.len() implies (#[trigger] keys@[k])@ == live_upto(items@, i as int + 1)[k].key@
                && paths@[k]@ == live_upto(items@, i as int + 1)[k].path@ by {
                if k < lp.len() {
                    assert(live_upto(items@, i as int + 1)[k] == lp[k]);
                }
            }
        }
        i += 1;
    }
    (keys, paths)
}

/// `r` carries the three endpoints of one validated override.
pub open spec fn redirects(r: CanonicalRedirect, parent: ArtifactKey, replacement: ArtifactKey, rationale: ArtifactKey) -> bool {
    r.parent@ == parent@ && r.replacement@ == replacement@ && r.rationale@ == rationale@
}

/// The canonical redirects of a single-parent composition, in override
/// order.
pub fn composed_canonical_redirects(corpus: &ComposedCorpus) -> (r: Vec<CanonicalRedirect>)
    ensures
        r@.len() == corpus.overrides_view().len(),
        forall|i: int| 0 <= i < r@.len() ==> redirects(#[trigger] r@[i], corpus.overrides_view()[i].parent,
            corpus.overrides_view()[i].replacement, corpus.overrides_view()[i].rationale),
{
    let overrides = corpus.overrides();
    let mut r: Vec<CanonicalRedirect> = Vec::new();
    let mut i: usize = 0;
    while i < overrides.len()
        invariant
            i <= overrides@.len(),
            overrides@ == corpus.overrides_view(),
            r@.len() == i,
            forall|k: int| 0 <= k < i ==> redirects(#[trigger] r@[k], overrides@[k].parent, overrides@[k].replacement, overrides@[k].rationale),
        decreases overrides@.len() - i,
    {
        let m = &overrides[i];
        r.push(CanonicalRedirect { parent: m.parent.dup(), replacement: m.replacement.dup(), rationale: m.rationale.dup() });
        i += 1;
    }
    r
}

/// The canonical redirects of a source graph, in owner order.
pub fn graph_canonical_redirects(composition: &GraphComposition) -> (r: Vec<CanonicalRedirect>)
    ensures
        r@.len() == composition.ordered_view().len(),
        forall|i: int| 0 <= i < r@.len() ==> redirects(#[trigger] r@[i], composition.ordered_view()[i].target,
            composition.ordered_view()[i].replacement, composition.ordered_view()[i].rationale),
{
    let ordered = composition.ordered_overrides();
    let mut r: Vec<CanonicalRedirect> = Vec::new();
    let mut i: usize = 0;
    while i < ordered.len()
        invariant
            i <= ordered@.len(),
            ordered@ == composition.ordered_view(),
            r@.len() == i,
            forall|k: int| 0 <= k < i ==> redirects(#[trigger] r@[k], ordered@[k].target, ordered@[k].replacement, ordered@[k].rationale),
        decreases ordered@.len() - i,
    {
        let m = &ordered[i];
        r.push(CanonicalRedirect { parent: m.target.dup(), replacement: m.replacement.dup(), rationale: m.rationale.dup() });
        i += 1;
    }
    r
}

} // verus!
