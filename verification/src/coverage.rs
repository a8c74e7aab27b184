//! Traceability coverage: typed completeness gaps read off the resolved
//! relationship graph. A requirement no roadmap schedules, a decision no
//! requirement or roadmap applies, and a roadmap that references no
//! requirement are gaps; self-edges and unresolved references count for
//! nothing. Gaps are listed by class, then by artifact path, then by path.
use vstd::prelude::*;

use crate::composition::ComposedCorpus;
use crate::corpus::{ArtifactOrigin, ArtifactPath};
use crate::graph_composed::derefs;
use crate::item::CorpusItem;
use crate::order::{sort_indices, orders_keys, keys_views, strings_view};
use crate::text::{owned, str_eq};

verus! {

pub const GAP_UNSCHEDULED: &'static str = "unscheduled";
pub const GAP_UNAPPLIED: &'static str = "unapplied";
pub const GAP_UNSCOPED: &'static str = "unscoped";

pub const MISSING_UNSCHEDULED: &'static str = "no roadmap schedules this requirement";
pub const MISSING_UNAPPLIED: &'static str = "no requirement or roadmap applies this decision";
pub const MISSING_UNSCOPED: &'static str = "this roadmap references no requirement";

/// One relationship edge as coverage reads it: the artifact that declares
/// it and, when the reference resolved inside the corpus, its target.
#[derive(Debug, Clone)]
pub struct Relationship {
    pub source_artifact: Option<ArtifactPath>,
    pub resolved_artifact: Option<ArtifactPath>,
}

/// One typed traceability gap.
#[derive(Debug)]
pub struct CoverageGap {
    pub path: String,
    pub artifact_path: Option<ArtifactPath>,
    pub origin: Option<ArtifactOrigin>,
    pub id: String,
    pub artifact_type: String,
    pub gap: &'static str,
    pub missing: &'static str,
}

/// The coverage report of a directory.
#[derive(Debug)]
pub struct CoverageReport {
    pub directory: String,
    pub gaps: Vec<CoverageGap>,
}

/// The type coverage reads: the matched specification's name, or `unknown`.
pub open spec fn type_of(it: CorpusItem) -> Seq<char> {
    match it.spec_name {
        Some(n) => n@,
        None => "unknown"@,
    }
}

/// The last of the first `upto` items at artifact path `p`.
pub open spec fn last_at(items: Seq<CorpusItem>, p: (Seq<char>, Seq<char>), upto: int) -> Option<int>
    decreases upto,
{
    if upto <= 0 {
        None
    } else if items[upto - 1].artifact_path@ == p {
        Some(upto - 1)
    } else {
        last_at(items, p, upto - 1)
    }
}

/// The type recorded for an artifact path: that of the last item there.
pub open spec fn path_type(items: Seq<CorpusItem>, p: (Seq<char>, Seq<char>)) -> Option<Seq<char>> {
    match last_at(items, p, items.len() as int) {
        Some(i) => Some(type_of(items[i])),
        None => None,
    }
}

/// `rel` is a resolved edge between two different artifacts that reaches
/// `p` (`incoming`) or leaves it, with an artifact of type `t` at the other
/// end.
pub open spec fn typed_edge(items: Seq<CorpusItem>, rel: Relationship, p: (Seq<char>, Seq<char>), t: Seq<char>, incoming: bool) -> bool {
    match (rel.source_artifact, rel.resolved_artifact) {
        (Some(s), Some(r)) => s@ != r@ && if incoming {
            r@ == p && path_type(items, s@) == Some(t)
        } else {
            s@ == p && path_type(items, r@) == Some(t)
        },
        _ => false,
    }
}

pub open spec fn has_edge(items: Seq<CorpusItem>, rels: Seq<Relationship>, p: (Seq<char>, Seq<char>), t: Seq<char>, incoming: bool) -> bool {
    exists|j: int| 0 <= j < rels.len() && #[trigger] typed_edge(items, rels[j], p, t, incoming)
}

/// The gap class of an item (0 unscheduled, 1 unapplied, 2 unscoped), if any.
pub open spec fn gap_class(items: Seq<CorpusItem>, rels: Seq<Relationship>, it: CorpusItem) -> Option<int> {
    let t = type_of(it);
    let p = it.artifact_path@;
    if t == "requirement"@ && !has_edge(items, rels, p, "roadmap"@, true) {
        Some(0)
    } else if t == "decision"@ && !has_edge(items, rels, p, "requirement"@, true) && !has_edge(items, rels, p, "roadmap"@, true) {
        Some(1)
    } else if t == "roadmap"@ && !has_edge(items, rels, p, "requirement"@, false) {
        Some(2)
    } else {
        None
    }
}

pub open spec fn gap_word(class: int) -> Seq<char> {
    if class == 0 { GAP_UNSCHEDULED@ } else if class == 1 { GAP_UNAPPLIED@ } else { GAP_UNSCOPED@ }
}

pub open spec fn missing_word(class: int) -> Seq<char> {
    if class == 0 { MISSING_UNSCHEDULED@ } else if class == 1 { MISSING_UNAPPLIED@ } else { MISSING_UNSCOPED@ }
}

/// Positions of the items with a gap, in item order.
pub open spec fn gapped(items: Seq<CorpusItem>, rels: Seq<Relationship>, upto: int) -> Seq<int>
    decreases upto,
{
    if upto <= 0 {
        Seq::empty()
    } else {
        let prev = gapped(items, rels, upto - 1);
        if gap_class(items, rels, items[upto - 1]) is Some { prev.push(upto - 1) } else { prev }
    }
}

/// The digit of a gap class.
pub open spec fn class_digit(class: int) -> Seq<char> {
    if class == 0 { "0"@ } else if class == 1 { "1"@ } else { "2"@ }
}

/// The order key of the gap of item `it`.
pub open spec fn gap_key(items: Seq<CorpusItem>, rels: Seq<Relationship>, it: CorpusItem, provenance: bool) -> Seq<Seq<char>> {
    seq![class_digit(gap_class(items, rels, it).unwrap()),
        if provenance { it.artifact_path.source@ } else { ""@ },
        if provenance { it.artifact_path.relative_path@ } else { ""@ },
        it.path@]
}

/// `g` is the gap row of item `it`.
pub open spec fn gap_row(g: CoverageGap, items: Seq<CorpusItem>, rels: Seq<Relationship>, it: CorpusItem, provenance: bool) -> bool {
    let class = gap_class(items, rels, it).unwrap();
    &&& g.path@ == it.path@
    &&& (if provenance { g.artifact_path matches Some(a) && a@ == it.artifact_path@ } else { g.artifact_path is None })
    &&& (if provenance { g.origin == Some(it.origin) } else { g.origin is None })
    &&& g.id@ == it.identifier@
    &&& g.artifact_type@ == type_of(it)
    &&& g.gap@ == gap_word(class)
    &&& g.missing@ == missing_word(class)
}

/// What a coverage report holds for these items and relationships.
pub open spec fn covers(r: CoverageReport, directory: Seq<char>, items: Seq<CorpusItem>, rels: Seq<Relationship>, provenance: bool) -> bool {
    let cand = gapped(items, rels, items.len() as int);
    let keys = Seq::new(cand.len(), |k: int| gap_key(items, rels, items[cand[k]], provenance));
    &&& r.directory@ == directory
    &&& r.gaps@.len() == cand.len()
    &&& exists|ord: Seq<usize>| #[trigger] orders_keys(keys, ord)
        && forall|t: int| 0 <= t < cand.len() ==> gap_row(#[trigger] r.gaps@[t], items, rels, items[cand[ord[t] as int]], provenance)
}

fn item_type(it: &CorpusItem) -> (r: String)
    ensures
        r@ == type_of(*it),
{
    match &it.spec_name {
        Some(n) => n.clone(),
        None => owned("unknown"),
    }
}

fn same_path(a: &ArtifactPath, b: &ArtifactPath) -> (r: bool)
    ensures
        r == (a@ == b@),
{
    str_eq(a.source.as_str(), b.source.as_str()) && str_eq(a.relative_path.as_str(), b.relative_path.as_str())
}

fn path_type_is(items: &Vec<&CorpusItem>, p: &ArtifactPath, t: &str) -> (r: bool)
    ensures
        r == (path_type(derefs(items@), p@) == Some(t@)),
{
    let ghost s = derefs(items@);
    let mut i: usize = items.len();
    while i > 0
        invariant
            i <= items@.len(),
            s == derefs(items@),
            last_at(s, p@, s.len() as int) == last_at(s, p@, i as int),
        decreases i,
    {
        if same_path(&items[i - 1].artifact_path, p) {
            let ty = item_type(items[i - 1]);
            return str_eq(ty.as_str(), t);
        }
        i -= 1;
    }
    false
}

fn edge_exists(items: &Vec<&CorpusItem>, rels: &Vec<Relationship>, p: &ArtifactPath, t: &str, incoming: bool) -> (r: bool)
    ensures
        r == has_edge(derefs(items@), rels@, p@, t@, incoming),
{
    let ghost s = derefs(items@);
    let mut j: usize = 0;
    while j < rels.len()
        invariant
            j <= rels@.len(),
            s == derefs(items@),
            forall|k: int| 0 <= k < j ==> !#[trigger] typed_edge(s, rels@[k], p@, t@, incoming),
        decreases rels@.len() - j,
    {
        let rel = &rels[j];
        let hit = match (&rel.source_artifact, &rel.resolved_artifact) {
            (Some(src), Some(res)) => {
                if same_path(src, res) {
                    false
                } else if incoming {
                    same_path(res, p) && path_type_is(items, src, t)
                } else {
                    same_path(src, p) && path_type_is(items, res, t)
                }
            },
            _ => false,
        };
        if hit {
            assert(typed_edge(s, rels@[j as int], p@, t@, incoming));
            return true;
        }
        j += 1;
    }
    false
}

fn classify_gap(items: &Vec<&CorpusItem>, rels: &Vec<Relationship>, it: &CorpusItem) -> (r: Option<u8>)
    ensures
        match r {
            Some(c) => gap_class(derefs(items@), rels@, *it) == Some(c as int) && c <= 2,
            None => gap_class(derefs(items@), rels@, *it) is None,
        },
{
    let ty = item_type(it);
    let p = &it.artifact_path;
    proof {
        reveal_strlit("requirement");
        reveal_strlit("decision");
        reveal_strlit("roadmap");
    }
    if str_eq(ty.as_str(), "requirement") && !edge_exists(items, rels, p, "roadmap", true) {
        Some(0)
    } else if str_eq(ty.as_str(), "decision") && !edge_exists(items, rels, p, "requirement", true) && !edge_exists(items, rels, p, "roadmap", true) {
        Some(1)
    } else if str_eq(ty.as_str(), "roadmap") && !edge_exists(items, rels, p, "requirement", false) {
        Some(2)
    } else {
        None
    }
}

fn gap_words(class: u8) -> (r: (&'static str, &'static str, &'static str))
    requires
        class <= 2,
    ensures
        r.0@ == gap_word(class as int),
        r.1@ == missing_word(class as int),
        r.2@ == class_digit(class as int),
{
    if class == 0 {
        (GAP_UNSCHEDULED, MISSING_UNSCHEDULED, "0")
    } else if class == 1 {
        (GAP_UNAPPLIED, MISSING_UNAPPLIED, "1")
    } else {
        (GAP_UNSCOPED, MISSING_UNSCOPED, "2")
    }
}

fn copy_path(p: &ArtifactPath) -> (r: ArtifactPath)
    ensures
        r@ == p@,
{
    ArtifactPath { source: p.source.clone(), relative_path: p.relative_path.clone() }
}

fn gap_for(items: &Vec<&CorpusItem>, rels: &Vec<Relationship>, it: &CorpusItem, class: u8, provenance: bool) -> (r: CoverageGap)
    requires
        class <= 2,
        gap_class(derefs(items@), rels@, *it) == Some(class as int),
    ensures
        gap_row(r, derefs(items@), rels@, *it, provenance),
{
    let (gap, missing, _) = gap_words(class);
    CoverageGap {
        path: it.path.clone(),
        artifact_path: if provenance { Some(copy_path(&it.artifact_path)) } else { None },
        origin: if provenance { Some(it.origin.dup()) } else { None },
        id: it.identifier.clone(),
        artifact_type: item_type(it),
        gap,
        missing,
    }
}

fn analyze_coverage_from_items(directory: &str, items: &Vec<&CorpusItem>, rels: &Vec<Relationship>, provenance: bool) -> (r: CoverageReport)
    ensures
        covers(r, directory@, derefs(items@), rels@, provenance),
{
    let ghost s = derefs(items@);
    let mut cand: Vec<usize> = Vec::new();
    let mut classes: Vec<u8> = Vec::new();
    let mut keys: Vec<Vec<String>> = Vec::new();
    let mut i: usize = 0;
    while i < items.len()
        invariant
            i <= items@.len(),
            s == derefs(items@),
            cand@.len() == classes@.len(),
            cand@.len() == keys@.len(),
            cand@.map_values(|c: usize| c as int) == gapped(s, rels@, i as int),
            forall|k: int| 0 <= k < cand@.len() ==> #[trigger] cand@[k] < i && classes@[k] <= 2
                && gap_class(s, rels@, s[cand@[k] as int]) == Some(classes@[k] as int),
            forall|k: int| 0 <= k < cand@.len() ==> strings_view(#[trigger] keys@[k]@) == gap_key(s, rels@, s[cand@[k] as int], provenance),
        decreases items@.len() - i,
    {
        let it = items[i];
        match classify_gap(items, rels, it) {
            Some(c) => {
                let (_, _, digit) = gap_words(c);
                let key = vec![
                    owned(digit),
                    if provenance { it.artifact_path.source.clone() } else { owned("") },
                    if provenance { it.artifact_path.relative_path.clone() } else { owned("") },
                    it.path.clone(),
                ];
                assert(strings_view(key@) =~= gap_key(s, rels@, s[i as int], provenance));
                cand.push(i);
                classes.push(c);
                keys.push(key);
                assert(cand@.map_values(|c: usize| c as int) =~= gapped(s, rels@, i as int).push(i as int));
            },
            None => {},
        }
        i += 1;
    }
    let ghost cv = gapped(s, rels@, s.len() as int);
    let ghost kv = Seq::new(cv.len(), |k: int| gap_key(s, rels@, s[cv[k]], provenance));
    proof {
        assert forall|k: int| 0 <= k < cv.len() implies cv[k] == cand@[k] as int by {
            assert(cand@.map_values(|c: usize| c as int)[k] == cand@[k] as int);
        }
        assert(keys_views(keys@) =~= kv);
    }
    let ord = sort_indices(keys);
    let mut gaps: Vec<CoverageGap> = Vec::new();
    let mut t: usize = 0;
    while t < ord.len()
        invariant
            t <= ord@.len(),
            s == derefs(items@),
            orders_keys(kv, ord@),
            kv.len() == cv.len(),
            cv.len() == cand@.len(),
            cand@.len() == classes@.len(),
            forall|k: int| 0 <= k < cv.len() ==> #[trigger] cv[k] == cand@[k] as int,
            forall|k: int| 0 <= k < cand@.len() ==> #[trigger] cand@[k] < items@.len() && classes@[k] <= 2
                && gap_class(s, rels@, s[cand@[k] as int]) == Some(classes@[k] as int),
            gaps@.len() == t,
            forall|q: int| 0 <= q < t ==> gap_row(#[trigger] gaps@[q], s, rels@, s[cv[ord@[q] as int]], provenance),
        decreases ord@.len() - t,
    {
        let k = ord[t];
        let idx = cand[k];
        let row = gap_for(items, rels, items[idx], classes[k], provenance);
        assert(cv[k as int] == idx as int);
        gaps.push(row);
        t += 1;
    }
    let r = CoverageReport { directory: owned(directory), gaps };
    assert(orders_keys(kv, ord@));
    r
}

fn refs_of(items: &Vec<CorpusItem>) -> (r: Vec<&CorpusItem>)
    ensures
        derefs(r@) == items@,
{
    let mut r: Vec<&CorpusItem> = Vec::new();
    let mut i: usize = 0;
    while i < items.len()
        invariant
            i <= items@.len(),
            derefs(r@) == items@.take(i as int),
        decreases items@.len() - i,
    {
        let ghost before = r@;
        r.push(&items[i]);
        assert(derefs(r@) =~= derefs(before).push(items@[i as int]));
        assert(items@.take(i as int + 1) =~= items@.take(i as int).push(items@[i as int]));
        i += 1;
    }
    assert(items@.take(items@.len() as int) =~= items@);
    r
}

/// Coverage of a walked corpus: its items and their resolved relationships.
pub fn analyze_coverage(directory: &str, items: &Vec<CorpusItem>, relationships: &Vec<Relationship>) -> (r: CoverageReport)
    ensures
        covers(r, directory@, items@, relationships@, false),
{
    let refs = refs_of(items);
    analyze_coverage_from_items(directory, &refs, relationships, false)
}

/// Coverage over the effective view of a composed corpus, with artifact
/// paths and provenance on every gap.
pub fn analyze_coverage_from_composed(directory: &str, corpus: &ComposedCorpus, relationships: &Vec<Relationship>) -> (r: CoverageReport)
    ensures
        covers(r, directory@, Seq::new(corpus.effective_view().len(), |k: int| corpus.catalog_view()[corpus.effective_view()[k]]), relationships@, true),
{
    let refs = corpus.effective();
    assert(derefs(refs@) =~= Seq::new(corpus.effective_view().len(), |k: int| corpus.catalog_view()[corpus.effective_view()[k]]));
    analyze_coverage_from_items(directory, &refs, relationships, true)
}

/// How many gaps of the first `upto` carry the gap word `w`.
pub open spec fn count_gap(gaps: Seq<CoverageGap>, w: Seq<char>, upto: int) -> nat
    decreases upto,
{
    if upto <= 0 {
        0
    } else {
        count_gap(gaps, w, upto - 1) + if gaps[upto - 1].gap@ == w { 1nat } else { 0nat }
    }
}

/// How many gaps carry neither of two words.
pub open spec fn count_other(gaps: Seq<CoverageGap>, a: Seq<char>, b: Seq<char>, upto: int) -> nat
    decreases upto,
{
    if upto <= 0 {
        0
    } else {
        count_other(gaps, a, b, upto - 1) + if gaps[upto - 1].gap@ != a && gaps[upto - 1].gap@ != b { 1nat } else { 0nat }
    }
}

impl CoverageReport {
    /// `(unscheduled, unapplied, unscoped)`; any other gap word counts as
    /// unscoped.
    pub fn counts(&self) -> (r: (usize, usize, usize))
        ensures
            r.0 == count_gap(self.gaps@, GAP_UNSCHEDULED@, self.gaps@.len() as int),
            r.1 == count_gap(self.gaps@, GAP_UNAPPLIED@, self.gaps@.len() as int),
            r.2 == count_other(self.gaps@, GAP_UNSCHEDULED@, GAP_UNAPPLIED@, self.gaps@.len() as int),
    {
        proof {
            reveal_strlit("unscheduled");
            reveal_strlit("unapplied");
            assert(GAP_UNSCHEDULED@.len() != GAP_UNAPPLIED@.len());
        }
        let mut a: usize = 0;
        let mut b: usize = 0;
        let mut c: usize = 0;
        let mut i: usize = 0;
        while i < self.gaps.len()
            invariant
                i <= self.gaps@.len(),
                a == count_gap(self.gaps@, GAP_UNSCHEDULED@, i as int),
                b == count_gap(self.gaps@, GAP_UNAPPLIED@, i as int),
                c == count_other(self.gaps@, GAP_UNSCHEDULED@, GAP_UNAPPLIED@, i as int),
                a + b + c == i,
                GAP_UNSCHEDULED@ != GAP_UNAPPLIED@,
            decreases self.gaps@.len() - i,
        {
            let g = self.gaps[i].gap;
            if str_eq(g, GAP_UNSCHEDULED) {
                a += 1;
            } else if str_eq(g, GAP_UNAPPLIED) {
                b += 1;
            } else {
                c += 1;
            }
            i += 1;
        }
        (a, b, c)
    }
}

proof fn lemma_gapped(items: Seq<CorpusItem>, rels: Seq<Relationship>, upto: int)
    requires
        0 <= upto <= items.len(),
    ensures
        forall|k: int| 0 <= k < gapped(items, rels, upto).len() ==> {
            let i = #[trigger] gapped(items, rels, upto)[k];
            0 <= i < upto && gap_class(items, rels, items[i]) is Some
        },
    decreases upto,
{
    if upto > 0 {
        lemma_gapped(items, rels, upto - 1);
    }
}

/// A resolved edge between two artifacts reaches `p` from an artifact whose
/// recorded type is `t`.
pub open spec fn applied_from(items: Seq<CorpusItem>, rels: Seq<Relationship>, p: (Seq<char>, Seq<char>), t: Seq<char>) -> bool {
    exists|j: int| 0 <= j < rels.len() && #[trigger] edge_into(items, rels[j], p, t)
}

/// `rel` declares an edge from an artifact of recorded type `t` to another
/// artifact, at `p`, and it resolved.
pub open spec fn edge_into(items: Seq<CorpusItem>, rel: Relationship, p: (Seq<char>, Seq<char>), t: Seq<char>) -> bool {
    rel.source_artifact matches Some(s) && (rel.resolved_artifact matches Some(x)
        && s@ != x@ && x@ == p && path_type(items, s@) == Some(t))
}

/// Gap `g` is reported for item `it`: its path, id and type are the
/// item's; an unapplied gap is a decision that no resolved edge from a
/// requirement or from a roadmap reaches; an unscheduled gap a requirement
/// no roadmap edge reaches.
pub open spec fn gap_explained(g: CoverageGap, items: Seq<CorpusItem>, rels: Seq<Relationship>, it: CorpusItem) -> bool {
    &&& g.path@ == it.path@ && g.id@ == it.identifier@ && g.artifact_type@ == type_of(it)
    &&& (g.gap@ == GAP_UNAPPLIED@ ==> type_of(it) == "decision"@
        && !applied_from(items, rels, it.artifact_path@, "requirement"@)
        && !applied_from(items, rels, it.artifact_path@, "roadmap"@))
    &&& (g.gap@ == GAP_UNSCHEDULED@ ==> type_of(it) == "requirement"@
        && !applied_from(items, rels, it.artifact_path@, "roadmap"@))
    &&& (g.gap@ == GAP_UNSCOPED@ ==> type_of(it) == "roadmap"@
        && !refers_to(items, rels, it.artifact_path@, "requirement"@))
    &&& (g.gap@ == GAP_UNAPPLIED@ || g.gap@ == GAP_UNSCHEDULED@ || g.gap@ == GAP_UNSCOPED@)
}

/// `rel` declares an edge from `p` to another artifact of recorded type
/// `t`, and it resolved.
pub open spec fn edge_from(items: Seq<CorpusItem>, rel: Relationship, p: (Seq<char>, Seq<char>), t: Seq<char>) -> bool {
    rel.source_artifact matches Some(s) && (rel.resolved_artifact matches Some(x)
        && s@ != x@ && s@ == p && path_type(items, x@) == Some(t))
}

pub open spec fn refers_to(items: Seq<CorpusItem>, rels: Seq<Relationship>, p: (Seq<char>, Seq<char>), t: Seq<char>) -> bool {
    exists|j: int| 0 <= j < rels.len() && #[trigger] edge_from(items, rels[j], p, t)
}

pub open spec fn gap_of_some_item(g: CoverageGap, items: Seq<CorpusItem>, rels: Seq<Relationship>) -> bool {
    exists|i: int| 0 <= i < items.len() && #[trigger] gap_explained(g, items, rels, items[i])
}

/// Every gap of a report is that of a listed item, and says what it lacks:
/// so a decision that a roadmap (or a requirement) applies is never
/// reported unapplied, and a requirement a roadmap schedules never
/// unscheduled.
pub proof fn law_gaps_are_missing_edges(r: CoverageReport, directory: Seq<char>, items: Seq<CorpusItem>, rels: Seq<Relationship>, provenance: bool)
    requires
        covers(r, directory, items, rels, provenance),
    ensures
        forall|t: int| 0 <= t < r.gaps@.len() ==> #[trigger] gap_of_some_item(r.gaps@[t], items, rels),
{
    let cand = gapped(items, rels, items.len() as int);
    let keys = Seq::new(cand.len(), |k: int| gap_key(items, rels, items[cand[k]], provenance));
    let ord = choose|ord: Seq<usize>| #[trigger] orders_keys(keys, ord)
        && forall|t: int| 0 <= t < cand.len() ==> gap_row(#[trigger] r.gaps@[t], items, rels, items[cand[ord[t] as int]], provenance);
    lemma_gapped(items, rels, items.len() as int);
    reveal_strlit("unscheduled");
    reveal_strlit("unapplied");
    reveal_strlit("unscoped");
    assert forall|t: int| 0 <= t < r.gaps@.len() implies #[trigger] gap_of_some_item(r.gaps@[t], items, rels) by {
        assert(orders_keys(keys, ord));
        let k = ord[t] as int;
        let i = cand[k];
        let g = r.gaps@[t];
        let it = items[i];
        assert(gap_row(g, items, rels, it, provenance));
        let p = it.artifact_path@;
        lemma_edges_agree(items, rels, p);
        assert(GAP_UNAPPLIED@[2] != GAP_UNSCHEDULED@[2]);
        assert(GAP_UNAPPLIED@[2] != GAP_UNSCOPED@[2]);
        assert(GAP_UNSCHEDULED@[4] != GAP_UNSCOPED@[4]);
        assert(gap_explained(g, items, rels, items[i]));
    }
}

proof fn lemma_edges_agree(items: Seq<CorpusItem>, rels: Seq<Relationship>, p: (Seq<char>, Seq<char>))
    ensures
        forall|tt: Seq<char>| #[trigger] applied_from(items, rels, p, tt) <==> has_edge(items, rels, p, tt, true),
        forall|tt: Seq<char>| #[trigger] refers_to(items, rels, p, tt) <==> has_edge(items, rels, p, tt, false),
{
    assert forall|tt: Seq<char>| #[trigger] applied_from(items, rels, p, tt) <==> has_edge(items, rels, p, tt, true) by {
        if applied_from(items, rels, p, tt) {
            let j = choose|j: int| 0 <= j < rels.len() && #[trigger] edge_into(items, rels[j], p, tt);
            assert(typed_edge(items, rels[j], p, tt, true));
        }
        if has_edge(items, rels, p, tt, true) {
            let j = choose|j: int| 0 <= j < rels.len() && #[trigger] typed_edge(items, rels[j], p, tt, true);
            assert(edge_into(items, rels[j], p, tt));
        }
    }
    assert forall|tt: Seq<char>| #[trigger] refers_to(items, rels, p, tt) <==> has_edge(items, rels, p, tt, false) by {
        if refers_to(items, rels, p, tt) {
            let j = choose|j: int| 0 <= j < rels.len() && #[trigger] edge_from(items, rels[j], p, tt);
            assert(typed_edge(items, rels[j], p, tt, false));
        }
        if has_edge(items, rels, p, tt, false) {
            let j = choose|j: int| 0 <= j < rels.len() && #[trigger] typed_edge(items, rels[j], p, tt, false);
            assert(edge_from(items, rels[j], p, tt));
        }
    }
}

proof fn lemma_gapped_len(items: Seq<CorpusItem>, rels: Seq<Relationship>, upto: int)
    requires
        0 <= upto,
    ensures
        gapped(items, rels, upto).len() <= upto,
    decreases upto,
{
    if upto > 0 {
        lemma_gapped_len(items, rels, upto - 1);
    }
}

proof fn lemma_gapped_contains(items: Seq<CorpusItem>, rels: Seq<Relationship>, upto: int, i: int)
    requires
        0 <= i < upto <= items.len(),
        gap_class(items, rels, items[i]) is Some,
    ensures
        gapped(items, rels, upto).contains(i),
    decreases upto,
{
    if i < upto - 1 {
        lemma_gapped_contains(items, rels, upto - 1, i);
        let prev = gapped(items, rels, upto - 1);
        let k = choose|k: int| 0 <= k < prev.len() && prev[k] == i;
        if gap_class(items, rels, items[upto - 1]) is Some {
            assert(prev.push(upto - 1)[k] == i);
        }
    } else {
        let prev = gapped(items, rels, upto - 1);
        assert(prev.push(upto - 1)[prev.len() as int] == i);
    }
}

/// An item with a missing edge is reported: a decision no requirement or
/// roadmap applies as unapplied, a requirement no roadmap schedules as
/// unscheduled, a roadmap that references no requirement as unscoped.
pub proof fn law_missing_edges_are_gaps(r: CoverageReport, directory: Seq<char>, items: Seq<CorpusItem>, rels: Seq<Relationship>, provenance: bool, i: int)
    requires
        covers(r, directory, items, rels, provenance),
        0 <= i < items.len(),
        items.len() <= usize::MAX,
    ensures
        (type_of(items[i]) == "decision"@ && !applied_from(items, rels, items[i].artifact_path@, "requirement"@)
            && !applied_from(items, rels, items[i].artifact_path@, "roadmap"@))
            ==> exists|t: int| 0 <= t < r.gaps@.len() && (#[trigger] r.gaps@[t]).gap@ == GAP_UNAPPLIED@
                && r.gaps@[t].path@ == items[i].path@ && r.gaps@[t].id@ == items[i].identifier@,
        (type_of(items[i]) == "requirement"@ && !applied_from(items, rels, items[i].artifact_path@, "roadmap"@))
            ==> exists|t: int| 0 <= t < r.gaps@.len() && (#[trigger] r.gaps@[t]).gap@ == GAP_UNSCHEDULED@
                && r.gaps@[t].path@ == items[i].path@ && r.gaps@[t].id@ == items[i].identifier@,
        (type_of(items[i]) == "roadmap"@ && !refers_to(items, rels, items[i].artifact_path@, "requirement"@))
            ==> exists|t: int| 0 <= t < r.gaps@.len() && (#[trigger] r.gaps@[t]).gap@ == GAP_UNSCOPED@
                && r.gaps@[t].path@ == items[i].path@ && r.gaps@[t].id@ == items[i].identifier@,
{
    reveal_strlit("requirement");
    reveal_strlit("decision");
    reveal_strlit("roadmap");
    let it = items[i];
    assert("decision"@[0] != "requirement"@[0]);
    assert("decision"@[0] != "roadmap"@[0]);
    assert("roadmap"@[1] != "requirement"@[1]);
    lemma_edges_agree(items, rels, it.artifact_path@);
    if gap_class(items, rels, it) is Some {
        let cand = gapped(items, rels, items.len() as int);
        let keys = Seq::new(cand.len(), |k: int| gap_key(items, rels, items[cand[k]], provenance));
        let ord = choose|ord: Seq<usize>| #[trigger] orders_keys(keys, ord)
            && forall|t: int| 0 <= t < cand.len() ==> gap_row(#[trigger] r.gaps@[t], items, rels, items[cand[ord[t] as int]], provenance);
        lemma_gapped_contains(items, rels, items.len() as int, i);
        let k = choose|k: int| 0 <= k < cand.len() && cand[k] == i;
        assert(cand.len() <= items.len()) by {
            lemma_gapped_len(items, rels, items.len() as int);
        }
        assert(orders_keys(keys, ord));
        assert(ord.contains(k as usize));
        let t = choose|t: int| 0 <= t < ord.len() && ord[t] == k as usize;
        assert(gap_row(r.gaps@[t], items, rels, items[cand[ord[t] as int]], provenance));
        assert(ord[t] as int == k);
        assert(items[cand[ord[t] as int]] == it);
        reveal_strlit("unscheduled");
        reveal_strlit("unapplied");
        reveal_strlit("unscoped");
    }
}

} // verus!
