//! The catalog of a source graph: every parsed item checked against the
//! topology, ordered by artifact path and key.
use vstd::prelude::*;

use crate::composition::fold;
use crate::corpus::{layer_word, Layer};
use crate::graph_composition::{finding_view, findings_view, GraphCompositionFinding, GraphFindingReason, FINDING_INVALID_GRAPH};
use crate::graph_topology::{declares, has_source, FindingView};
use crate::graph_composition::SourceNodeInput;
use crate::item::CorpusItem;
use crate::order::{sort_by_key, sorted_by_key};
use crate::text::{fold_case, owned, push_str, str_eq};

verus! {

broadcast use vstd::seq_lib::group_to_multiset_ensures;

/// A graph finding about one item.
pub open spec fn item_view(reason: GraphFindingReason, it: CorpusItem, message: Seq<char>) -> FindingView {
    (FINDING_INVALID_GRAPH@, reason, Some(it.key.source@), seq![it.key@], message)
}

/// The key, path and origin name one source.
pub open spec fn sources_agree(it: CorpusItem) -> bool {
    it.key.source@ == it.origin.source@ && it.key.source@ == it.artifact_path.source@
}

/// The root's own items are local; all others are inherited.
pub open spec fn expected_layer(it: CorpusItem, root: Seq<char>) -> Layer {
    if it.key.source@ == root { Layer::Local } else { Layer::Inherited }
}

/// The item belongs to a known source with consistent provenance.
pub open spec fn well_placed(s: Seq<CorpusItem>, kept: Seq<SourceNodeInput>, root: Seq<char>, i: int) -> bool {
    &&& declares(kept, s[i].key.source@)
    &&& sources_agree(s[i])
    &&& s[i].origin.layer == expected_layer(s[i], root)
}

/// Well placed, and no earlier well-placed item has its key.
pub open spec fn first_of_key(s: Seq<CorpusItem>, kept: Seq<SourceNodeInput>, root: Seq<char>, i: int) -> bool {
    &&& well_placed(s, kept, root, i)
    &&& forall|j: int| 0 <= j < i && well_placed(s, kept, root, j) ==> s[j].key@ != s[i].key@
}

/// Source and case-folded canonical id.
pub open spec fn canon_of(it: CorpusItem) -> (Seq<char>, Seq<char>) {
    (it.key.source@, fold(it.key.canonical_id@))
}

/// The last item before `upto` that was admitted with the canonical id of
/// item `i`.
pub open spec fn last_canon(s: Seq<CorpusItem>, kept: Seq<SourceNodeInput>, root: Seq<char>, i: int, upto: int) -> Option<int>
    decreases upto,
{
    if upto <= 0 {
        None
    } else if first_of_key(s, kept, root, upto - 1) && canon_of(s[upto - 1]) == canon_of(s[i]) {
        Some(upto - 1)
    } else {
        last_canon(s, kept, root, i, upto - 1)
    }
}

pub open spec fn unknown_item_source_message(src: Seq<char>) -> Seq<char> {
    "artifact belongs to unknown source '"@ + src + "'"@
}

pub open spec fn sources_differ_message() -> Seq<char> {
    "artifact key, path, and origin sources differ"@
}

pub open spec fn wrong_layer_message(src: Seq<char>, layer: Layer, expected: Layer) -> Seq<char> {
    "source '"@ + src + "' has layer '"@ + layer_word(layer) + "' but graph root semantics require '"@ + layer_word(expected) + "'"@
}

pub open spec fn duplicate_key_message(src: Seq<char>, id: Seq<char>) -> Seq<char> {
    "artifact key '"@ + src + "::"@ + id + "' occurs more than once"@
}

pub open spec fn duplicate_canonical_message(src: Seq<char>, id: Seq<char>) -> Seq<char> {
    "source '"@ + src + "' contains duplicate canonical id '"@ + id + "'"@
}

/// Why item `i` of the ordered catalog is refused, if it is: the first
/// failing check wins.
pub open spec fn item_refusal(s: Seq<CorpusItem>, kept: Seq<SourceNodeInput>, root: Seq<char>, i: int) -> Option<FindingView> {
    let it = s[i];
    let src = it.key.source@;
    if !declares(kept, src) {
        Some(item_view(GraphFindingReason::UnknownItemSource, it, unknown_item_source_message(src)))
    } else if !sources_agree(it) {
        Some(item_view(GraphFindingReason::IdentitySourceMismatch, it, sources_differ_message()))
    } else if it.origin.layer != expected_layer(it, root) {
        Some(item_view(GraphFindingReason::IdentitySourceMismatch, it, wrong_layer_message(src, it.origin.layer, expected_layer(it, root))))
    } else if !first_of_key(s, kept, root, i) {
        Some(item_view(GraphFindingReason::DuplicateArtifactKey, it, duplicate_key_message(src, it.key.canonical_id@)))
    } else {
        match last_canon(s, kept, root, i, i) {
            Some(j) => Some((FINDING_INVALID_GRAPH@, GraphFindingReason::DuplicateArtifactKey, Some(src),
                seq![s[j].key@, it.key@], duplicate_canonical_message(src, it.key.canonical_id@))),
            None => None,
        }
    }
}

/// Some item of the ordered catalog is refused for `x`.
pub open spec fn item_finding(s: Seq<CorpusItem>, kept: Seq<SourceNodeInput>, root: Seq<char>, x: FindingView) -> bool {
    exists|i: int| 0 <= i < s.len() && #[trigger] item_refusal(s, kept, root, i) == Some(x)
}

fn item_finding_exec(reason: GraphFindingReason, it: &CorpusItem, message: String) -> (r: GraphCompositionFinding)
    ensures
        finding_view(r) == item_view(reason, *it, message@),
{
    let r = GraphCompositionFinding {
        code: FINDING_INVALID_GRAPH,
        reason,
        owner_source: Some(it.key.source.clone()),
        artifacts: vec![it.key.dup()],
        message,
    };
    assert(crate::graph_composition::keys_view(r.artifacts@) =~= seq![it.key@]);
    r
}

fn is_well_placed(s: &Vec<CorpusItem>, kept: &Vec<SourceNodeInput>, root: &str, i: usize) -> (r: bool)
    requires
        i < s@.len(),
    ensures
        r == well_placed(s@, kept@, root@, i as int),
{
    let it = &s[i];
    if has_source(kept, it.key.source.as_str()).is_none() {
        return false;
    }
    if !str_eq(it.key.source.as_str(), it.origin.source.as_str()) || !str_eq(it.key.source.as_str(), it.artifact_path.source.as_str()) {
        return false;
    }
    let expected = if str_eq(it.key.source.as_str(), root) { Layer::Local } else { Layer::Inherited };
    it.origin.layer == expected
}

fn is_first_of_key(s: &Vec<CorpusItem>, kept: &Vec<SourceNodeInput>, root: &str, i: usize) -> (r: bool)
    requires
        i < s@.len(),
        well_placed(s@, kept@, root@, i as int),
    ensures
        r == first_of_key(s@, kept@, root@, i as int),
{
    let mut j: usize = 0;
    while j < i
        invariant
            i < s@.len(),
            j <= i,
            forall|a: int| 0 <= a < j && well_placed(s@, kept@, root@, a) ==> s@[a].key@ != s@[i as int].key@,
        decreases i - j,
    {
        if is_well_placed(s, kept, root, j) && s[j].key.same(&s[i].key) {
            return false;
        }
        j += 1;
    }
    true
}

/// The position of the last admitted item before `i` with the canonical id
/// of item `i`; `folds` holds each item's folded canonical id.
fn find_last_canon(s: &Vec<CorpusItem>, folds: &Vec<String>, kept: &Vec<SourceNodeInput>, root: &str, i: usize) -> (r: Option<usize>)
    requires
        i < s@.len(),
        folds@.len() == s@.len(),
        forall|k: int| 0 <= k < s@.len() ==> (#[trigger] folds@[k])@ == fold(s@[k].key.canonical_id@),
    ensures
        match r {
            Some(j) => j < i && last_canon(s@, kept@, root@, i as int, i as int) == Some(j as int),
            None => last_canon(s@, kept@, root@, i as int, i as int) is None,
        },
{
    let mut u: usize = i;
    while u > 0
        invariant
            u <= i < s@.len(),
            folds@.len() == s@.len(),
            forall|k: int| 0 <= k < s@.len() ==> (#[trigger] folds@[k])@ == fold(s@[k].key.canonical_id@),
            last_canon(s@, kept@, root@, i as int, i as int) == last_canon(s@, kept@, root@, i as int, u as int),
        decreases u,
    {
        let j = u - 1;
        let admitted = is_well_placed(s, kept, root, j) && is_first_of_key(s, kept, root, j);
        if admitted && str_eq(s[j].key.source.as_str(), s[i].key.source.as_str()) && str_eq(folds[j].as_str(), folds[i].as_str()) {
            return Some(j);
        }
        u -= 1;
    }
    None
}

fn text3(a: &str, b: &str, c: &str) -> (r: String)
    ensures
        r@ == a@ + b@ + c@,
{
    let mut r = owned(a);
    push_str(&mut r, b);
    push_str(&mut r, c);
    r
}

/// Why item `i` is refused, if it is.
fn refusal_of(s: &Vec<CorpusItem>, folds: &Vec<String>, kept: &Vec<SourceNodeInput>, root: &str, i: usize) -> (r: Option<GraphCompositionFinding>)
    requires
        i < s@.len(),
        folds@.len() == s@.len(),
        forall|k: int| 0 <= k < s@.len() ==> (#[trigger] folds@[k])@ == fold(s@[k].key.canonical_id@),
    ensures
        match r {
            Some(f) => item_refusal(s@, kept@, root@, i as int) == Some(finding_view(f)),
            None => item_refusal(s@, kept@, root@, i as int) is None,
        },
{
    let it = &s[i];
    let src = it.key.source.as_str();
    if has_source(kept, src).is_none() {
        let m = text3("artifact belongs to unknown source '", src, "'");
        return Some(item_finding_exec(GraphFindingReason::UnknownItemSource, it, m));
    }
    if !str_eq(src, it.origin.source.as_str()) || !str_eq(src, it.artifact_path.source.as_str()) {
        return Some(item_finding_exec(GraphFindingReason::IdentitySourceMismatch, it, owned("artifact key, path, and origin sources differ")));
    }
    let expected = if str_eq(src, root) { Layer::Local } else { Layer::Inherited };
    if it.origin.layer != expected {
        let mut m = text3("source '", src, "' has layer '");
        push_str(&mut m, it.origin.layer.as_str());
        push_str(&mut m, "' but graph root semantics require '");
        push_str(&mut m, expected.as_str());
        push_str(&mut m, "'");
        return Some(item_finding_exec(GraphFindingReason::IdentitySourceMismatch, it, m));
    }
    if !is_first_of_key(s, kept, root, i) {
        let mut m = text3("artifact key '", src, "::");
        push_str(&mut m, it.key.canonical_id.as_str());
        push_str(&mut m, "' occurs more than once");
        return Some(item_finding_exec(GraphFindingReason::DuplicateArtifactKey, it, m));
    }
    match find_last_canon(s, folds, kept, root, i) {
        None => None,
        Some(j) => {
            let m = {
                let mut m = text3("source '", src, "' contains duplicate canonical id '");
                push_str(&mut m, it.key.canonical_id.as_str());
                push_str(&mut m, "'");
                m
            };
            let f = GraphCompositionFinding {
                code: FINDING_INVALID_GRAPH,
                reason: GraphFindingReason::DuplicateArtifactKey,
                owner_source: Some(it.key.source.clone()),
                artifacts: vec![s[j].key.dup(), it.key.dup()],
                message: m,
            };
            assert(crate::graph_composition::keys_view(f.artifacts@) =~= seq![s@[j as int].key@, it.key@]);
            Some(f)
        },
    }
}

/// The folded canonical id of every item.
fn fold_ids(s: &Vec<CorpusItem>) -> (r: Vec<String>)
    ensures
        r@.len() == s@.len(),
        forall|k: int| 0 <= k < s@.len() ==> (#[trigger] r@[k])@ == fold(s@[k].key.canonical_id@),
{
    let mut r: Vec<String> = Vec::new();
    let mut i: usize = 0;
    while i < s.len()
        invariant
            i <= s@.len(),
            r@.len() == i,
            forall|k: int| 0 <= k < i ==> (#[trigger] r@[k])@ == fold(s@[k].key.canonical_id@),
        decreases s@.len() - i,
    {
        r.push(fold_case(s[i].key.canonical_id.as_str()));
        i += 1;
    }
    r
}

/// Order the items by artifact path and key and collect every refusal.
pub fn prepare_items(kept: &Vec<SourceNodeInput>, root: &str, items: Vec<CorpusItem>) -> (r: (Vec<CorpusItem>, Vec<GraphCompositionFinding>))
    ensures
        r.0@.to_multiset() == items@.to_multiset(),
        sorted_by_key(r.0@),
        forall|x: FindingView| #[trigger] findings_view(r.1@).contains(x) <==> item_finding(r.0@, kept@, root@, x),
{
    let s = sort_by_key(items);
    let folds = fold_ids(&s);
    let mut findings: Vec<GraphCompositionFinding> = Vec::new();
    let mut i: usize = 0;
    while i < s.len()
        invariant
            i <= s@.len(),
            folds@.len() == s@.len(),
            forall|k: int| 0 <= k < s@.len() ==> (#[trigger] folds@[k])@ == fold(s@[k].key.canonical_id@),
            forall|x: FindingView| #[trigger] findings_view(findings@).contains(x) <==>
                exists|a: int| 0 <= a < i && #[trigger] item_refusal(s@, kept@, root@, a) == Some(x),
        decreases s@.len() - i,
    {
        let ghost before = findings_view(findings@);
        match refusal_of(&s, &folds, kept, root, i) {
            Some(f) => {
                findings.push(f);
                proof {
                    assert(findings_view(findings@) =~= before.push(finding_view(f)));
                    assert forall|x: FindingView| #[trigger] findings_view(findings@).contains(x) <==>
                        exists|a: int| 0 <= a < i + 1 && #[trigger] item_refusal(s@, kept@, root@, a) == Some(x) by {
                        if findings_view(findings@).contains(x) {
                            let t = choose|t: int| 0 <= t < findings_view(findings@).len() && findings_view(findings@)[t] == x;
                            if t < before.len() {
                                assert(before[t] == x);
                                assert(before.contains(x));
                            } else {
                                assert(item_refusal(s@, kept@, root@, i as int) == Some(x));
                            }
                        }
                        if exists|a: int| 0 <= a < i + 1 && #[trigger] item_refusal(s@, kept@, root@, a) == Some(x) {
                            let a = choose|a: int| 0 <= a < i + 1 && #[trigger] item_refusal(s@, kept@, root@, a) == Some(x);
                            if a < i {
                                assert(before.contains(x));
                                let t = choose|t: int| 0 <= t < before.len() && before[t] == x;
                                assert(findings_view(findings@)[t] == x);
                            } else {
                                assert(findings_view(findings@)[before.len() as int] == x);
                            }
                        }
                    }
                }
            },
            None => {
                proof {
                    assert forall|x: FindingView| #[trigger] findings_view(findings@).contains(x) <==>
                        exists|a: int| 0 <= a < i + 1 && #[trigger] item_refusal(s@, kept@, root@, a) == Some(x) by {
                        if exists|a: int| 0 <= a < i + 1 && #[trigger] item_refusal(s@, kept@, root@, a) == Some(x) {
                            let a = choose|a: int| 0 <= a < i + 1 && #[trigger] item_refusal(s@, kept@, root@, a) == Some(x);
                            assert(a < i);
                        }
                    }
                }
            },
        }
        i += 1;
    }
    (s, findings)
}

} // verus!
