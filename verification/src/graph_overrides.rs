//! Validation of override declarations against the topology and catalog.
use vstd::prelude::*;

use crate::corpus::{pair_key, ArtifactKey};
use crate::graph_composition::{
    finding_view, findings_view, reason_word, GraphCompositionFinding, GraphFindingReason,
    GraphOverrideDeclaration, SourceNodeInput, FINDING_INVALID_OVERRIDE,
};
use crate::graph_topology::{declares, has_source, FindingView};
use crate::item::CorpusItem;
use crate::order::{sort_by_key, sorted_by_key, SortKey};
use crate::text::{keys_lt, owned, push_str, str_eq};

verus! {

broadcast use vstd::seq_lib::group_to_multiset_ensures;

/// Keys ascending without repeats, for one or two keys.
pub open spec fn ordered_pair(a: (Seq<char>, Seq<char>), b: (Seq<char>, Seq<char>)) -> Seq<(Seq<char>, Seq<char>)> {
    if a == b {
        seq![a]
    } else if keys_lt(pair_key(a), pair_key(b)) {
        seq![a, b]
    } else {
        seq![b, a]
    }
}

pub open spec fn override_message(d: GraphOverrideDeclaration, reason: GraphFindingReason) -> Seq<char> {
    "override '"@ + d.target.source@ + "::"@ + d.target.canonical_id@ + "' -> '"@ + d.replacement.source@ + "::"@
        + d.replacement.canonical_id@ + "' in source '"@ + d.owner_source@ + "' is invalid: "@ + reason_word(reason)
}

/// An override finding naming `arts`.
pub open spec fn override_view(reason: GraphFindingReason, d: GraphOverrideDeclaration, arts: Seq<(Seq<char>, Seq<char>)>) -> FindingView {
    (FINDING_INVALID_OVERRIDE@, reason, Some(d.owner_source@), arts, override_message(d, reason))
}

/// The position of the first item with key `k`.
pub open spec fn key_pos(items: Seq<CorpusItem>, k: (Seq<char>, Seq<char>), upto: int) -> Option<int>
    decreases upto,
{
    if upto <= 0 {
        None
    } else {
        match key_pos(items, k, upto - 1) {
            Some(i) => Some(i),
            None => if items[upto - 1].key@ == k { Some(upto - 1) } else { None },
        }
    }
}

pub open spec fn find_key(items: Seq<CorpusItem>, k: (Seq<char>, Seq<char>)) -> Option<int> {
    key_pos(items, k, items.len() as int)
}

/// The declared type of an item.
pub open spec fn type_of(it: CorpusItem) -> Option<Seq<char>> {
    crate::corpus::opt_view(it.spec_name)
}

/// Some earlier declaration with a known owner has the same owner and target.
pub open spec fn repeats_target(d: Seq<GraphOverrideDeclaration>, kept: Seq<SourceNodeInput>, i: int) -> bool {
    exists|j: int| 0 <= j < i && declares(kept, d[j].owner_source@)
        && d[j].owner_source@ == d[i].owner_source@ && d[j].target@ == d[i].target@
}

/// Why declaration `i` (in declaration order) is refused on its own, the
/// first failing check winning.
pub open spec fn decl_refusal(d: Seq<GraphOverrideDeclaration>, kept: Seq<SourceNodeInput>, items: Seq<CorpusItem>, i: int) -> Option<FindingView> {
    let x = d[i];
    let owner = x.owner_source@;
    if !declares(kept, owner) {
        Some(override_view(GraphFindingReason::UnknownOverrideOwner, x, Seq::empty()))
    } else if repeats_target(d, kept, i) {
        Some(override_view(GraphFindingReason::DuplicateOverrideTarget, x, seq![x.target@]))
    } else if x.replacement.source@ != owner {
        Some(override_view(GraphFindingReason::ReplacementNotLocal, x, seq![x.replacement@]))
    } else if x.rationale.source@ != owner {
        Some(override_view(GraphFindingReason::RationaleNotLocal, x, seq![x.rationale@]))
    } else if find_key(items, x.replacement@) is None {
        Some(override_view(GraphFindingReason::ReplacementNotFound, x, seq![x.replacement@]))
    } else if find_key(items, x.rationale@) is None {
        Some(override_view(GraphFindingReason::RationaleNotFound, x, seq![x.rationale@]))
    } else if find_key(items, x.target@) is None {
        Some(override_view(GraphFindingReason::TargetNotInherited, x, seq![x.target@]))
    } else {
        let rationale = items[find_key(items, x.rationale@).unwrap()];
        let replacement = items[find_key(items, x.replacement@).unwrap()];
        let target = items[find_key(items, x.target@).unwrap()];
        if type_of(rationale) != Some("decision"@) {
            Some(override_view(GraphFindingReason::RationaleNotDecision, x, seq![x.rationale@]))
        } else if !rationale.live_decision {
            Some(override_view(GraphFindingReason::RationaleNotLive, x, seq![x.rationale@]))
        } else if type_of(target) is None || type_of(target) != type_of(replacement) {
            Some(override_view(GraphFindingReason::TypeMismatch, x, ordered_pair(x.target@, x.replacement@)))
        } else {
            None
        }
    }
}

/// The declarations that pass their own checks, in order.
pub open spec fn accepted_upto(d: Seq<GraphOverrideDeclaration>, kept: Seq<SourceNodeInput>, items: Seq<CorpusItem>, upto: int) -> Seq<GraphOverrideDeclaration>
    decreases upto,
{
    if upto <= 0 {
        Seq::empty()
    } else {
        let prev = accepted_upto(d, kept, items, upto - 1);
        if decl_refusal(d, kept, items, upto - 1) is None { prev.push(d[upto - 1]) } else { prev }
    }
}

pub open spec fn accepted(d: Seq<GraphOverrideDeclaration>, kept: Seq<SourceNodeInput>, items: Seq<CorpusItem>) -> Seq<GraphOverrideDeclaration> {
    accepted_upto(d, kept, items, d.len() as int)
}

/// Refusals of accepted declaration `i`: a replacement that is itself a
/// target of the same owner, or a target that the owner itself holds.
pub open spec fn chain_at(a: Seq<GraphOverrideDeclaration>, i: int, x: FindingView) -> bool {
    let d = a[i];
    ||| (exists|j: int| 0 <= j < a.len() && a[j].owner_source@ == d.owner_source@ && a[j].target@ == d.replacement@)
            && x == override_view(GraphFindingReason::SameManifestChain, d, ordered_pair(d.target@, d.replacement@))
    ||| d.target.source@ == d.owner_source@ && x == override_view(GraphFindingReason::TargetNotInherited, d, seq![d.target@])
}

/// Refusals among the accepted declarations.
pub open spec fn chain_refusal(a: Seq<GraphOverrideDeclaration>, x: FindingView) -> bool {
    exists|i: int| 0 <= i < a.len() && #[trigger] chain_at(a, i, x)
}

/// Every refusal of the declarations, given in declaration order.
pub open spec fn override_finding(d: Seq<GraphOverrideDeclaration>, kept: Seq<SourceNodeInput>, items: Seq<CorpusItem>, x: FindingView) -> bool {
    ||| exists|i: int| 0 <= i < d.len() && #[trigger] decl_refusal(d, kept, items, i) == Some(x)
    ||| chain_refusal(accepted(d, kept, items), x)
}

fn text3(a: &str, b: &str, c: &str) -> (r: String)
    ensures
        r@ == a@ + b@ + c@,
{
    let mut r = owned(a);
    push_str(&mut r, b);
    push_str(&mut r, c);
    r
}

fn override_text(d: &GraphOverrideDeclaration, reason: GraphFindingReason) -> (r: String)
    ensures
        r@ == override_message(*d, reason),
{
    let mut m = text3("override '", d.target.source.as_str(), "::");
    push_str(&mut m, d.target.canonical_id.as_str());
    push_str(&mut m, "' -> '");
    push_str(&mut m, d.replacement.source.as_str());
    push_str(&mut m, "::");
    push_str(&mut m, d.replacement.canonical_id.as_str());
    push_str(&mut m, "' in source '");
    push_str(&mut m, d.owner_source.as_str());
    push_str(&mut m, "' is invalid: ");
    push_str(&mut m, reason.as_str());
    m
}

pub(crate) fn one_key(a: &ArtifactKey) -> (r: Vec<ArtifactKey>)
    ensures
        crate::graph_composition::keys_view(r@) == seq![a@],
{
    let r = vec![a.dup()];
    assert(crate::graph_composition::keys_view(r@) =~= seq![a@]);
    r
}

fn pair_of_keys(a: &ArtifactKey, b: &ArtifactKey) -> (r: Vec<ArtifactKey>)
    ensures
        crate::graph_composition::keys_view(r@) == ordered_pair(a@, b@),
{
    if a.same(b) {
        one_key(a)
    } else if a.key_lt(b) {
        let r = vec![a.dup(), b.dup()];
        assert(crate::graph_composition::keys_view(r@) =~= ordered_pair(a@, b@));
        r
    } else {
        let r = vec![b.dup(), a.dup()];
        assert(crate::graph_composition::keys_view(r@) =~= ordered_pair(a@, b@));
        r
    }
}

pub(crate) fn override_finding_exec(reason: GraphFindingReason, d: &GraphOverrideDeclaration, artifacts: Vec<ArtifactKey>) -> (r: GraphCompositionFinding)
    ensures
        finding_view(r) == override_view(reason, *d, crate::graph_composition::keys_view(artifacts@)),
{
    GraphCompositionFinding {
        code: FINDING_INVALID_OVERRIDE,
        reason,
        owner_source: Some(d.owner_source.clone()),
        message: override_text(d, reason),
        artifacts,
    }
}

/// The position of the first item with key `k`.
pub(crate) fn find_key_exec(items: &Vec<CorpusItem>, k: &ArtifactKey) -> (r: Option<usize>)
    ensures
        match r {
            Some(i) => find_key(items@, k@) == Some(i as int) && i < items@.len(),
            None => find_key(items@, k@) is None,
        },
{
    let mut i: usize = 0;
    while i < items.len()
        invariant
            i <= items@.len(),
            key_pos(items@, k@, i as int) is None,
        decreases items@.len() - i,
    {
        if items[i].key.same(k) {
            proof {
                lemma_key_pos_stable(items@, k@, i as int + 1, items@.len() as int);
            }
            return Some(i);
        }
        i += 1;
    }
    None
}

proof fn lemma_key_pos_stable(items: Seq<CorpusItem>, k: (Seq<char>, Seq<char>), a: int, b: int)
    requires
        0 <= a <= b,
        key_pos(items, k, a) is Some,
    ensures
        key_pos(items, k, b) == key_pos(items, k, a),
    decreases b - a,
{
    if b > a {
        lemma_key_pos_stable(items, k, a, b - 1);
    }
}

fn repeats_target_exec(d: &Vec<GraphOverrideDeclaration>, kept: &Vec<SourceNodeInput>, i: usize) -> (r: bool)
    requires
        i < d@.len(),
    ensures
        r == repeats_target(d@, kept@, i as int),
{
    let mut j: usize = 0;
    while j < i
        invariant
            i < d@.len(),
            j <= i,
            forall|a: int| 0 <= a < j ==> !(declares(kept@, d@[a].owner_source@)
                && d@[a].owner_source@ == d@[i as int].owner_source@ && d@[a].target@ == d@[i as int].target@),
        decreases i - j,
    {
        if has_source(kept, d[j].owner_source.as_str()).is_some() && str_eq(d[j].owner_source.as_str(), d[i].owner_source.as_str())
            && d[j].target.same(&d[i].target) {
            return true;
        }
        j += 1;
    }
    false
}

fn opt_str_eq(a: &Option<String>, b: &Option<String>) -> (r: bool)
    ensures
        r == (crate::corpus::opt_view(*a) == crate::corpus::opt_view(*b)),
{
    match (a, b) {
        (None, None) => true,
        (Some(x), Some(y)) => str_eq(x.as_str(), y.as_str()),
        _ => false,
    }
}

/// Why declaration `i` is refused on its own, if it is.
fn decl_refusal_exec(d: &Vec<GraphOverrideDeclaration>, kept: &Vec<SourceNodeInput>, items: &Vec<CorpusItem>, i: usize) -> (r: Option<GraphCompositionFinding>)
    requires
        i < d@.len(),
    ensures
        match r {
            Some(f) => decl_refusal(d@, kept@, items@, i as int) == Some(finding_view(f)),
            None => decl_refusal(d@, kept@, items@, i as int) is None,
        },
{
    let x = &d[i];
    let owner = x.owner_source.as_str();
    if has_source(kept, owner).is_none() {
        let none: Vec<ArtifactKey> = Vec::new();
        assert(crate::graph_composition::keys_view(none@) =~= Seq::<(Seq<char>, Seq<char>)>::empty());
        return Some(override_finding_exec(GraphFindingReason::UnknownOverrideOwner, x, none));
    }
    if repeats_target_exec(d, kept, i) {
        return Some(override_finding_exec(GraphFindingReason::DuplicateOverrideTarget, x, one_key(&x.target)));
    }
    if !str_eq(x.replacement.source.as_str(), owner) {
        return Some(override_finding_exec(GraphFindingReason::ReplacementNotLocal, x, one_key(&x.replacement)));
    }
    if !str_eq(x.rationale.source.as_str(), owner) {
        return Some(override_finding_exec(GraphFindingReason::RationaleNotLocal, x, one_key(&x.rationale)));
    }
    let rep = match find_key_exec(items, &x.replacement) {
        None => { return Some(override_finding_exec(GraphFindingReason::ReplacementNotFound, x, one_key(&x.replacement))); },
        Some(p) => p,
    };
    let rat = match find_key_exec(items, &x.rationale) {
        None => { return Some(override_finding_exec(GraphFindingReason::RationaleNotFound, x, one_key(&x.rationale))); },
        Some(p) => p,
    };
    let tgt = match find_key_exec(items, &x.target) {
        None => { return Some(override_finding_exec(GraphFindingReason::TargetNotInherited, x, one_key(&x.target))); },
        Some(p) => p,
    };
    let is_decision = match &items[rat].spec_name {
        Some(n) => {
            proof { reveal_strlit("decision"); }
            str_eq(n.as_str(), "decision")
        },
        None => false,
    };
    if !is_decision {
        return Some(override_finding_exec(GraphFindingReason::RationaleNotDecision, x, one_key(&x.rationale)));
    }
    if !items[rat].live_decision {
        return Some(override_finding_exec(GraphFindingReason::RationaleNotLive, x, one_key(&x.rationale)));
    }
    if items[tgt].spec_name.is_none() || !opt_str_eq(&items[tgt].spec_name, &items[rep].spec_name) {
        return Some(override_finding_exec(GraphFindingReason::TypeMismatch, x, pair_of_keys(&x.target, &x.replacement)));
    }
    None
}

fn dup_decl(d: &GraphOverrideDeclaration) -> (r: GraphOverrideDeclaration)
    ensures
        r == *d,
{
    GraphOverrideDeclaration {
        owner_source: d.owner_source.clone(),
        target: d.target.dup(),
        replacement: d.replacement.dup(),
        rationale: d.rationale.dup(),
    }
}

/// The refusals among accepted declarations.
fn chain_findings(a: &Vec<GraphOverrideDeclaration>) -> (r: Vec<GraphCompositionFinding>)
    ensures
        forall|x: FindingView| #[trigger] findings_view(r@).contains(x) <==> chain_refusal(a@, x),
{
    let mut out: Vec<GraphCompositionFinding> = Vec::new();
    let mut i: usize = 0;
    while i < a.len()
        invariant
            i <= a@.len(),
            forall|x: FindingView| #[trigger] findings_view(out@).contains(x) <==> exists|t: int| 0 <= t < i && #[trigger] chain_at(a@, t, x),
        decreases a@.len() - i,
    {
        let d = &a[i];
        let mut j: usize = 0;
        let mut chained = false;
        while j < a.len() && !chained
            invariant
                i < a@.len(),
                j <= a@.len(),
                *d == a@[i as int],
                chained ==> exists|t: int| 0 <= t < a@.len() && a@[t].owner_source@ == a@[i as int].owner_source@ && a@[t].target@ == a@[i as int].replacement@,
                !chained ==> forall|t: int| 0 <= t < j ==> !(a@[t].owner_source@ == a@[i as int].owner_source@ && a@[t].target@ == a@[i as int].replacement@),
            decreases a@.len() - j + (if chained { 0int } else { 1int }),
        {
            if str_eq(a[j].owner_source.as_str(), d.owner_source.as_str()) && a[j].target.same(&d.replacement) {
                chained = true;
            } else {
                j += 1;
            }
        }
        let ghost s0 = findings_view(out@);
        let ghost v1 = override_view(GraphFindingReason::SameManifestChain, *d, ordered_pair(d.target@, d.replacement@));
        let ghost v2 = override_view(GraphFindingReason::TargetNotInherited, *d, seq![d.target@]);
        if chained {
            out.push(override_finding_exec(GraphFindingReason::SameManifestChain, d, pair_of_keys(&d.target, &d.replacement)));
            assert(findings_view(out@) =~= s0.push(v1));
        }
        let ghost s1 = findings_view(out@);
        let local = str_eq(d.target.source.as_str(), d.owner_source.as_str());
        if local {
            out.push(override_finding_exec(GraphFindingReason::TargetNotInherited, d, one_key(&d.target)));
            assert(findings_view(out@) =~= s1.push(v2));
        }
        proof {
            let fin = findings_view(out@);
            assert forall|x: FindingView| #[trigger] fin.contains(x) <==> exists|t: int| 0 <= t < i + 1 && #[trigger] chain_at(a@, t, x) by {
                if fin.contains(x) {
                    let t = choose|t: int| 0 <= t < fin.len() && fin[t] == x;
                    if t < s1.len() {
                        assert(s1[t] == x);
                        if t < s0.len() {
                            assert(s0[t] == x);
                            assert(s0.contains(x));
                        } else {
                            assert(chain_at(a@, i as int, x));
                        }
                    } else {
                        assert(chain_at(a@, i as int, x));
                    }
                }
                if exists|t: int| 0 <= t < i + 1 && #[trigger] chain_at(a@, t, x) {
                    let t = choose|t: int| 0 <= t < i + 1 && #[trigger] chain_at(a@, t, x);
                    if t < i {
                        assert(s0.contains(x));
                        let u = choose|u: int| 0 <= u < s0.len() && s0[u] == x;
                        assert(s1[u] == x);
                        assert(fin[u] == x);
                    } else if chained && x == v1 {
                        assert(s1[s0.len() as int] == x);
                        assert(fin[s0.len() as int] == x);
                    } else {
                        assert(local && x == v2);
                        assert(fin[s1.len() as int] == x);
                    }
                }
            }
        }
        i += 1;
    }
    out
}

/// Order the declarations, and keep those that pass every check; report
/// every refusal.
pub fn prepare_overrides(decls: Vec<GraphOverrideDeclaration>, kept: &Vec<SourceNodeInput>, items: &Vec<CorpusItem>)
    -> (r: (Vec<GraphOverrideDeclaration>, Vec<GraphOverrideDeclaration>, Vec<GraphCompositionFinding>))
    ensures
        r.0@.to_multiset() == decls@.to_multiset(),
        sorted_by_key(r.0@),
        r.1@ == accepted(r.0@, kept@, items@),
        forall|x: FindingView| #[trigger] findings_view(r.2@).contains(x) <==> override_finding(r.0@, kept@, items@, x),
{
    let d = sort_by_key(decls);
    let mut acc: Vec<GraphOverrideDeclaration> = Vec::new();
    let mut findings: Vec<GraphCompositionFinding> = Vec::new();
    let mut i: usize = 0;
    while i < d.len()
        invariant
            i <= d@.len(),
            acc@ == accepted_upto(d@, kept@, items@, i as int),
            forall|x: FindingView| #[trigger] findings_view(findings@).contains(x) <==>
                exists|t: int| 0 <= t < i && #[trigger] decl_refusal(d@, kept@, items@, t) == Some(x),
        decreases d@.len() - i,
    {
        let ghost before = findings_view(findings@);
        match decl_refusal_exec(&d, kept, items, i) {
            Some(f) => {
                findings.push(f);
                proof {
                    assert(findings_view(findings@) =~= before.push(finding_view(f)));
                    assert forall|x: FindingView| #[trigger] findings_view(findings@).contains(x) <==>
                        exists|t: int| 0 <= t < i + 1 && #[trigger] decl_refusal(d@, kept@, items@, t) == Some(x) by {
                        if findings_view(findings@).contains(x) {
                            let t = choose|t: int| 0 <= t < findings_view(findings@).len() && findings_view(findings@)[t] == x;
                            if t < before.len() {
                                assert(before[t] == x);
                                assert(before.contains(x));
                            } else {
                                assert(decl_refusal(d@, kept@, items@, i as int) == Some(x));
                            }
                        }
                        if exists|t: int| 0 <= t < i + 1 && #[trigger] decl_refusal(d@, kept@, items@, t) == Some(x) {
                            let t = choose|t: int| 0 <= t < i + 1 && #[trigger] decl_refusal(d@, kept@, items@, t) == Some(x);
                            if t < i {
                                assert(before.contains(x));
                                let u = choose|u: int| 0 <= u < before.len() && before[u] == x;
                                assert(findings_view(findings@)[u] == x);
                            } else {
                                assert(findings_view(findings@)[before.len() as int] == x);
                            }
                        }
                    }
                }
            },
            None => {
                acc.push(dup_decl(&d[i]));
                proof {
                    assert forall|x: FindingView| #[trigger] findings_view(findings@).contains(x) <==>
                        exists|t: int| 0 <= t < i + 1 && #[trigger] decl_refusal(d@, kept@, items@, t) == Some(x) by {
                        if exists|t: int| 0 <= t < i + 1 && #[trigger] decl_refusal(d@, kept@, items@, t) == Some(x) {
                            let t = choose|t: int| 0 <= t < i + 1 && #[trigger] decl_refusal(d@, kept@, items@, t) == Some(x);
                            assert(t < i);
                        }
                    }
                }
            },
        }
        i += 1;
    }
    let chains = chain_findings(&acc);
    let ghost f1 = findings_view(findings@);
    let ghost f2 = findings_view(chains@);
    let mut chains = chains;
    findings.append(&mut chains);
    proof {
        let fin = findings_view(findings@);
        assert(fin =~= f1 + f2);
        assert forall|x: FindingView| #[trigger] fin.contains(x) <==> override_finding(d@, kept@, items@, x) by {
            if fin.contains(x) {
                let t = choose|t: int| 0 <= t < fin.len() && fin[t] == x;
                if t < f1.len() {
                    assert(f1[t] == x);
                    assert(f1.contains(x));
                } else {
                    assert(f2[t - f1.len()] == x);
                    assert(f2.contains(x));
                }
            }
            if override_finding(d@, kept@, items@, x) {
                if exists|t: int| 0 <= t < d@.len() && #[trigger] decl_refusal(d@, kept@, items@, t) == Some(x) {
                    assert(f1.contains(x));
                    let u = choose|u: int| 0 <= u < f1.len() && f1[u] == x;
                    assert(fin[u] == x);
                } else {
                    assert(f2.contains(x));
                    let u = choose|u: int| 0 <= u < f2.len() && f2[u] == x;
                    assert(fin[u + f1.len()] == x);
                }
            }
        }
    }
    (d, acc, findings)
}

/// A found key lies in the catalog.
pub proof fn lemma_find_key_found(items: Seq<CorpusItem>, k: (Seq<char>, Seq<char>))
    ensures
        find_key(items, k) matches Some(i) ==> 0 <= i < items.len() && items[i].key@ == k,
{
    lemma_key_pos_in(items, k, items.len() as int);
}

proof fn lemma_key_pos_in(items: Seq<CorpusItem>, k: (Seq<char>, Seq<char>), upto: int)
    requires
        upto <= items.len(),
    ensures
        key_pos(items, k, upto) matches Some(i) ==> 0 <= i < upto && items[i].key@ == k,
    decreases upto,
{
    if upto > 0 {
        lemma_key_pos_in(items, k, upto - 1);
    }
}

} // verus!
