//! Source-graph composition.
//!
//! The semantic half of federation: it takes an already verified logical
//! topology and parsed snapshot items, and performs no filesystem, digest or
//! network work. Every table is ordered bytewise and holds no physical
//! locator.
use vstd::prelude::*;

use crate::corpus::{pair_key, ArtifactKey};
use crate::item::CorpusItem;
use crate::order::{keyed_values, sort_by_key, sorted_by_key, unkey, Keyed, SortKey};
use crate::text::{owned, push_str, str_eq, views};
use vstd::multiset::Multiset;

verus! {

broadcast use vstd::seq_lib::group_to_multiset_ensures;

pub const FINDING_INVALID_GRAPH: &'static str = "corpus-federation-invalid-graph";
pub const FINDING_INVALID_OVERRIDE: &'static str = "corpus-federation-invalid-override";
pub const FINDING_OVERRIDE_DIVERGENCE: &'static str = "corpus-federation-override-divergence";

/// One direct, edge-local alias owned by the declaring source.
#[derive(Debug, Clone, PartialEq, Eq)]
pub struct SourceParentInput {
    pub source: String,
    pub alias: String,
}

impl SourceParentInput {
    pub fn new(source: &str, alias: &str) -> (r: Self)
        ensures
            r.source@ == source@,
            r.alias@ == alias@,
    {
        SourceParentInput { source: owned(source), alias: owned(alias) }
    }
}

impl SortKey for SourceParentInput {
    open spec fn sort_key(&self) -> Seq<Seq<char>> {
        seq![self.source@, self.alias@]
    }

    fn key_lt(&self, other: &Self) -> (r: bool) {
        proof {
            crate::text::lemma_keys_lt_two(self.source@, self.alias@, other.source@, other.alias@);
        }
        if !str_eq(&self.source, &other.source) {
            crate::text::str_lt(&self.source, &other.source)
        } else {
            crate::text::str_lt(&self.alias, &other.alias)
        }
    }
}

/// A unique logical source node with its direct parents.
#[derive(Debug, Clone, PartialEq, Eq)]
pub struct SourceNodeInput {
    pub source: String,
    pub direct_parents: Vec<SourceParentInput>,
}

impl SourceNodeInput {
    pub fn new(source: &str, direct_parents: Vec<SourceParentInput>) -> (r: Self)
        ensures
            r.source@ == source@,
            r.direct_parents == direct_parents,
    {
        SourceNodeInput { source: owned(source), direct_parents }
    }
}

/// One already-parsed override declaration, over stable keys.
#[derive(Debug, Clone, PartialEq, Eq)]
pub struct GraphOverrideDeclaration {
    pub owner_source: String,
    pub target: ArtifactKey,
    pub replacement: ArtifactKey,
    pub rationale: ArtifactKey,
}

impl GraphOverrideDeclaration {
    pub fn new(owner_source: &str, target: ArtifactKey, replacement: ArtifactKey, rationale: ArtifactKey) -> (r: Self)
        ensures
            r.owner_source@ == owner_source@,
            r.target == target,
            r.replacement == replacement,
            r.rationale == rationale,
    {
        GraphOverrideDeclaration { owner_source: owned(owner_source), target, replacement, rationale }
    }
}

impl SortKey for GraphOverrideDeclaration {
    open spec fn sort_key(&self) -> Seq<Seq<char>> {
        seq![self.owner_source@, self.target.source@, self.target.canonical_id@,
            self.replacement.source@, self.replacement.canonical_id@,
            self.rationale.source@, self.rationale.canonical_id@]
    }

    fn key_lt(&self, other: &Self) -> (r: bool) {
        let a = declaration_key(self);
        let b = declaration_key(other);
        proof {
            assert(views(a@) =~= self.sort_key());
            assert(views(b@) =~= other.sort_key());
            assert(crate::order::strings_view(a@) =~= views(a@));
            assert(crate::order::strings_view(b@) =~= views(b@));
        }
        crate::order::strings_lt(&a, &b)
    }
}

fn declaration_key(d: &GraphOverrideDeclaration) -> (r: Vec<String>)
    ensures
        views(r@) == d.sort_key(),
{
    let r = vec![d.owner_source.clone(), d.target.source.clone(), d.target.canonical_id.clone(),
        d.replacement.source.clone(), d.replacement.canonical_id.clone(),
        d.rationale.source.clone(), d.rationale.canonical_id.clone()];
    assert(views(r@) =~= d.sort_key());
    r
}

/// The filesystem-independent handoff from a verified federation.
pub struct GraphCompositionInput {
    pub root_source: String,
    pub nodes: Vec<SourceNodeInput>,
    pub items: Vec<CorpusItem>,
    pub overrides: Vec<GraphOverrideDeclaration>,
}

impl GraphCompositionInput {
    pub fn new(
        root_source: &str,
        nodes: Vec<SourceNodeInput>,
        items: Vec<CorpusItem>,
        overrides: Vec<GraphOverrideDeclaration>,
    ) -> (r: Self)
        ensures
            r.root_source@ == root_source@,
            r.nodes == nodes,
            r.items == items,
            r.overrides == overrides,
    {
        GraphCompositionInput { root_source: owned(root_source), nodes, items, overrides }
    }
}

/// Why the graph or an override was refused, in a fixed order.
#[derive(Debug, Clone, Copy, PartialEq, Eq, PartialOrd, Ord, Hash, Structural)]
pub enum GraphFindingReason {
    MissingRoot,
    DuplicateSource,
    UnknownParent,
    DuplicateParent,
    DuplicateAlias,
    InvalidAlias,
    Cycle,
    UnreachableSource,
    UnknownItemSource,
    IdentitySourceMismatch,
    DuplicateArtifactKey,
    UnknownOverrideOwner,
    DuplicateOverrideTarget,
    TargetNotInherited,
    ReplacementNotLocal,
    ReplacementNotFound,
    RationaleNotLocal,
    RationaleNotFound,
    RationaleNotDecision,
    RationaleNotLive,
    TypeMismatch,
    SameManifestChain,
    OverrideCycle,
    DivergentTerminal,
}

/// The stable word of each reason.
pub open spec fn reason_word(r: GraphFindingReason) -> Seq<char> {
    match r {
        GraphFindingReason::MissingRoot => "missing-root"@,
        GraphFindingReason::DuplicateSource => "duplicate-source"@,
        GraphFindingReason::UnknownParent => "unknown-parent"@,
        GraphFindingReason::DuplicateParent => "duplicate-parent"@,
        GraphFindingReason::DuplicateAlias => "duplicate-alias"@,
        GraphFindingReason::InvalidAlias => "invalid-alias"@,
        GraphFindingReason::Cycle => "cycle"@,
        GraphFindingReason::UnreachableSource => "unreachable-source"@,
        GraphFindingReason::UnknownItemSource => "unknown-item-source"@,
        GraphFindingReason::IdentitySourceMismatch => "identity-source-mismatch"@,
        GraphFindingReason::DuplicateArtifactKey => "duplicate-artifact-key"@,
        GraphFindingReason::UnknownOverrideOwner => "unknown-override-owner"@,
        GraphFindingReason::DuplicateOverrideTarget => "duplicate-override-target"@,
        GraphFindingReason::TargetNotInherited => "target-not-inherited"@,
        GraphFindingReason::ReplacementNotLocal => "replacement-not-local"@,
        GraphFindingReason::ReplacementNotFound => "replacement-not-found"@,
        GraphFindingReason::RationaleNotLocal => "rationale-not-local"@,
        GraphFindingReason::RationaleNotFound => "rationale-not-found"@,
        GraphFindingReason::RationaleNotDecision => "rationale-not-decision"@,
        GraphFindingReason::RationaleNotLive => "rationale-not-live"@,
        GraphFindingReason::TypeMismatch => "type-mismatch"@,
        GraphFindingReason::SameManifestChain => "same-manifest-chain"@,
        GraphFindingReason::OverrideCycle => "override-cycle"@,
        GraphFindingReason::DivergentTerminal => "divergent-terminal"@,
    }
}

impl GraphFindingReason {
    pub fn as_str(self) -> (r: &'static str)
        ensures
            r@ == reason_word(self),
    {
        match self {
            GraphFindingReason::MissingRoot => "missing-root",
            GraphFindingReason::DuplicateSource => "duplicate-source",
            GraphFindingReason::UnknownParent => "unknown-parent",
            GraphFindingReason::DuplicateParent => "duplicate-parent",
            GraphFindingReason::DuplicateAlias => "duplicate-alias",
            GraphFindingReason::InvalidAlias => "invalid-alias",
            GraphFindingReason::Cycle => "cycle",
            GraphFindingReason::UnreachableSource => "unreachable-source",
            GraphFindingReason::UnknownItemSource => "unknown-item-source",
            GraphFindingReason::IdentitySourceMismatch => "identity-source-mismatch",
            GraphFindingReason::DuplicateArtifactKey => "duplicate-artifact-key",
            GraphFindingReason::UnknownOverrideOwner => "unknown-override-owner",
            GraphFindingReason::DuplicateOverrideTarget => "duplicate-override-target",
            GraphFindingReason::TargetNotInherited => "target-not-inherited",
            GraphFindingReason::ReplacementNotLocal => "replacement-not-local",
            GraphFindingReason::ReplacementNotFound => "replacement-not-found",
            GraphFindingReason::RationaleNotLocal => "rationale-not-local",
            GraphFindingReason::RationaleNotFound => "rationale-not-found",
            GraphFindingReason::RationaleNotDecision => "rationale-not-decision",
            GraphFindingReason::RationaleNotLive => "rationale-not-live",
            GraphFindingReason::TypeMismatch => "type-mismatch",
            GraphFindingReason::SameManifestChain => "same-manifest-chain",
            GraphFindingReason::OverrideCycle => "override-cycle",
            GraphFindingReason::DivergentTerminal => "divergent-terminal",
        }
    }
}

/// Two-digit rank of a reason in declaration order.
fn reason_rank(r: GraphFindingReason) -> (s: &'static str)
    ensures
        s@ == reason_rank_word(r),
{
    match r {
        GraphFindingReason::MissingRoot => "00",
        GraphFindingReason::DuplicateSource => "01",
        GraphFindingReason::UnknownParent => "02",
        GraphFindingReason::DuplicateParent => "03",
        GraphFindingReason::DuplicateAlias => "04",
        GraphFindingReason::InvalidAlias => "05",
        GraphFindingReason::Cycle => "06",
        GraphFindingReason::UnreachableSource => "07",
        GraphFindingReason::UnknownItemSource => "08",
        GraphFindingReason::IdentitySourceMismatch => "09",
        GraphFindingReason::DuplicateArtifactKey => "10",
        GraphFindingReason::UnknownOverrideOwner => "11",
        GraphFindingReason::DuplicateOverrideTarget => "12",
        GraphFindingReason::TargetNotInherited => "13",
        GraphFindingReason::ReplacementNotLocal => "14",
        GraphFindingReason::ReplacementNotFound => "15",
        GraphFindingReason::RationaleNotLocal => "16",
        GraphFindingReason::RationaleNotFound => "17",
        GraphFindingReason::RationaleNotDecision => "18",
        GraphFindingReason::RationaleNotLive => "19",
        GraphFindingReason::TypeMismatch => "20",
        GraphFindingReason::SameManifestChain => "21",
        GraphFindingReason::OverrideCycle => "22",
        GraphFindingReason::DivergentTerminal => "23",
    }
}

/// A deterministic graph-composition blocker: it names the owning source
/// and stable keys, never a physical route.
#[derive(Debug, Clone, PartialEq, Eq)]
pub struct GraphCompositionFinding {
    pub code: &'static str,
    pub reason: GraphFindingReason,
    pub owner_source: Option<String>,
    pub artifacts: Vec<ArtifactKey>,
    pub message: String,
}

/// The view of a finding: code, reason, owner, artifacts and message.
pub open spec fn finding_view(f: GraphCompositionFinding) -> (Seq<char>, GraphFindingReason, Option<Seq<char>>, Seq<(Seq<char>, Seq<char>)>, Seq<char>) {
    (f.code@, f.reason, crate::corpus::opt_view(f.owner_source), keys_view(f.artifacts@), f.message@)
}

/// The views of a list of keys.
pub open spec fn keys_view(v: Seq<ArtifactKey>) -> Seq<(Seq<char>, Seq<char>)> {
    Seq::new(v.len(), |i: int| v[i]@)
}

/// The views of a list of findings.
pub open spec fn findings_view(v: Seq<GraphCompositionFinding>) -> Seq<(Seq<char>, GraphFindingReason, Option<Seq<char>>, Seq<(Seq<char>, Seq<char>)>, Seq<char>)> {
    Seq::new(v.len(), |i: int| finding_view(v[i]))
}

/// Field-wise equality of two findings.
fn same_finding(a: &GraphCompositionFinding, b: &GraphCompositionFinding) -> (r: bool)
    ensures
        r == (finding_view(*a) == finding_view(*b)),
{
    if !str_eq(a.code, b.code) {
        return false;
    }
    if a.reason != b.reason {
        return false;
    }
    if a.artifacts.len() != b.artifacts.len() {
        assert(keys_view(a.artifacts@).len() != keys_view(b.artifacts@).len());
        return false;
    }
    let owners = match (&a.owner_source, &b.owner_source) {
        (None, None) => true,
        (Some(x), Some(y)) => str_eq(x, y),
        _ => false,
    };
    if !owners {
        return false;
    }
    let mut i: usize = 0;
    while i < a.artifacts.len()
        invariant
            a.artifacts@.len() == b.artifacts@.len(),
            i <= a.artifacts@.len(),
            forall|k: int| 0 <= k < i ==> a.artifacts@[k]@ == b.artifacts@[k]@,
        decreases a.artifacts@.len() - i,
    {
        if !a.artifacts[i].same(&b.artifacts[i]) {
            assert(keys_view(a.artifacts@)[i as int] != keys_view(b.artifacts@)[i as int]);
            return false;
        }
        i += 1;
    }
    assert(keys_view(a.artifacts@) =~= keys_view(b.artifacts@));
    str_eq(&a.message, &b.message)
}

/// Two-digit rank of a reason in declaration order.
pub open spec fn reason_rank_word(r: GraphFindingReason) -> Seq<char> {
    match r {
        GraphFindingReason::MissingRoot => "00"@,
        GraphFindingReason::DuplicateSource => "01"@,
        GraphFindingReason::UnknownParent => "02"@,
        GraphFindingReason::DuplicateParent => "03"@,
        GraphFindingReason::DuplicateAlias => "04"@,
        GraphFindingReason::InvalidAlias => "05"@,
        GraphFindingReason::Cycle => "06"@,
        GraphFindingReason::UnreachableSource => "07"@,
        GraphFindingReason::UnknownItemSource => "08"@,
        GraphFindingReason::IdentitySourceMismatch => "09"@,
        GraphFindingReason::DuplicateArtifactKey => "10"@,
        GraphFindingReason::UnknownOverrideOwner => "11"@,
        GraphFindingReason::DuplicateOverrideTarget => "12"@,
        GraphFindingReason::TargetNotInherited => "13"@,
        GraphFindingReason::ReplacementNotLocal => "14"@,
        GraphFindingReason::ReplacementNotFound => "15"@,
        GraphFindingReason::RationaleNotLocal => "16"@,
        GraphFindingReason::RationaleNotFound => "17"@,
        GraphFindingReason::RationaleNotDecision => "18"@,
        GraphFindingReason::RationaleNotLive => "19"@,
        GraphFindingReason::TypeMismatch => "20"@,
        GraphFindingReason::SameManifestChain => "21"@,
        GraphFindingReason::OverrideCycle => "22"@,
        GraphFindingReason::DivergentTerminal => "23"@,
    }
}

/// An absent owner orders before every present one.
pub open spec fn owner_key(o: Option<Seq<char>>) -> Seq<char> {
    match o {
        None => Seq::empty(),
        Some(s) => seq!['\u{1}'] + s,
    }
}

/// Artifacts ordered element-wise, a shorter prefix first.
pub open spec fn artifacts_key(v: Seq<(Seq<char>, Seq<char>)>) -> Seq<Seq<char>>
    decreases v.len(),
{
    if v.len() == 0 {
        Seq::empty()
    } else {
        artifacts_key(v.drop_last()) + seq![seq!['\u{1}'], v.last().0, v.last().1]
    }
}

/// The order of findings: code, owner, artifacts, reason, message.
pub open spec fn finding_sort_key(f: GraphCompositionFinding) -> Seq<Seq<char>> {
    seq![f.code@, owner_key(crate::corpus::opt_view(f.owner_source))]
        + artifacts_key(keys_view(f.artifacts@))
        + seq![Seq::empty(), reason_rank_word(f.reason), f.message@]
}

fn finding_key(f: &GraphCompositionFinding) -> (r: Vec<String>)
    ensures
        views(r@) == finding_sort_key(*f),
{
    let mut key: Vec<String> = Vec::new();
    key.push(owned(f.code));
    match &f.owner_source {
        None => key.push(String::new()),
        Some(o) => {
            let mut t = String::new();
            crate::text::push_char(&mut t, '\u{1}');
            push_str(&mut t, o.as_str());
            assert(t@ =~= seq!['\u{1}'] + o@);
            key.push(t);
        },
    }
    let ghost head = views(key@);
    assert(head =~= seq![f.code@, owner_key(crate::corpus::opt_view(f.owner_source))]);
    let mut j: usize = 0;
    while j < f.artifacts.len()
        invariant
            j <= f.artifacts@.len(),
            views(key@) == head + artifacts_key(keys_view(f.artifacts@.take(j as int))),
        decreases f.artifacts@.len() - j,
    {
        let ghost before = views(key@);
        let mut sep = String::new();
        crate::text::push_char(&mut sep, '\u{1}');
        assert(sep@ =~= seq!['\u{1}']);
        key.push(sep);
        key.push(f.artifacts[j].source.clone());
        key.push(f.artifacts[j].canonical_id.clone());
        proof {
            let t = keys_view(f.artifacts@.take(j + 1));
            assert(t.drop_last() =~= keys_view(f.artifacts@.take(j as int)));
            assert(views(key@) =~= before + seq![seq!['\u{1}'], f.artifacts@[j as int].source@, f.artifacts@[j as int].canonical_id@]);
        }
        j += 1;
    }
    key.push(String::new());
    key.push(owned(reason_rank(f.reason)));
    key.push(f.message.clone());
    proof {
        assert(f.artifacts@.take(f.artifacts@.len() as int) =~= f.artifacts@);
        assert(views(key@) =~= finding_sort_key(*f));
    }
    key
}

/// An exact copy of a finding.
fn dup_finding(f: &GraphCompositionFinding) -> (r: GraphCompositionFinding)
    ensures
        finding_view(r) == finding_view(*f),
        finding_sort_key(r) == finding_sort_key(*f),
{
    let r = GraphCompositionFinding {
        code: f.code,
        reason: f.reason,
        owner_source: crate::corpus::copy_opt(&f.owner_source),
        artifacts: crate::corpus::copy_keys(&f.artifacts),
        message: f.message.clone(),
    };
    assert(keys_view(r.artifacts@) =~= keys_view(f.artifacts@));
    r
}

/// Findings sorted deterministically, with repeats removed.
pub open spec fn findings_sorted(r: Seq<GraphCompositionFinding>) -> bool {
    &&& forall|i: int, j: int| 0 <= i < j < r.len() ==> !crate::text::keys_lt(finding_sort_key(r[j]), finding_sort_key(r[i]))
    &&& forall|i: int| 0 <= i < r.len() - 1 ==> finding_view(#[trigger] r[i]) != finding_view(r[i + 1])
}

/// Sort findings by their order and drop repeats.
pub(crate) fn sort_dedup_findings(findings: Vec<GraphCompositionFinding>) -> (r: Vec<GraphCompositionFinding>)
    ensures
        forall|x| findings_view(r@).contains(x) <==> findings_view(findings@).contains(x),
        findings_sorted(r@),
{
    let ghost orig = findings@;
    let mut keyed: Vec<Keyed<GraphCompositionFinding>> = Vec::new();
    let mut rest = findings;
    while rest.len() > 0
        invariant
            rest@.len() + keyed@.len() == orig.len(),
            rest@ == orig.take(rest@.len() as int),
            keyed_values(keyed@) == orig.skip(rest@.len() as int).reverse(),
            forall|k: int| 0 <= k < keyed@.len() ==> (#[trigger] keyed@[k]).sort_key() == finding_sort_key(keyed@[k].value),
        decreases rest@.len(),
    {
        let ghost before = keyed@;
        let f = rest.pop().unwrap();
        let key = finding_key(&f);
        proof {
            assert(crate::order::strings_view(key@) =~= views(key@));
        }
        keyed.push(Keyed { key, value: f });
        proof {
            let n = rest@.len() as int;
            assert(keyed_values(keyed@) =~= keyed_values(before).push(f));
            assert(orig.skip(n).reverse() =~= orig.skip(n + 1).reverse().push(orig[n]));
        }
    }
    let ghost pre = keyed@;
    let sorted = sort_by_key(keyed);
    let all = unkey(sorted);
    proof {
        assert(orig.skip(0) =~= orig);
        assert forall|k: int| 0 <= k < sorted@.len() implies (#[trigger] sorted@[k]).sort_key() == finding_sort_key(sorted@[k].value) by {
            vstd::seq_lib::to_multiset_contains(sorted@, sorted@[k]);
            assert(sorted@.to_multiset().count(sorted@[k]) > 0);
            assert(pre.to_multiset().count(sorted@[k]) > 0);
            assert(pre.contains(sorted@[k]));
        }
        assert forall|x| findings_view(all@).contains(x) implies findings_view(orig).contains(x) by {
            let k = choose|k: int| 0 <= k < all@.len() && findings_view(all@)[k] == x;
            vstd::seq_lib::to_multiset_contains(sorted@, sorted@[k]);
            assert(sorted@.to_multiset().count(sorted@[k]) > 0);
            assert(pre.to_multiset().count(sorted@[k]) > 0);
            assert(pre.contains(sorted@[k]));
            let m = choose|m: int| 0 <= m < pre.len() && pre[m] == sorted@[k];
            assert(keyed_values(pre)[m] == orig.reverse()[m]);
            assert(findings_view(orig)[orig.len() - 1 - m] == x);
        }
        assert forall|x| findings_view(orig).contains(x) implies findings_view(all@).contains(x) by {
            let k = choose|k: int| 0 <= k < orig.len() && findings_view(orig)[k] == x;
            let m = orig.len() - 1 - k;
            assert(keyed_values(pre)[m] == orig[k]);
            assert(pre.contains(pre[m]));
            vstd::seq_lib::to_multiset_contains(pre, pre[m]);
            assert(sorted@.to_multiset().count(pre[m]) > 0);
            assert(sorted@.contains(pre[m]));
            let s = choose|s: int| 0 <= s < sorted@.len() && sorted@[s] == pre[m];
            assert(findings_view(all@)[s] == x);
        }
        assert forall|i: int, j: int| 0 <= i < j < all@.len() implies !crate::text::keys_lt(finding_sort_key(all@[j]), finding_sort_key(all@[i])) by {
            assert(sorted@[i].sort_key() == finding_sort_key(sorted@[i].value));
            assert(sorted@[j].sort_key() == finding_sort_key(sorted@[j].value));
        }
    }
    let mut out: Vec<GraphCompositionFinding> = Vec::new();
    let ghost taken: Seq<int> = Seq::empty();
    let mut k: usize = 0;
    while k < all.len()
        invariant
            k <= all@.len(),
            forall|i: int, j: int| 0 <= i < j < all@.len() ==> !crate::text::keys_lt(finding_sort_key(all@[j]), finding_sort_key(all@[i])),
            out@.len() == taken.len(),
            forall|t: int| 0 <= t < taken.len() ==> 0 <= #[trigger] taken[t] < k,
            forall|t: int, u: int| 0 <= t < u < taken.len() ==> taken[t] < taken[u],
            forall|t: int| 0 <= t < taken.len() ==> finding_view(#[trigger] out@[t]) == finding_view(all@[taken[t]])
                && finding_sort_key(out@[t]) == finding_sort_key(all@[taken[t]]),
            forall|x| findings_view(out@).contains(x) <==> findings_view(all@.take(k as int)).contains(x),
            findings_sorted(out@),
            k > 0 ==> out@.len() > 0 && finding_view(out@.last()) == finding_view(all@[k - 1]),
        decreases all@.len() - k,
    {
        let ghost before = out@;
        let keep = k == 0 || !same_finding(&out[out.len() - 1], &all[k]);
        if keep {
            out.push(dup_finding(&all[k]));
            proof {
                taken = taken.push(k as int);
            }
        }
        proof {
            let kk = k as int;
            let k1 = kk + 1;
            assert(all@.take(k1) =~= all@.take(kk).push(all@[kk]));
            assert forall|x| findings_view(out@).contains(x) <==> findings_view(all@.take(k1)).contains(x) by {
                if findings_view(out@).contains(x) {
                    let t = choose|t: int| 0 <= t < out@.len() && findings_view(out@)[t] == x;
                    if t < before.len() {
                        assert(out@[t] == before[t]);
                        assert(findings_view(before)[t] == x);
                        assert(findings_view(before).contains(x));
                        assert(findings_view(all@.take(kk)).contains(x));
                        let s = choose|s: int| 0 <= s < kk && findings_view(all@.take(kk))[s] == x;
                        assert(findings_view(all@.take(k1))[s] == x);
                    } else {
                        assert(findings_view(all@.take(k1))[kk] == x);
                    }
                }
                if findings_view(all@.take(k1)).contains(x) {
                    let s = choose|s: int| 0 <= s < k1 && findings_view(all@.take(k1))[s] == x;
                    if s < kk {
                        assert(findings_view(all@.take(kk))[s] == x);
                        assert(findings_view(all@.take(kk)).contains(x));
                        assert(findings_view(before).contains(x));
                        let t = choose|t: int| 0 <= t < before.len() && findings_view(before)[t] == x;
                        assert(out@[t] == before[t]);
                        assert(findings_view(out@)[t] == x);
                    } else {
                        assert(findings_view(out@)[out@.len() - 1] == x);
                    }
                }
            }
            if keep {
                assert forall|i: int, j: int| 0 <= i < j < out@.len() implies !crate::text::keys_lt(finding_sort_key(out@[j]), finding_sort_key(out@[i])) by {
                    if j == out@.len() - 1 {
                        assert(finding_sort_key(out@[i]) == finding_sort_key(all@[taken[i]]));
                        assert(taken[i] < kk);
                    }
                }
            }
        }
        k += 1;
    }
    proof {
        assert(all@.take(all@.len() as int) =~= all@);
    }
    out
}

/// Closure visibility and edge-local alias scope. `visible` lists, per
/// context source, the sources it may read; `aliases` maps an
/// `(owner, alias)` pair to the parent source it names.
#[derive(Debug)]
pub struct SourceVisibility {
    visible: Vec<(String, Vec<String>)>,
    aliases: Vec<((String, String), String)>,
}

/// The first value stored under `k`.
pub open spec fn lookup<K, V>(table: Seq<(K, V)>, k: K) -> Option<V>
    decreases table.len(),
{
    if table.len() == 0 {
        None
    } else if table[0].0 == k {
        Some(table[0].1)
    } else {
        lookup(table.drop_first(), k)
    }
}

proof fn lemma_lookup_step<K, V>(table: Seq<(K, V)>, i: int, k: K)
    requires
        0 <= i < table.len(),
    ensures
        lookup(table.skip(i), k) == (if table[i].0 == k { Some(table[i].1) } else { lookup(table.skip(i + 1), k) }),
{
    assert(table.skip(i).drop_first() =~= table.skip(i + 1));
}

impl SourceVisibility {
    /// Per context, the sources it sees.
    pub closed spec fn visible_view(self) -> Seq<(Seq<char>, Seq<Seq<char>>)> {
        Seq::new(self.visible@.len(), |i: int| (self.visible@[i].0@, views(self.visible@[i].1@)))
    }

    /// Per `(owner, alias)`, the parent source it names.
    pub closed spec fn alias_view(self) -> Seq<((Seq<char>, Seq<char>), Seq<char>)> {
        Seq::new(self.aliases@.len(), |i: int| ((self.aliases@[i].0.0@, self.aliases@[i].0.1@), self.aliases@[i].1@))
    }

    /// A visibility built from its two tables.
    pub(crate) fn from_tables(visible: Vec<(String, Vec<String>)>, aliases: Vec<((String, String), String)>) -> (r: Self)
        ensures
            r.visible_view() == Seq::new(visible@.len(), |i: int| (visible@[i].0@, views(visible@[i].1@))),
            r.alias_view() == Seq::new(aliases@.len(), |i: int| ((aliases@[i].0.0@, aliases@[i].0.1@), aliases@[i].1@)),
    {
        SourceVisibility { visible, aliases }
    }

    fn visible_index(&self, context: &str) -> (r: Option<usize>)
        ensures
            match r {
                Some(i) => i < self.visible@.len() && lookup(self.visible_view(), context@) == Some(self.visible_view()[i as int].1),
                None => lookup(self.visible_view(), context@) is None,
            },
    {
        let mut i: usize = 0;
        assert(self.visible_view().skip(0) =~= self.visible_view());
        while i < self.visible.len()
            invariant
                i <= self.visible@.len(),
                lookup(self.visible_view(), context@) == lookup(self.visible_view().skip(i as int), context@),
            decreases self.visible@.len() - i,
        {
            proof {
                lemma_lookup_step(self.visible_view(), i as int, context@);
            }
            if str_eq(self.visible[i].0.as_str(), context) {
                return Some(i);
            }
            i += 1;
        }
        None
    }

    /// Whether `source` is visible from `context`.
    pub fn is_visible(&self, context: &str, source: &str) -> (r: bool)
        ensures
            r == (lookup(self.visible_view(), context@) matches Some(s) && s.contains(source@)),
    {
        match self.visible_index(context) {
            None => false,
            Some(i) => {
                let list = &self.visible[i].1;
                let mut j: usize = 0;
                while j < list.len()
                    invariant
                        j <= list@.len(),
                        list == self.visible@[i as int].1,
                        i < self.visible@.len(),
                        lookup(self.visible_view(), context@) == Some(self.visible_view()[i as int].1),
                        forall|t: int| 0 <= t < j ==> list@[t]@ != source@,
                    decreases list@.len() - j,
                {
                    if str_eq(list[j].as_str(), source) {
                        assert(views(list@)[j as int] == source@);
                        assert(self.visible_view()[i as int].1 == views(list@));
                        assert(views(list@).contains(source@));
                        return true;
                    }
                    j += 1;
                }
                proof {
                    assert(self.visible_view()[i as int].1 == views(list@));
                    assert forall|t: int| 0 <= t < views(list@).len() implies views(list@)[t] != source@ by {
                        assert(views(list@)[t] == list@[t]@);
                    }
                }
                false
            },
        }
    }

    /// The sources visible from `context`, when it is a known source.
    pub fn visible_from(&self, context: &str) -> (r: Option<&Vec<String>>)
        ensures
            match r {
                Some(l) => lookup(self.visible_view(), context@) == Some(views(l@)),
                None => lookup(self.visible_view(), context@) is None,
            },
    {
        match self.visible_index(context) {
            None => None,
            Some(i) => Some(&self.visible[i].1),
        }
    }

    /// The parent source that `alias` names from `context`.
    pub fn alias_target(&self, context: &str, alias: &str) -> (r: Option<&str>)
        ensures
            match r {
                Some(t) => lookup(self.alias_view(), (context@, alias@)) == Some(t@),
                None => lookup(self.alias_view(), (context@, alias@)) is None,
            },
    {
        let mut i: usize = 0;
        assert(self.alias_view().skip(0) =~= self.alias_view());
        while i < self.aliases.len()
            invariant
                i <= self.aliases@.len(),
                lookup(self.alias_view(), (context@, alias@)) == lookup(self.alias_view().skip(i as int), (context@, alias@)),
            decreases self.aliases@.len() - i,
        {
            proof {
                lemma_lookup_step(self.alias_view(), i as int, (context@, alias@));
            }
            if str_eq(self.aliases[i].0.0.as_str(), context) && str_eq(self.aliases[i].0.1.as_str(), alias) {
                return Some(self.aliases[i].1.as_str());
            }
            i += 1;
        }
        None
    }

    /// Every `(owner, alias)` pair and the source it names.
    pub fn aliases(&self) -> (r: &Vec<((String, String), String)>)
        ensures
            Seq::new(r@.len(), |i: int| ((r@[i].0.0@, r@[i].0.1@), r@[i].1@)) == self.alias_view(),
    {
        &self.aliases
    }
}

/// One validated mapping with the accepted owner order embedded.
#[derive(Debug, Clone, PartialEq, Eq)]
pub struct CompiledOverride {
    pub owner_rank: usize,
    pub owner_source: String,
    pub target: ArtifactKey,
    pub replacement: ArtifactKey,
    pub rationale: ArtifactKey,
}

/// How an artifact takes part in one override.
#[derive(Debug, Clone, Copy, PartialEq, Eq, PartialOrd, Ord, Hash, Structural)]
pub enum GraphOverrideState {
    Overridden,
    Replacement,
    Lineage,
}

pub open spec fn state_word(s: GraphOverrideState) -> Seq<char> {
    match s {
        GraphOverrideState::Overridden => "overridden"@,
        GraphOverrideState::Replacement => "replacement"@,
        GraphOverrideState::Lineage => "lineage"@,
    }
}

impl GraphOverrideState {
    /// The stable word of the state.
    pub fn as_str(self) -> (r: &'static str)
        ensures
            r@ == state_word(self),
    {
        match self {
            GraphOverrideState::Overridden => "overridden",
            GraphOverrideState::Replacement => "replacement",
            GraphOverrideState::Lineage => "lineage",
        }
    }
}

/// One override that an artifact took part in, and how.
#[derive(Debug, Clone, PartialEq, Eq)]
pub struct GraphOverrideProvenance {
    pub state: GraphOverrideState,
    pub owner_source: String,
    pub target: ArtifactKey,
    pub replacement: ArtifactKey,
    pub rationale: ArtifactKey,
}

/// A successful lookup. Qualified lookup selects history; unqualified
/// lookup selects the one effective terminal.
#[derive(Debug, Clone, PartialEq, Eq)]
pub struct GraphResolution {
    /// Every source-owned record matching the authored token, by key.
    pub historical_candidates: Vec<ArtifactKey>,
    pub selected: ArtifactKey,
    /// The source-contextual terminal even when `selected` is historical.
    pub effective_terminal: ArtifactKey,
    pub qualified: bool,
}

/// Why a lookup failed.
#[derive(Debug, Clone, PartialEq, Eq)]
pub enum GraphLookupError {
    UnknownContext,
    NotFound,
    InvalidQualifiedReference,
    QualifiedCanonicalRequired,
    Ambiguous { historical_candidates: Vec<ArtifactKey>, effective_candidates: Vec<ArtifactKey> },
}

#[derive(Debug, Clone, Copy, PartialEq, Eq, Structural)]
pub enum GraphRelationshipIssue {
    TargetNotFound,
    TargetAmbiguous,
    SelfReference,
}

/// One catalog relationship endpoint: the authored meaning and, separately,
/// its live terminal.
#[derive(Debug, Clone, PartialEq, Eq)]
pub struct GraphRelationship {
    pub source: ArtifactKey,
    pub relationship: String,
    pub authored_token: String,
    pub historical_candidates: Vec<ArtifactKey>,
    pub effective_terminal: Option<ArtifactKey>,
    pub issue: Option<GraphRelationshipIssue>,
    pub external: bool,
}

/// Where each override key leads: the replacement of the last mapping
/// that names it as target.
pub open spec fn next_key(edges: Seq<((Seq<char>, Seq<char>), (Seq<char>, Seq<char>))>, x: (Seq<char>, Seq<char>)) -> Option<(Seq<char>, Seq<char>)>
    decreases edges.len(),
{
    if edges.len() == 0 {
        None
    } else if edges.last().0 == x {
        Some(edges.last().1)
    } else {
        next_key(edges.drop_last(), x)
    }
}

/// The key reached from `x` after `k` redirects, if the walk goes that far.
pub open spec fn walk(edges: Seq<((Seq<char>, Seq<char>), (Seq<char>, Seq<char>))>, x: (Seq<char>, Seq<char>), k: nat) -> Option<(Seq<char>, Seq<char>)>
    decreases k,
{
    if k == 0 {
        Some(x)
    } else {
        match walk(edges, x, (k - 1) as nat) {
            Some(y) => next_key(edges, y),
            None => None,
        }
    }
}

/// The target/replacement edges of compiled mappings.
pub open spec fn override_edges(m: Seq<CompiledOverride>) -> Seq<((Seq<char>, Seq<char>), (Seq<char>, Seq<char>))> {
    Seq::new(m.len(), |i: int| (m[i].target@, m[i].replacement@))
}

/// The redirect graph has a cycle: some target comes back to itself.
pub open spec fn has_override_cycle(m: Seq<CompiledOverride>) -> bool {
    exists|i: int, k: nat| 0 <= i < m.len() && 1 <= k <= m.len()
        && #[trigger] walk(override_edges(m), m[i].target@, k) == Some(m[i].target@)
}

fn next_of(m: &Vec<CompiledOverride>, x: &ArtifactKey) -> (r: Option<usize>)
    ensures
        match r {
            Some(i) => i < m@.len() && next_key(override_edges(m@), x@) == Some(m@[i as int].replacement@),
            None => next_key(override_edges(m@), x@) is None,
        },
{
    let mut i = m.len();
    assert(m@.take(m@.len() as int) =~= m@);
    while i > 0
        invariant
            i <= m@.len(),
            next_key(override_edges(m@), x@) == next_key(override_edges(m@.take(i as int)), x@),
        decreases i,
    {
        proof {
            assert(override_edges(m@.take(i - 1)) =~= override_edges(m@.take(i as int)).drop_last());
        }
        if m[i - 1].target.same(x) {
            return Some(i - 1);
        }
        i -= 1;
    }
    None
}

/// Whether the compiled redirects contain a cycle.
pub(crate) fn override_graph_has_cycle(m: &Vec<CompiledOverride>) -> (r: bool)
    ensures
        r == has_override_cycle(m@),
{
    let n = m.len();
    let mut i: usize = 0;
    while i < n
        invariant
            n == m@.len(),
            i <= n,
            forall|a: int, k: nat| 0 <= a < i && 1 <= k <= n ==> #[trigger] walk(override_edges(m@), m@[a].target@, k) != Some(m@[a].target@),
        decreases n - i,
    {
        let start = &m[i].target;
        let ghost x = m@[i as int].target@;
        let mut cur: ArtifactKey = start.dup();
        let mut k: usize = 0;
        let mut stopped = false;
        while k < n && !stopped
            invariant
                n == m@.len(),
                i < n,
                k <= n,
                x == m@[i as int].target@,
                start@ == x,
                walk(override_edges(m@), x, k as nat) == Some(cur@),
                forall|j: nat| 1 <= j <= k ==> #[trigger] walk(override_edges(m@), x, j) != Some(x),
                stopped ==> forall|j: nat| k < j <= n ==> #[trigger] walk(override_edges(m@), x, j) is None,
            decreases n - k + (if stopped { 0int } else { 1int }),
        {
            match next_of(m, &cur) {
                None => {
                    proof {
                        assert forall|j: nat| k < j <= n implies #[trigger] walk(override_edges(m@), x, j) is None by {
                            lemma_walk_stops(override_edges(m@), x, k as nat, j);
                        }
                    }
                    stopped = true;
                },
                Some(t) => {
                    cur = m[t].replacement.dup();
                    k += 1;
                    assert(walk(override_edges(m@), x, k as nat) == Some(cur@));
                    if cur.same(start) {
                        assert(walk(override_edges(m@), m@[i as int].target@, k as nat) == Some(m@[i as int].target@));
                        return true;
                    }
                },
            }
        }
        proof {
            assert forall|j: nat| 1 <= j <= n implies #[trigger] walk(override_edges(m@), x, j) != Some(x) by {
                if j > k {
                    assert(stopped);
                }
            }
        }
        i += 1;
    }
    false
}

proof fn lemma_walk_stops(edges: Seq<((Seq<char>, Seq<char>), (Seq<char>, Seq<char>))>, x: (Seq<char>, Seq<char>), k: nat, j: nat)
    requires
        k < j,
        walk(edges, x, k) matches Some(y) && next_key(edges, y) is None,
    ensures
        walk(edges, x, j) is None,
    decreases j,
{
    if j > k + 1 {
        lemma_walk_stops(edges, x, k, (j - 1) as nat);
    }
}

/// Keys strictly ascending.
pub open spec fn keys_ascending(v: Seq<(Seq<char>, Seq<char>)>) -> bool {
    forall|a: int, b: int| 0 <= a < b < v.len() ==> crate::text::keys_lt(pair_key(v[a]), pair_key(v[b]))
}

/// The keys of a finite set, ascending.
pub open spec fn ascending_keys(s: Set<(Seq<char>, Seq<char>)>) -> Seq<(Seq<char>, Seq<char>)> {
    choose|v: Seq<(Seq<char>, Seq<char>)>| keys_ascending(v) && forall|x| #[trigger] v.contains(x) <==> s.contains(x)
}

proof fn lemma_ascending_unique(a: Seq<(Seq<char>, Seq<char>)>, b: Seq<(Seq<char>, Seq<char>)>)
    requires
        keys_ascending(a),
        keys_ascending(b),
        forall|x| #[trigger] a.contains(x) <==> b.contains(x),
    ensures
        a == b,
    decreases a.len(),
{
    if a.len() == 0 {
        if b.len() > 0 {
            assert(b.contains(b[0]));
            assert(a.contains(b[0]));
            assert(false);
        }
        assert(a =~= b);
    } else {
        assert(a.contains(a[0]));
        assert(b.contains(a[0]));
        assert(b.len() > 0);
        assert(b.contains(b[0]));
        assert(a.contains(b[0]));
        let m = choose|m: int| 0 <= m < b.len() && b[m] == a[0];
        let l = choose|l: int| 0 <= l < a.len() && a[l] == b[0];
        crate::text::lemma_keys_lt_irreflexive(pair_key(b[0]));
        if m > 0 {
            assert(crate::text::keys_lt(pair_key(b[0]), pair_key(b[m])));
            if l > 0 {
                assert(crate::text::keys_lt(pair_key(a[0]), pair_key(a[l])));
                crate::text::lemma_keys_lt_transitive(pair_key(b[0]), pair_key(a[0]), pair_key(b[0]));
            }
        }
        assert(a[0] == b[0]);
        let a1 = a.drop_first();
        let b1 = b.drop_first();
        assert forall|x| #[trigger] a1.contains(x) <==> b1.contains(x) by {
            if a1.contains(x) {
                let i = choose|i: int| 0 <= i < a1.len() && a1[i] == x;
                assert(a[i + 1] == x);
                crate::text::lemma_keys_lt_irreflexive(pair_key(x));
                assert(crate::text::keys_lt(pair_key(a[0]), pair_key(a[i + 1])));
                assert(x != a[0]);
                assert(a.contains(x));
                assert(b.contains(x));
                let j = choose|j: int| 0 <= j < b.len() && b[j] == x;
                assert(j != 0);
                assert(b1[j - 1] == x);
            }
            if b1.contains(x) {
                let i = choose|i: int| 0 <= i < b1.len() && b1[i] == x;
                assert(b[i + 1] == x);
                crate::text::lemma_keys_lt_irreflexive(pair_key(x));
                assert(crate::text::keys_lt(pair_key(b[0]), pair_key(b[i + 1])));
                assert(x != b[0]);
                assert(b.contains(x));
                assert(a.contains(x));
                let j = choose|j: int| 0 <= j < a.len() && a[j] == x;
                assert(j != 0);
                assert(a1[j - 1] == x);
            }
        }
        lemma_ascending_unique(a1, b1);
        assert(a =~= seq![a[0]] + a1);
        assert(b =~= seq![b[0]] + b1);
    }
}

/// Keys sorted ascending with repeats removed.
pub fn sort_unique_keys(v: Vec<ArtifactKey>) -> (r: Vec<ArtifactKey>)
    ensures
        keys_view(r@) == ascending_keys(Set::new(|x| keys_view(v@).contains(x))),
        keys_ascending(keys_view(r@)),
        forall|x| #[trigger] keys_view(r@).contains(x) <==> keys_view(v@).contains(x),
{
    let ghost orig = v@;
    let s = sort_by_key(v);
    let mut r: Vec<ArtifactKey> = Vec::new();
    let mut i: usize = 0;
    while i < s.len()
        invariant
            i <= s@.len(),
            s@.to_multiset() == orig.to_multiset(),
            sorted_by_key(s@),
            keys_ascending(keys_view(r@)),
            forall|x| #[trigger] keys_view(r@).contains(x) <==> keys_view(s@.take(i as int)).contains(x),
            i > 0 ==> r@.len() > 0 && keys_view(r@).last() == s@[i - 1]@,
            i == 0 ==> r@.len() == 0,
        decreases s@.len() - i,
    {
        let ghost before = keys_view(r@);
        let ghost cur = s@[i as int]@;
        let fresh = r.len() == 0 || !r[r.len() - 1].same(&s[i]);
        if fresh {
            r.push(s[i].dup());
            proof {
                assert(keys_view(r@) =~= before.push(cur));
                if i > 0 {
                    // the last kept key is s[i-1], not above s[i], and different
                    assert(!crate::text::keys_lt(s@[i as int].sort_key(), s@[i - 1].sort_key()));
                    crate::text::lemma_keys_lt_total(pair_key(before.last()), pair_key(cur));
                    assert(s@[i as int].sort_key() == pair_key(cur));
                    assert(s@[i - 1].sort_key() == pair_key(before.last()));
                    if pair_key(before.last()) == pair_key(cur) {
                        assert(pair_key(before.last())[0] == pair_key(cur)[0]);
                        assert(pair_key(before.last())[1] == pair_key(cur)[1]);
                        assert(before.last() == cur);
                        assert(r@[before.len() - 1]@ == before.last());
                    }
                    assert(crate::text::keys_lt(pair_key(before.last()), pair_key(cur)));
                    assert forall|a: int, b: int| 0 <= a < b < keys_view(r@).len() implies crate::text::keys_lt(pair_key(keys_view(r@)[a]), pair_key(keys_view(r@)[b])) by {
                        if b == before.len() {
                            assert(keys_view(r@)[b] == cur);
                            assert(keys_view(r@)[a] == before[a]);
                            if a < before.len() - 1 {
                                assert(crate::text::keys_lt(pair_key(before[a]), pair_key(before[before.len() - 1])));
                                crate::text::lemma_keys_lt_transitive(pair_key(before[a]), pair_key(before.last()), pair_key(cur));
                            }
                        } else {
                            assert(keys_view(r@)[a] == before[a]);
                            assert(keys_view(r@)[b] == before[b]);
                        }
                    }
                }
            }
        }
        proof {
            let t1 = keys_view(s@.take(i + 1));
            assert(t1 =~= keys_view(s@.take(i as int)).push(cur));
            assert forall|x| #[trigger] keys_view(r@).contains(x) <==> t1.contains(x) by {
                if keys_view(r@).contains(x) {
                    let k = choose|k: int| 0 <= k < keys_view(r@).len() && keys_view(r@)[k] == x;
                    if k < before.len() {
                        assert(before[k] == x);
                        assert(before.contains(x));
                        let u = choose|u: int| 0 <= u < keys_view(s@.take(i as int)).len() && keys_view(s@.take(i as int))[u] == x;
                        assert(t1[u] == x);
                    } else {
                        assert(t1[i as int] == x);
                    }
                }
                if t1.contains(x) {
                    let u = choose|u: int| 0 <= u < t1.len() && t1[u] == x;
                    if u < i {
                        assert(keys_view(s@.take(i as int))[u] == x);
                        assert(before.contains(x));
                        let k = choose|k: int| 0 <= k < before.len() && before[k] == x;
                        assert(keys_view(r@)[k] == x);
                    } else if fresh {
                        assert(keys_view(r@)[before.len() as int] == x);
                    } else {
                        assert(keys_view(r@)[keys_view(r@).len() - 1] == x);
                    }
                }
            }
        }
        i += 1;
    }
    proof {
        assert(s@.take(s@.len() as int) =~= s@);
        let target = Set::new(|x| keys_view(orig).contains(x));
        assert forall|x| #[trigger] keys_view(r@).contains(x) <==> target.contains(x) by {
            if keys_view(r@).contains(x) {
                let k = choose|k: int| 0 <= k < s@.len() && keys_view(s@)[k] == x;
                vstd::seq_lib::to_multiset_contains(s@, s@[k]);
                assert(s@.to_multiset().count(s@[k]) > 0);
                assert(orig.to_multiset().count(s@[k]) > 0);
                assert(orig.contains(s@[k]));
                let m = choose|m: int| 0 <= m < orig.len() && orig[m] == s@[k];
                assert(keys_view(orig)[m] == x);
            }
            if target.contains(x) {
                let m = choose|m: int| 0 <= m < orig.len() && keys_view(orig)[m] == x;
                assert(orig.contains(orig[m]));
                vstd::seq_lib::to_multiset_contains(orig, orig[m]);
                assert(s@.to_multiset().count(orig[m]) > 0);
                assert(s@.contains(orig[m]));
                let k = choose|k: int| 0 <= k < s@.len() && s@[k] == orig[m];
                assert(keys_view(s@)[k] == x);
            }
        }
        let c = ascending_keys(target);
        assert(keys_ascending(c) && forall|x| #[trigger] c.contains(x) <==> target.contains(x));
        lemma_ascending_unique(keys_view(r@), c);
    }
    r
}

} // verus!
