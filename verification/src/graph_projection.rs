//! Effective projections of a source graph.
//!
//! Each source sees the artifacts of its ancestors and its own. An entry
//! records a historical origin, the terminal that answers for it after the
//! overrides applied so far, and the route of overrides taken. Sources are
//! visited in topological order, so every parent projection is complete
//! before a child reads it.
use vstd::prelude::*;

use crate::corpus::ArtifactKey;
use crate::graph_composition::{
    ascending_keys, finding_view, findings_view, keys_view, sort_unique_keys, CompiledOverride, GraphCompositionFinding,
    GraphFindingReason, GraphOverrideDeclaration, FINDING_OVERRIDE_DIVERGENCE,
};
use crate::graph_overrides::{find_key, find_key_exec, one_key, override_finding_exec, override_view};
use crate::graph_topology::{idx_seq, FindingView};
use crate::item::CorpusItem;
use crate::text::{decimal, owned, push_str, str_eq, usize_to_string};

verus! {

/// Origin, terminal and route, as item and mapping positions.
pub type EntryView = (int, int, Seq<int>);

/// One projection entry.
#[derive(Debug)]
pub struct Entry {
    pub origin: usize,
    pub terminal: usize,
    pub route: Vec<usize>,
}

pub open spec fn entry_view(e: Entry) -> EntryView {
    (e.origin as int, e.terminal as int, idx_seq(e.route@))
}

/// The entries held by a list.
pub open spec fn entry_set(v: Seq<Entry>) -> Set<EntryView> {
    Set::new(|x: EntryView| exists|i: int| 0 <= i < v.len() && entry_view(#[trigger] v[i]) == x)
}

/// The item position of a declaration's target.
pub open spec fn tgt_of(items: Seq<CorpusItem>, acc: Seq<GraphOverrideDeclaration>, a: int) -> int {
    find_key(items, acc[a].target@).unwrap()
}

/// The item position of a declaration's replacement.
pub open spec fn rep_of(items: Seq<CorpusItem>, acc: Seq<GraphOverrideDeclaration>, a: int) -> int {
    find_key(items, acc[a].replacement@).unwrap()
}

/// What the parents of a source see together.
pub open spec fn merged(projs: Seq<Set<EntryView>>, parents: Seq<int>) -> Set<EntryView> {
    Set::new(|e: EntryView| exists|j: int| 0 <= j < parents.len() && #[trigger] projs[parents[j]].contains(e))
}

/// The terminals of a projection.
pub open spec fn live(m: Set<EntryView>) -> Set<int> {
    Set::new(|t: int| exists|o: int, r: Seq<int>| m.contains((o, t, r)))
}

fn same_entry(a: &Entry, b: &Entry) -> (r: bool)
    ensures
        r == (entry_view(*a) == entry_view(*b)),
{
    if a.origin != b.origin || a.terminal != b.terminal || a.route.len() != b.route.len() {
        if a.route.len() != b.route.len() {
            assert(idx_seq(a.route@).len() != idx_seq(b.route@).len());
        }
        return false;
    }
    let mut i: usize = 0;
    while i < a.route.len()
        invariant
            a.route@.len() == b.route@.len(),
            i <= a.route@.len(),
            forall|k: int| 0 <= k < i ==> a.route@[k] == b.route@[k],
        decreases a.route@.len() - i,
    {
        if a.route[i] != b.route[i] {
            assert(idx_seq(a.route@)[i as int] != idx_seq(b.route@)[i as int]);
            return false;
        }
        i += 1;
    }
    assert(idx_seq(a.route@) =~= idx_seq(b.route@));
    true
}

fn copy_route(r: &Vec<usize>) -> (out: Vec<usize>)
    ensures
        out@ == r@,
{
    let mut out: Vec<usize> = Vec::new();
    let mut i: usize = 0;
    while i < r.len()
        invariant
            i <= r@.len(),
            out@ == r@.take(i as int),
        decreases r@.len() - i,
    {
        out.push(r[i]);
        assert(out@ =~= r@.take(i + 1));
        i += 1;
    }
    assert(r@.take(r@.len() as int) =~= r@);
    out
}

fn copy_entry(e: &Entry) -> (r: Entry)
    ensures
        entry_view(r) == entry_view(*e),
{
    Entry { origin: e.origin, terminal: e.terminal, route: copy_route(&e.route) }
}

/// Add `e` to `v` unless it is there already.
fn add_entry(v: &mut Vec<Entry>, e: Entry)
    ensures
        entry_set(final(v)@) == entry_set(old(v)@).insert(entry_view(e)),
{
    let mut i: usize = 0;
    while i < v.len()
        invariant
            i <= v@.len(),
            v@ == old(v)@,
            forall|k: int| 0 <= k < i ==> entry_view(v@[k]) != entry_view(e),
        decreases v@.len() - i,
    {
        if same_entry(&v[i], &e) {
            assert(entry_set(v@) =~= entry_set(v@).insert(entry_view(e))) by {
                assert(entry_set(v@).contains(entry_view(e)));
            }
            return;
        }
        i += 1;
    }
    let ghost before = v@;
    v.push(e);
    proof {
        assert forall|x: EntryView| entry_set(v@).contains(x) <==> entry_set(before).insert(entry_view(e)).contains(x) by {
            if entry_set(v@).contains(x) {
                let k = choose|k: int| 0 <= k < v@.len() && entry_view(#[trigger] v@[k]) == x;
                if k < before.len() {
                    assert(v@[k] == before[k]);
                    assert(entry_set(before).contains(x));
                }
            }
            if entry_set(before).contains(x) {
                let k = choose|k: int| 0 <= k < before.len() && entry_view(#[trigger] before[k]) == x;
                assert(v@[k] == before[k]);
            }
            if x == entry_view(e) {
                assert(entry_view(v@[before.len() as int]) == x);
            }
        }
        assert(entry_set(v@) =~= entry_set(before).insert(entry_view(e)));
    }
}

/// Everything the listed parents see.
fn merge_parents(projs: &Vec<Vec<Entry>>, parents: &Vec<usize>) -> (r: Vec<Entry>)
    requires
        forall|j: int| 0 <= j < parents@.len() ==> (#[trigger] parents@[j]) < projs@.len(),
    ensures
        entry_set(r@) == merged(Seq::new(projs@.len(), |k: int| entry_set(projs@[k]@)), idx_seq(parents@)),
{
    let ghost ps = Seq::new(projs@.len(), |k: int| entry_set(projs@[k]@));
    let mut r: Vec<Entry> = Vec::new();
    let mut j: usize = 0;
    while j < parents.len()
        invariant
            j <= parents@.len(),
            ps == Seq::new(projs@.len(), |k: int| entry_set(projs@[k]@)),
            forall|j: int| 0 <= j < parents@.len() ==> (#[trigger] parents@[j]) < projs@.len(),
            entry_set(r@) == merged(ps, idx_seq(parents@).take(j as int)),
        decreases parents@.len() - j,
    {
        let src = &projs[parents[j]];
        let mut i: usize = 0;
        while i < src.len()
            invariant
                j < parents@.len(),
                parents@[j as int] < projs@.len(),
                *src == projs@[parents@[j as int] as int],
                i <= src@.len(),
                ps == Seq::new(projs@.len(), |k: int| entry_set(projs@[k]@)),
                forall|j: int| 0 <= j < parents@.len() ==> (#[trigger] parents@[j]) < projs@.len(),
                entry_set(r@) == merged(ps, idx_seq(parents@).take(j as int)).union(entry_set(src@.take(i as int))),
            decreases src@.len() - i,
        {
            let ghost before = r@;
            let c = copy_entry(&src[i]);
            let ghost cv = entry_view(c);
            add_entry(&mut r, c);
            proof {
                assert(cv == entry_view(src@[i as int]));
                assert(entry_set(r@) == entry_set(before).insert(cv));
                assert(src@.take(i + 1) =~= src@.take(i as int).push(src@[i as int]));
                assert forall|x: EntryView| entry_set(src@.take(i + 1)).contains(x) <==> (entry_set(src@.take(i as int)).contains(x) || x == entry_view(src@[i as int])) by {
                    if entry_set(src@.take(i + 1)).contains(x) {
                        let k = choose|k: int| 0 <= k < i + 1 && entry_view(#[trigger] src@.take(i + 1)[k]) == x;
                        if k < i {
                            assert(src@.take(i + 1)[k] == src@.take(i as int)[k]);
                        }
                    }
                    if entry_set(src@.take(i as int)).contains(x) {
                        let k = choose|k: int| 0 <= k < i && entry_view(#[trigger] src@.take(i as int)[k]) == x;
                        assert(src@.take(i + 1)[k] == src@.take(i as int)[k]);
                    }
                    if x == entry_view(src@[i as int]) {
                        assert(entry_view(src@.take(i + 1)[i as int]) == x);
                    }
                }
                let m0 = merged(ps, idx_seq(parents@).take(j as int));
                assert forall|x: EntryView| entry_set(r@).contains(x) <==> m0.union(entry_set(src@.take(i + 1))).contains(x) by {
                    assert(entry_set(before).contains(x) <==> m0.union(entry_set(src@.take(i as int))).contains(x));
                }
                assert(entry_set(r@) =~= m0.union(entry_set(src@.take(i + 1))));
            }
            i += 1;
        }
        proof {
            assert(src@.take(src@.len() as int) =~= src@);
            let pj = parents@[j as int] as int;
            assert(ps[pj] == entry_set(src@));
            let a = idx_seq(parents@).take(j as int);
            let b = idx_seq(parents@).take(j + 1);
            assert(b =~= a.push(pj));
            assert forall|e: EntryView| merged(ps, b).contains(e) <==> (merged(ps, a).contains(e) || entry_set(src@).contains(e)) by {
                if merged(ps, b).contains(e) {
                    let t = choose|t: int| 0 <= t < b.len() && #[trigger] ps[b[t]].contains(e);
                    if t < j {
                        assert(b[t] == a[t]);
                        assert(ps[a[t]].contains(e));
                    }
                }
                if merged(ps, a).contains(e) {
                    let t = choose|t: int| 0 <= t < a.len() && #[trigger] ps[a[t]].contains(e);
                    assert(b[t] == a[t]);
                    assert(ps[b[t]].contains(e));
                }
                if entry_set(src@).contains(e) {
                    assert(b[j as int] == pj);
                    assert(ps[b[j as int]].contains(e));
                }
            }
            assert(entry_set(r@) =~= merged(ps, b));
        }
        j += 1;
    }
    proof {
        assert(idx_seq(parents@).take(parents@.len() as int) =~= idx_seq(parents@));
    }
    r
}

/// The first mapping at or after `from` and before `upto` that redirects
/// terminal `t`; `targets` holds each mapping's target position.
pub open spec fn redirect(targets: Seq<int>, from: int, t: int, upto: int) -> Option<int>
    decreases upto - from,
{
    if upto <= from {
        None
    } else {
        match redirect(targets, from, t, upto - 1) {
            Some(m) => Some(m),
            None => if targets[upto - 1] == t { Some(upto - 1) } else { None },
        }
    }
}

/// Where one entry goes when the mappings from `from` on apply.
pub open spec fn moved(targets: Seq<int>, reps: Seq<int>, from: int, e: EntryView) -> EntryView {
    match redirect(targets, from, e.1, targets.len() as int) {
        Some(m) => (e.0, reps[m], e.2.push(m)),
        None => e,
    }
}

/// A projection after the mappings from `from` on apply.
pub open spec fn applied(targets: Seq<int>, reps: Seq<int>, from: int, m: Set<EntryView>) -> Set<EntryView> {
    Set::new(|e: EntryView| exists|e0: EntryView| m.contains(e0) && e == #[trigger] moved(targets, reps, from, e0))
}

/// A source's own artifacts, each its own origin and terminal.
pub open spec fn locals(items: Seq<CorpusItem>, src: Seq<char>) -> Set<EntryView> {
    Set::new(|e: EntryView| exists|i: int| 0 <= i < items.len() && items[i].key.source@ == src && e == (i, i, Seq::<int>::empty()))
}

proof fn lemma_redirect_stable(targets: Seq<int>, from: int, t: int, a: int, b: int)
    requires
        from <= a <= b,
        redirect(targets, from, t, a) is Some,
    ensures
        redirect(targets, from, t, b) == redirect(targets, from, t, a),
    decreases b - a,
{
    if b > a {
        lemma_redirect_stable(targets, from, t, a, b - 1);
    }
}

/// The first mapping from `from` on that redirects `t`.
fn find_redirect(targets: &Vec<usize>, from: usize, t: usize) -> (r: Option<usize>)
    requires
        from <= targets@.len(),
    ensures
        match r {
            Some(m) => from <= m < targets@.len() && redirect(idx_seq(targets@), from as int, t as int, targets@.len() as int) == Some(m as int),
            None => redirect(idx_seq(targets@), from as int, t as int, targets@.len() as int) is None,
        },
{
    let mut u = from;
    while u < targets.len()
        invariant
            from <= u <= targets@.len(),
            redirect(idx_seq(targets@), from as int, t as int, u as int) is None,
        decreases targets@.len() - u,
    {
        if targets[u] == t {
            proof {
                assert(redirect(idx_seq(targets@), from as int, t as int, u + 1) == Some(u as int));
                lemma_redirect_stable(idx_seq(targets@), from as int, t as int, u + 1, targets@.len() as int);
            }
            return Some(u);
        }
        u += 1;
    }
    None
}

/// Apply the mappings from `from` on to every entry.
fn apply_mappings(m: &Vec<Entry>, targets: &Vec<usize>, reps: &Vec<usize>, from: usize) -> (r: Vec<Entry>)
    requires
        from <= targets@.len(),
        reps@.len() == targets@.len(),
    ensures
        entry_set(r@) == applied(idx_seq(targets@), idx_seq(reps@), from as int, entry_set(m@)),
{
    let ghost tg = idx_seq(targets@);
    let ghost rp = idx_seq(reps@);
    let mut r: Vec<Entry> = Vec::new();
    let mut i: usize = 0;
    while i < m.len()
        invariant
            i <= m@.len(),
            from <= targets@.len(),
            reps@.len() == targets@.len(),
            tg == idx_seq(targets@),
            rp == idx_seq(reps@),
            entry_set(r@) == applied(tg, rp, from as int, entry_set(m@.take(i as int))),
        decreases m@.len() - i,
    {
        let e = &m[i];
        let next = match find_redirect(targets, from, e.terminal) {
            Some(k) => {
                let mut route = copy_route(&e.route);
                route.push(k);
                assert(idx_seq(route@) =~= idx_seq(e.route@).push(k as int));
                Entry { origin: e.origin, terminal: reps[k], route }
            },
            None => copy_entry(e),
        };
        let ghost nv = entry_view(next);
        assert(nv == moved(tg, rp, from as int, entry_view(*e)));
        let ghost before = r@;
        add_entry(&mut r, next);
        proof {
            let a = entry_set(m@.take(i as int));
            let b = entry_set(m@.take(i + 1));
            assert forall|x: EntryView| b.contains(x) <==> (a.contains(x) || x == entry_view(m@[i as int])) by {
                if b.contains(x) {
                    let k = choose|k: int| 0 <= k < i + 1 && entry_view(#[trigger] m@.take(i + 1)[k]) == x;
                    if k < i {
                        assert(m@.take(i + 1)[k] == m@.take(i as int)[k]);
                    }
                }
                if a.contains(x) {
                    let k = choose|k: int| 0 <= k < i && entry_view(#[trigger] m@.take(i as int)[k]) == x;
                    assert(m@.take(i + 1)[k] == m@.take(i as int)[k]);
                }
                if x == entry_view(m@[i as int]) {
                    assert(entry_view(m@.take(i + 1)[i as int]) == x);
                }
            }
            assert forall|x: EntryView| entry_set(r@).contains(x) <==> applied(tg, rp, from as int, b).contains(x) by {
                if applied(tg, rp, from as int, b).contains(x) {
                    let e0 = choose|e0: EntryView| b.contains(e0) && x == #[trigger] moved(tg, rp, from as int, e0);
                    if a.contains(e0) {
                        assert(applied(tg, rp, from as int, a).contains(x));
                    }
                }
                if applied(tg, rp, from as int, a).contains(x) {
                    let e0 = choose|e0: EntryView| a.contains(e0) && x == #[trigger] moved(tg, rp, from as int, e0);
                    assert(b.contains(e0));
                }
                if x == nv {
                    assert(b.contains(entry_view(m@[i as int])));
                }
            }
            assert(entry_set(r@) =~= applied(tg, rp, from as int, b));
        }
        i += 1;
    }
    proof {
        assert(m@.take(m@.len() as int) =~= m@);
    }
    r
}

/// Add the items of source `src` as their own origins and terminals.
fn add_locals(v: &mut Vec<Entry>, items: &Vec<CorpusItem>, src: &str)
    ensures
        entry_set(final(v)@) == entry_set(old(v)@).union(locals(items@, src@)),
{
    let ghost start = entry_set(v@);
    let mut i: usize = 0;
    while i < items.len()
        invariant
            i <= items@.len(),
            entry_set(v@) == start.union(Set::new(|e: EntryView| exists|k: int| 0 <= k < i && items@[k].key.source@ == src@ && e == (k, k, Seq::<int>::empty()))),
        decreases items@.len() - i,
    {
        let ghost before = entry_set(v@);
        if crate::text::str_eq(items[i].key.source.as_str(), src) {
            let e = Entry { origin: i, terminal: i, route: Vec::new() };
            assert(entry_view(e) =~= (i as int, i as int, Seq::<int>::empty()));
            add_entry(v, e);
        }
        proof {
            let s1 = Set::new(|e: EntryView| exists|k: int| 0 <= k < i && items@[k].key.source@ == src@ && e == (k, k, Seq::<int>::empty()));
            let s2 = Set::new(|e: EntryView| exists|k: int| 0 <= k < i + 1 && items@[k].key.source@ == src@ && e == (k, k, Seq::<int>::empty()));
            assert forall|x: EntryView| entry_set(v@).contains(x) <==> start.union(s2).contains(x) by {
                if s2.contains(x) {
                    let k = choose|k: int| 0 <= k < i + 1 && items@[k].key.source@ == src@ && x == (k, k, Seq::<int>::empty());
                    if k < i {
                        assert(s1.contains(x));
                    }
                }
            }
            assert(entry_set(v@) =~= start.union(s2));
        }
        i += 1;
    }
    proof {
        assert(Set::new(|e: EntryView| exists|k: int| 0 <= k < items@.len() && items@[k].key.source@ == src@ && e == (k, k, Seq::<int>::empty()))
            =~= locals(items@, src@));
    }
}

/// Every target and replacement of the accepted declarations is an item.
pub open spec fn decls_resolved(items: Seq<CorpusItem>, acc: Seq<GraphOverrideDeclaration>) -> bool {
    forall|a: int| 0 <= a < acc.len() ==> (#[trigger] find_key(items, acc[a].target@)) is Some
        && find_key(items, acc[a].replacement@) is Some
}

/// The declarations of `src` whose targets are live, in order.
pub open spec fn owned_live(items: Seq<CorpusItem>, acc: Seq<GraphOverrideDeclaration>, src: Seq<char>, l: Set<int>, upto: int) -> Seq<int>
    decreases upto,
{
    if upto <= 0 {
        Seq::empty()
    } else {
        let prev = owned_live(items, acc, src, l, upto - 1);
        let a = upto - 1;
        if acc[a].owner_source@ == src && l.contains(tgt_of(items, acc, a)) { prev.push(a) } else { prev }
    }
}

/// Declarations of `src` whose targets are not live.
pub open spec fn target_refusals(items: Seq<CorpusItem>, acc: Seq<GraphOverrideDeclaration>, src: Seq<char>, l: Set<int>) -> Set<FindingView> {
    Set::new(|x: FindingView| exists|a: int| 0 <= a < acc.len() && acc[a].owner_source@ == src && !l.contains(#[trigger] tgt_of(items, acc, a))
        && x == override_view(GraphFindingReason::TargetNotInherited, acc[a], seq![acc[a].target@]))
}

/// The compiled form of declaration `a`, owned at rank `rank`.
pub open spec fn compiled_is(c: CompiledOverride, rank: int, d: GraphOverrideDeclaration) -> bool {
    &&& c.owner_rank == rank
    &&& c.owner_source@ == d.owner_source@
    &&& c.target == d.target
    &&& c.replacement == d.replacement
    &&& c.rationale == d.rationale
}

/// Whether terminal `t` is live in `m`.
fn is_live(m: &Vec<Entry>, t: usize) -> (r: bool)
    ensures
        r == live(entry_set(m@)).contains(t as int),
{
    let mut i: usize = 0;
    while i < m.len()
        invariant
            i <= m@.len(),
            forall|k: int| 0 <= k < i ==> m@[k].terminal != t,
        decreases m@.len() - i,
    {
        if m[i].terminal == t {
            assert(entry_set(m@).contains(entry_view(m@[i as int])));
            return true;
        }
        i += 1;
    }
    proof {
        if live(entry_set(m@)).contains(t as int) {
            let (o, r) = choose|o: int, r: Seq<int>| entry_set(m@).contains((o, t as int, r));
            let k = choose|k: int| 0 <= k < m@.len() && entry_view(#[trigger] m@[k]) == (o, t as int, r);
        }
    }
    false
}

/// Compile the declarations of `src` whose targets are live in `m`, and
/// refuse the others.
fn compile_owner(
    m: &Vec<Entry>,
    items: &Vec<CorpusItem>,
    acc: &Vec<GraphOverrideDeclaration>,
    src: &str,
    rank: usize,
    compiled: &mut Vec<CompiledOverride>,
    cd: &mut Vec<usize>,
    targets: &mut Vec<usize>,
    reps: &mut Vec<usize>,
    findings: &mut Vec<GraphCompositionFinding>,
)
    requires
        decls_resolved(items@, acc@),
    ensures
        idx_seq(final(cd)@) == idx_seq(old(cd)@) + owned_live(items@, acc@, src@, live(entry_set(m@)), acc@.len() as int),
        final(compiled)@.len() == old(compiled)@.len() + owned_live(items@, acc@, src@, live(entry_set(m@)), acc@.len() as int).len(),
        final(targets)@.len() == old(targets)@.len() + owned_live(items@, acc@, src@, live(entry_set(m@)), acc@.len() as int).len(),
        final(reps)@.len() == old(reps)@.len() + owned_live(items@, acc@, src@, live(entry_set(m@)), acc@.len() as int).len(),
        forall|k: int| 0 <= k < old(compiled)@.len() ==> final(compiled)@[k] == old(compiled)@[k],
        forall|k: int| 0 <= k < old(targets)@.len() ==> final(targets)@[k] == old(targets)@[k],
        forall|k: int| 0 <= k < old(reps)@.len() ==> final(reps)@[k] == old(reps)@[k],
        forall|k: int| #![trigger owned_live(items@, acc@, src@, live(entry_set(m@)), acc@.len() as int)[k]] 0 <= k < owned_live(items@, acc@, src@, live(entry_set(m@)), acc@.len() as int).len() ==> {
            let a = owned_live(items@, acc@, src@, live(entry_set(m@)), acc@.len() as int)[k];
            &&& compiled_is(final(compiled)@[old(compiled)@.len() + k], rank as int, acc@[a])
            &&& final(targets)@[old(targets)@.len() + k] == tgt_of(items@, acc@, a)
            &&& final(reps)@[old(reps)@.len() + k] == rep_of(items@, acc@, a)
        },
        forall|x: FindingView| #[trigger] findings_view(final(findings)@).contains(x) <==>
            (findings_view(old(findings)@).contains(x) || target_refusals(items@, acc@, src@, live(entry_set(m@))).contains(x)),
{
    let ghost l = live(entry_set(m@));
    let ghost c0 = compiled@.len();
    let ghost t0 = targets@.len();
    let ghost r0 = reps@.len();
    let ghost cd0 = idx_seq(cd@);
    let ghost f0 = findings_view(findings@);
    let ghost old_compiled = compiled@;
    let ghost old_targets = targets@;
    let ghost old_reps = reps@;
    let mut a: usize = 0;
    while a < acc.len()
        invariant
            a <= acc@.len(),
            decls_resolved(items@, acc@),
            l == live(entry_set(m@)),
            idx_seq(cd@) == cd0 + owned_live(items@, acc@, src@, l, a as int),
            compiled@.len() == c0 + owned_live(items@, acc@, src@, l, a as int).len(),
            targets@.len() == t0 + owned_live(items@, acc@, src@, l, a as int).len(),
            reps@.len() == r0 + owned_live(items@, acc@, src@, l, a as int).len(),
            c0 == old_compiled.len(),
            t0 == old_targets.len(),
            r0 == old_reps.len(),
            forall|k: int| 0 <= k < c0 ==> compiled@[k] == old_compiled[k],
            forall|k: int| 0 <= k < t0 ==> targets@[k] == old_targets[k],
            forall|k: int| 0 <= k < r0 ==> reps@[k] == old_reps[k],
            forall|k: int| #![trigger owned_live(items@, acc@, src@, l, a as int)[k]] 0 <= k < owned_live(items@, acc@, src@, l, a as int).len() ==> {
                let d = owned_live(items@, acc@, src@, l, a as int)[k];
                &&& compiled_is(compiled@[c0 + k], rank as int, acc@[d])
                &&& targets@[t0 + k] == tgt_of(items@, acc@, d)
                &&& reps@[r0 + k] == rep_of(items@, acc@, d)
            },
            forall|x: FindingView| #[trigger] findings_view(findings@).contains(x) <==> (f0.contains(x) ||
                exists|b: int| 0 <= b < a && acc@[b].owner_source@ == src@ && !l.contains(#[trigger] tgt_of(items@, acc@, b))
                    && x == override_view(GraphFindingReason::TargetNotInherited, acc@[b], seq![acc@[b].target@])),
        decreases acc@.len() - a,
    {
        let d = &acc[a];
        let ghost prev = owned_live(items@, acc@, src@, l, a as int);
        let ghost before = findings_view(findings@);
        if str_eq(d.owner_source.as_str(), src) {
            assert(find_key(items@, acc@[a as int].target@) is Some);
            let t = match find_key_exec(items, &d.target) { Some(t) => t, None => { proof { assert(false); } 0 } };
            if is_live(m, t) {
                let rp = match find_key_exec(items, &d.replacement) { Some(x) => x, None => { proof { assert(false); } 0 } };
                compiled.push(CompiledOverride {
                    owner_rank: rank,
                    owner_source: d.owner_source.clone(),
                    target: d.target.dup(),
                    replacement: d.replacement.dup(),
                    rationale: d.rationale.dup(),
                });
                let ghost cdb = cd@;
                cd.push(a);
                assert(idx_seq(cd@) =~= idx_seq(cdb).push(a as int));
                assert(cd0 + prev.push(a as int) =~= (cd0 + prev).push(a as int));
                targets.push(t);
                reps.push(rp);
                proof {
                    assert(owned_live(items@, acc@, src@, l, a + 1) == prev.push(a as int));
                    assert(idx_seq(cd@) =~= cd0 + prev.push(a as int));
                }
            } else {
                findings.push(override_finding_exec(GraphFindingReason::TargetNotInherited, d, one_key(&d.target)));
                proof {
                    assert(owned_live(items@, acc@, src@, l, a + 1) == prev);
                    assert(findings_view(findings@) =~= before.push(override_view(GraphFindingReason::TargetNotInherited, acc@[a as int], seq![acc@[a as int].target@])));
                }
            }
        } else {
            assert(owned_live(items@, acc@, src@, l, a + 1) == prev);
        }
        proof {
            assert forall|x: FindingView| #[trigger] findings_view(findings@).contains(x) <==> (f0.contains(x) ||
                exists|b: int| 0 <= b < a + 1 && acc@[b].owner_source@ == src@ && !l.contains(#[trigger] tgt_of(items@, acc@, b))
                    && x == override_view(GraphFindingReason::TargetNotInherited, acc@[b], seq![acc@[b].target@])) by {
                let fin = findings_view(findings@);
                if fin.contains(x) && !before.contains(x) {
                    let u = choose|u: int| 0 <= u < fin.len() && fin[u] == x;
                    if u < before.len() {
                        assert(before[u] == x);
                    }
                    assert(u == before.len());
                }
                if before.contains(x) {
                    let u = choose|u: int| 0 <= u < before.len() && before[u] == x;
                    assert(fin[u] == x);
                }
                if exists|b: int| 0 <= b < a + 1 && acc@[b].owner_source@ == src@ && !l.contains(#[trigger] tgt_of(items@, acc@, b))
                    && x == override_view(GraphFindingReason::TargetNotInherited, acc@[b], seq![acc@[b].target@]) {
                    let b = choose|b: int| 0 <= b < a + 1 && acc@[b].owner_source@ == src@ && !l.contains(#[trigger] tgt_of(items@, acc@, b))
                        && x == override_view(GraphFindingReason::TargetNotInherited, acc@[b], seq![acc@[b].target@]);
                    if b == a {
                        assert(fin[before.len() as int] == x);
                    }
                }
            }
        }
        a += 1;
    }
    proof {
        assert forall|x: FindingView| target_refusals(items@, acc@, src@, l).contains(x) <==>
            exists|b: int| 0 <= b < acc@.len() && acc@[b].owner_source@ == src@ && !l.contains(#[trigger] tgt_of(items@, acc@, b))
                && x == override_view(GraphFindingReason::TargetNotInherited, acc@[b], seq![acc@[b].target@]) by {
        }
    }
}

/// The historical origins of a projection.
pub open spec fn origins_of(p: Set<EntryView>) -> Set<int> {
    Set::new(|o: int| exists|t: int, r: Seq<int>| p.contains((o, t, r)))
}

/// The terminals that answer for origin `o`.
pub open spec fn terminals_of(p: Set<EntryView>, o: int) -> Set<int> {
    Set::new(|t: int| exists|r: Seq<int>| p.contains((o, t, r)))
}

pub open spec fn divergence_message(src: Seq<char>, o: (Seq<char>, Seq<char>), n: nat) -> Seq<char> {
    "source '"@ + src + "' leaves historical artifact '"@ + o.0 + "::"@ + o.1 + "' with "@ + decimal(n) + " effective terminals"@
}

/// The keys of an origin and its terminals.
pub open spec fn divergence_keys(items: Seq<CorpusItem>, o: int, ts: Set<int>) -> Set<(Seq<char>, Seq<char>)> {
    Set::new(|k: (Seq<char>, Seq<char>)| k == items[o].key@ || exists|t: int| ts.contains(t) && k == items[t].key@)
}

pub open spec fn divergence_view(items: Seq<CorpusItem>, src: Seq<char>, o: int, ts: Set<int>) -> FindingView {
    (FINDING_OVERRIDE_DIVERGENCE@, GraphFindingReason::DivergentTerminal, Some(src),
        ascending_keys(divergence_keys(items, o, ts)), divergence_message(src, items[o].key@, ts.len()))
}

/// An origin of `p` answered by more than one terminal.
pub open spec fn divergences(items: Seq<CorpusItem>, src: Seq<char>, p: Set<EntryView>) -> Set<FindingView> {
    Set::new(|x: FindingView| exists|o: int| origins_of(p).contains(o) && terminals_of(p, o).len() > 1
        && x == divergence_view(items, src, o, terminals_of(p, o)))
}

/// Entries name items only.
pub open spec fn set_bounded(p: Set<EntryView>, n: int) -> bool {
    forall|e: EntryView| p.contains(e) ==> 0 <= e.0 < n && 0 <= e.1 < n
}

/// The distinct terminals of origin `o`.
pub(crate) fn terminals_exec(v: &Vec<Entry>, o: usize) -> (r: Vec<usize>)
    ensures
        idx_seq(r@).no_duplicates(),
        forall|t: int| #[trigger] idx_seq(r@).contains(t) <==> terminals_of(entry_set(v@), o as int).contains(t),
{
    let mut r: Vec<usize> = Vec::new();
    let mut i: usize = 0;
    while i < v.len()
        invariant
            i <= v@.len(),
            idx_seq(r@).no_duplicates(),
            forall|t: int| #[trigger] idx_seq(r@).contains(t) <==> exists|k: int| 0 <= k < i && v@[k].origin == o && v@[k].terminal == t,
        decreases v@.len() - i,
    {
        let ghost before = idx_seq(r@);
        if v[i].origin == o {
            let t = v[i].terminal;
            let mut j: usize = 0;
            let mut seen = false;
            while j < r.len() && !seen
                invariant
                    j <= r@.len(),
                    seen ==> idx_seq(r@).contains(t as int),
                    !seen ==> forall|q: int| 0 <= q < j ==> r@[q] != t,
                decreases r@.len() - j + (if seen { 0int } else { 1int }),
            {
                if r[j] == t {
                    assert(idx_seq(r@)[j as int] == t as int);
                    seen = true;
                } else {
                    j += 1;
                }
            }
            if !seen {
                r.push(t);
                proof {
                    assert(idx_seq(r@) =~= before.push(t as int));
                    assert forall|q: int| 0 <= q < before.len() implies before[q] != t as int by {
                        assert(before[q] == r@[q] as int);
                    }
                    assert(idx_seq(r@).no_duplicates());
                }
            }
            proof {
                assert forall|x: int| #[trigger] idx_seq(r@).contains(x) <==> exists|k: int| 0 <= k < i + 1 && v@[k].origin == o && v@[k].terminal == x by {
                    if idx_seq(r@).contains(x) && !before.contains(x) {
                        let q = choose|q: int| 0 <= q < idx_seq(r@).len() && idx_seq(r@)[q] == x;
                        if q < before.len() {
                            assert(before[q] == x);
                        }
                        assert(x == t as int);
                        assert(v@[i as int].origin == o && v@[i as int].terminal == x);
                    }
                    if before.contains(x) {
                        let q = choose|q: int| 0 <= q < before.len() && before[q] == x;
                        assert(idx_seq(r@)[q] == x);
                    }
                    if exists|k: int| 0 <= k < i + 1 && v@[k].origin == o && v@[k].terminal == x {
                        let k = choose|k: int| 0 <= k < i + 1 && v@[k].origin == o && v@[k].terminal == x;
                        if k == i && !seen {
                            assert(idx_seq(r@)[before.len() as int] == x);
                        }
                    }
                }
            }
        } else {
            proof {
                assert forall|x: int| #[trigger] idx_seq(r@).contains(x) <==> exists|k: int| 0 <= k < i + 1 && v@[k].origin == o && v@[k].terminal == x by {
                    if exists|k: int| 0 <= k < i + 1 && v@[k].origin == o && v@[k].terminal == x {
                        let k = choose|k: int| 0 <= k < i + 1 && v@[k].origin == o && v@[k].terminal == x;
                        assert(k < i);
                    }
                }
            }
        }
        i += 1;
    }
    proof {
        assert forall|t: int| #[trigger] idx_seq(r@).contains(t) <==> terminals_of(entry_set(v@), o as int).contains(t) by {
            if idx_seq(r@).contains(t) {
                let k = choose|k: int| 0 <= k < v@.len() && v@[k].origin == o && v@[k].terminal == t;
                assert(entry_set(v@).contains(entry_view(v@[k])));
            }
            if terminals_of(entry_set(v@), o as int).contains(t) {
                let rr = choose|rr: Seq<int>| entry_set(v@).contains((o as int, t, rr));
                let k = choose|k: int| 0 <= k < v@.len() && entry_view(#[trigger] v@[k]) == (o as int, t, rr);
            }
        }
    }
    r
}

/// Report every origin of `v` that more than one terminal answers.
fn divergence_findings(v: &Vec<Entry>, items: &Vec<CorpusItem>, src: &str, out: &mut Vec<GraphCompositionFinding>)
    requires
        set_bounded(entry_set(v@), items@.len() as int),
    ensures
        forall|x: FindingView| #[trigger] findings_view(final(out)@).contains(x) <==>
            (findings_view(old(out)@).contains(x) || divergences(items@, src@, entry_set(v@)).contains(x)),
{
    let ghost p = entry_set(v@);
    let ghost f0 = findings_view(out@);
    let mut i: usize = 0;
    while i < v.len()
        invariant
            i <= v@.len(),
            p == entry_set(v@),
            set_bounded(p, items@.len() as int),
            forall|x: FindingView| #[trigger] findings_view(out@).contains(x) <==> (f0.contains(x) ||
                exists|j: int| 0 <= j < i && terminals_of(p, #[trigger] v@[j].origin as int).len() > 1
                    && x == divergence_view(items@, src@, v@[j].origin as int, terminals_of(p, v@[j].origin as int))),
        decreases v@.len() - i,
    {
        let o = v[i].origin;
        assert(p.contains(entry_view(v@[i as int])));
        let ts = terminals_exec(v, o);
        let ghost tset = terminals_of(p, o as int);
        proof {
            idx_seq(ts@).unique_seq_to_set();
            assert(idx_seq(ts@).to_set() =~= tset);
        }
        let ghost before = findings_view(out@);
        if ts.len() > 1 {
            let mut keys: Vec<ArtifactKey> = Vec::new();
            keys.push(items[o].key.dup());
            let mut k: usize = 0;
            while k < ts.len()
                invariant
                    k <= ts@.len(),
                    o < items@.len(),
                    forall|t: int| #[trigger] idx_seq(ts@).contains(t) <==> tset.contains(t),
                    set_bounded(p, items@.len() as int),
                    tset == terminals_of(p, o as int),
                    keys@.len() == k + 1,
                    keys@[0]@ == items@[o as int].key@,
                    forall|q: int| 0 <= q < k ==> keys@[q + 1]@ == items@[ts@[q] as int].key@ && ts@[q] < items@.len(),
                decreases ts@.len() - k,
            {
                let t = ts[k];
                proof {
                    assert(idx_seq(ts@)[k as int] == t as int);
                    assert(idx_seq(ts@).contains(t as int));
                    let rr = choose|rr: Seq<int>| p.contains((o as int, t as int, rr));
                }
                keys.push(items[t].key.dup());
                k += 1;
            }
            let ghost kv = keys_view(keys@);
            proof {
                assert forall|x: (Seq<char>, Seq<char>)| kv.contains(x) <==> divergence_keys(items@, o as int, tset).contains(x) by {
                    if kv.contains(x) {
                        let q = choose|q: int| 0 <= q < kv.len() && kv[q] == x;
                        if q > 0 {
                            assert(idx_seq(ts@)[q - 1] == ts@[q - 1] as int);
                            assert(idx_seq(ts@).contains(ts@[q - 1] as int));
                        }
                    }
                    if divergence_keys(items@, o as int, tset).contains(x) {
                        if x == items@[o as int].key@ {
                            assert(kv[0] == x);
                        } else {
                            let t = choose|t: int| tset.contains(t) && x == items@[t].key@;
                            assert(idx_seq(ts@).contains(t));
                            let q = choose|q: int| 0 <= q < idx_seq(ts@).len() && idx_seq(ts@)[q] == t;
                            assert(kv[q + 1] == x);
                        }
                    }
                }
                assert(Set::new(|x| kv.contains(x)) =~= divergence_keys(items@, o as int, tset));
            }
            let arts = sort_unique_keys(keys);
            let mut m = owned("source '");
            push_str(&mut m, src);
            push_str(&mut m, "' leaves historical artifact '");
            push_str(&mut m, items[o].key.source.as_str());
            push_str(&mut m, "::");
            push_str(&mut m, items[o].key.canonical_id.as_str());
            push_str(&mut m, "' with ");
            push_str(&mut m, usize_to_string(ts.len()).as_str());
            push_str(&mut m, " effective terminals");
            let f = GraphCompositionFinding {
                code: FINDING_OVERRIDE_DIVERGENCE,
                reason: GraphFindingReason::DivergentTerminal,
                owner_source: Some(owned(src)),
                artifacts: arts,
                message: m,
            };
            proof {
                assert(idx_seq(ts@).len() == tset.len());
                assert(finding_view(f) == divergence_view(items@, src@, o as int, tset));
            }
            out.push(f);
            assert(findings_view(out@) =~= before.push(finding_view(f)));
        }
        proof {
            assert forall|x: FindingView| #[trigger] findings_view(out@).contains(x) <==> (f0.contains(x) ||
                exists|j: int| 0 <= j < i + 1 && terminals_of(p, #[trigger] v@[j].origin as int).len() > 1
                    && x == divergence_view(items@, src@, v@[j].origin as int, terminals_of(p, v@[j].origin as int))) by {
                let fin = findings_view(out@);
                if fin.contains(x) && !before.contains(x) {
                    let u = choose|u: int| 0 <= u < fin.len() && fin[u] == x;
                    if u < before.len() {
                        assert(before[u] == x);
                    }
                }
                if before.contains(x) {
                    let u = choose|u: int| 0 <= u < before.len() && before[u] == x;
                    assert(fin[u] == x);
                }
                if exists|j: int| 0 <= j < i + 1 && terminals_of(p, #[trigger] v@[j].origin as int).len() > 1
                    && x == divergence_view(items@, src@, v@[j].origin as int, terminals_of(p, v@[j].origin as int)) {
                    let j = choose|j: int| 0 <= j < i + 1 && terminals_of(p, #[trigger] v@[j].origin as int).len() > 1
                        && x == divergence_view(items@, src@, v@[j].origin as int, terminals_of(p, v@[j].origin as int));
                    if j == i {
                        assert(fin[before.len() as int] == x);
                    }
                }
            }
        }
        i += 1;
    }
    proof {
        assert forall|x: FindingView| divergences(items@, src@, p).contains(x) <==>
            exists|j: int| 0 <= j < v@.len() && terminals_of(p, #[trigger] v@[j].origin as int).len() > 1
                && x == divergence_view(items@, src@, v@[j].origin as int, terminals_of(p, v@[j].origin as int)) by {
            if divergences(items@, src@, p).contains(x) {
                let o = choose|o: int| origins_of(p).contains(o) && terminals_of(p, o).len() > 1
                    && x == divergence_view(items@, src@, o, terminals_of(p, o));
                let (t, rr) = choose|t: int, rr: Seq<int>| p.contains((o, t, rr));
                let k = choose|k: int| 0 <= k < v@.len() && entry_view(#[trigger] v@[k]) == (o, t, rr);
                assert(v@[k].origin as int == o);
            }
            if exists|j: int| 0 <= j < v@.len() && terminals_of(p, #[trigger] v@[j].origin as int).len() > 1
                && x == divergence_view(items@, src@, v@[j].origin as int, terminals_of(p, v@[j].origin as int)) {
                let j = choose|j: int| 0 <= j < v@.len() && terminals_of(p, #[trigger] v@[j].origin as int).len() > 1
                    && x == divergence_view(items@, src@, v@[j].origin as int, terminals_of(p, v@[j].origin as int));
                assert(p.contains(entry_view(v@[j])));
                assert(origins_of(p).contains(v@[j].origin as int));
            }
        }
    }
}

/// Compiled declarations as `(rank, declaration)`.
pub type Compiled = Seq<(int, int)>;

/// The state after visiting the first `p` sources of the order: the
/// projection of every node, the compiled declarations, and the findings.
pub open spec fn run(
    kept: Seq<crate::graph_composition::SourceNodeInput>,
    g: Seq<Seq<int>>,
    ord: Seq<int>,
    items: Seq<CorpusItem>,
    acc: Seq<GraphOverrideDeclaration>,
    p: nat,
) -> (Seq<Set<EntryView>>, Compiled, Set<FindingView>)
    decreases p,
{
    if p == 0 {
        (Seq::new(kept.len(), |k: int| Set::<EntryView>::empty()), Seq::empty(), Set::empty())
    } else {
        let prev = run(kept, g, ord, items, acc, (p - 1) as nat);
        let pos = p - 1;
        let k = ord[pos];
        let src = kept[k].source@;
        let m = merged(prev.0, g[k]);
        let l = live(m);
        let newm = owned_live(items, acc, src, l, acc.len() as int);
        let cd = prev.1 + newm.map_values(|a: int| (pos, a));
        let proj = applied(cd_targets(items, acc, cd), cd_reps(items, acc, cd), prev.1.len() as int, m).union(locals(items, src));
        (prev.0.update(k, proj), cd,
            prev.2.union(target_refusals(items, acc, src, l)).union(divergences(items, src, proj)))
    }
}

/// The target positions of compiled declarations.
pub open spec fn cd_targets(items: Seq<CorpusItem>, acc: Seq<GraphOverrideDeclaration>, cd: Compiled) -> Seq<int> {
    cd.map_values(|c: (int, int)| tgt_of(items, acc, c.1))
}

/// The replacement positions of compiled declarations.
pub open spec fn cd_reps(items: Seq<CorpusItem>, acc: Seq<GraphOverrideDeclaration>, cd: Compiled) -> Seq<int> {
    cd.map_values(|c: (int, int)| rep_of(items, acc, c.1))
}

proof fn lemma_key_pos_bound(items: Seq<CorpusItem>, k: (Seq<char>, Seq<char>), upto: int)
    requires
        upto <= items.len(),
    ensures
        key_pos_in(items, k, upto),
    decreases upto,
{
    if upto > 0 {
        lemma_key_pos_bound(items, k, upto - 1);
    }
}

pub open spec fn key_pos_in(items: Seq<CorpusItem>, k: (Seq<char>, Seq<char>), upto: int) -> bool {
    crate::graph_overrides::key_pos(items, k, upto) matches Some(i) ==> 0 <= i < upto
}

/// The compiled declarations of the exec state, as `(rank, declaration)`.
pub open spec fn compiled_pairs(compiled: Seq<CompiledOverride>, cd: Seq<usize>) -> Compiled {
    Seq::new(cd.len(), |m: int| (compiled[m].owner_rank as int, cd[m] as int))
}

/// The projection of every node, as sets.
pub open spec fn proj_sets(projs: Seq<Vec<Entry>>) -> Seq<Set<EntryView>> {
    Seq::new(projs.len(), |k: int| entry_set(projs[k]@))
}

/// Visit every source in topological order: merge what the parents see,
/// compile the source's live declarations, redirect, add the source's own
/// artifacts and report divergence.
pub fn project_all(
    nodes: &Vec<crate::graph_composition::SourceNodeInput>,
    graph: &Vec<Vec<usize>>,
    order: &Vec<usize>,
    items: &Vec<CorpusItem>,
    acc: &Vec<GraphOverrideDeclaration>,
) -> (r: (Vec<Vec<Entry>>, Vec<CompiledOverride>, Vec<usize>, Vec<usize>, Vec<usize>, Vec<GraphCompositionFinding>))
    requires
        crate::graph_topology::graph_view_of(graph@) == crate::graph_topology::graph_of(nodes@),
        crate::graph_topology::graph_wf(crate::graph_topology::graph_of(nodes@)),
        order@.len() == nodes@.len(),
        forall|t: int| 0 <= t < order@.len() ==> order@[t] < nodes@.len(),
        decls_resolved(items@, acc@),
    ensures
        ({
            let st = run(nodes@, crate::graph_topology::graph_of(nodes@), idx_seq(order@), items@, acc@, nodes@.len());
            &&& proj_sets(r.0@) == st.0
            &&& r.0@.len() == nodes@.len()
            &&& compiled_pairs(r.1@, r.2@) == st.1
            &&& r.1@.len() == r.2@.len()
            &&& forall|m: int| 0 <= m < r.1@.len() ==> compiled_is(#[trigger] r.1@[m], st.1[m].0, acc@[st.1[m].1])
            &&& idx_seq(r.3@) == cd_targets(items@, acc@, st.1)
            &&& idx_seq(r.4@) == cd_reps(items@, acc@, st.1)
            &&& forall|x: FindingView| #[trigger] findings_view(r.5@).contains(x) <==> st.2.contains(x)
            &&& forall|k: int| 0 <= k < st.0.len() ==> set_bounded(#[trigger] st.0[k], items@.len() as int)
        }),
{
    let ghost g = crate::graph_topology::graph_of(nodes@);
    let ghost ord = idx_seq(order@);
    let n = nodes.len();
    let mut projs: Vec<Vec<Entry>> = Vec::new();
    let mut z: usize = 0;
    while z < n
        invariant
            z <= n,
            n == nodes@.len(),
            projs@.len() == z,
            forall|k: int| 0 <= k < z ==> projs@[k]@.len() == 0,
        decreases n - z,
    {
        projs.push(Vec::new());
        z += 1;
    }
    proof {
        assert(proj_sets(projs@) =~= run(nodes@, g, ord, items@, acc@, 0).0) by {
            assert forall|k: int| 0 <= k < n implies proj_sets(projs@)[k] =~= Set::<EntryView>::empty() by {
                assert(projs@[k]@.len() == 0);
            }
        }
    }
    let mut compiled: Vec<CompiledOverride> = Vec::new();
    let mut cd: Vec<usize> = Vec::new();
    let mut targets: Vec<usize> = Vec::new();
    let mut reps: Vec<usize> = Vec::new();
    let mut findings: Vec<GraphCompositionFinding> = Vec::new();
    let mut pos: usize = 0;
    while pos < n
        invariant
            pos <= n,
            n == nodes@.len(),
            g == crate::graph_topology::graph_of(nodes@),
            ord == idx_seq(order@),
            crate::graph_topology::graph_view_of(graph@) == g,
            crate::graph_topology::graph_wf(g),
            order@.len() == n,
            forall|t: int| 0 <= t < order@.len() ==> order@[t] < nodes@.len(),
            decls_resolved(items@, acc@),
            projs@.len() == n,
            ({
                let st = run(nodes@, g, ord, items@, acc@, pos as nat);
                &&& proj_sets(projs@) == st.0
                &&& compiled_pairs(compiled@, cd@) == st.1
                &&& compiled@.len() == cd@.len()
                &&& targets@.len() == cd@.len()
                &&& reps@.len() == cd@.len()
                &&& forall|m: int| 0 <= m < compiled@.len() ==> compiled_is(#[trigger] compiled@[m], st.1[m].0, acc@[st.1[m].1])
                &&& idx_seq(targets@) == cd_targets(items@, acc@, st.1)
                &&& idx_seq(reps@) == cd_reps(items@, acc@, st.1)
                &&& forall|x: FindingView| #[trigger] findings_view(findings@).contains(x) <==> st.2.contains(x)
                &&& forall|k: int| 0 <= k < st.0.len() ==> set_bounded(#[trigger] st.0[k], items@.len() as int)
            }),
        decreases n - pos,
    {
        let ghost st = run(nodes@, g, ord, items@, acc@, pos as nat);
        let k = order[pos];
        let ghost src = nodes@[k as int].source@;
        assert(crate::graph_topology::graph_view_of(graph@)[k as int] == g[k as int]);
        assert forall|j: int| 0 <= j < graph@[k as int]@.len() implies (#[trigger] graph@[k as int]@[j]) < projs@.len() by {
            assert(idx_seq(graph@[k as int]@)[j] == g[k as int][j]);
            assert(0 <= g[k as int][j] < g.len());
        }
        let m = merge_parents(&projs, &graph[k]);
        assert(idx_seq(graph@[k as int]@) == g[k as int]);
        let ghost l = live(entry_set(m@));
        let from = targets.len();
        let ghost f_before = findings_view(findings@);
        let ghost old_compiled = compiled@;
        let ghost old_cd = cd@;
        let ghost old_targets = targets@;
        let ghost old_reps = reps@;
        let srcs = nodes[k].source.as_str();
        assert(srcs@ == src);
        compile_owner(&m, items, acc, srcs, pos, &mut compiled, &mut cd, &mut targets, &mut reps, &mut findings);
        let ghost newm = owned_live(items@, acc@, src, l, acc@.len() as int);
        assert(idx_seq(cd@) == idx_seq(old_cd) + newm);
        assert(forall|kk: int| #![trigger newm[kk]] 0 <= kk < newm.len() ==> compiled_is(compiled@[old_compiled.len() + kk], pos as int, acc@[newm[kk]]));
        let ghost cd2 = st.1 + newm.map_values(|a: int| (pos as int, a));
        proof {
            assert(compiled_pairs(compiled@, cd@) =~= cd2) by {
                assert forall|q: int| 0 <= q < cd@.len() implies compiled_pairs(compiled@, cd@)[q] == cd2[q] by {
                    if q < old_cd.len() {
                        assert(compiled@[q] == old_compiled[q]);
                        assert(idx_seq(cd@)[q] == idx_seq(old_cd)[q]);
                        assert(compiled_pairs(old_compiled, old_cd)[q] == st.1[q]);
                    } else {
                        let kk = q - old_cd.len();
                        assert(idx_seq(cd@).len() == idx_seq(old_cd).len() + newm.len());
                        assert(kk < newm.len());
                        assert(idx_seq(cd@)[q] == newm[kk]);
                        assert(compiled_is(compiled@[old_compiled.len() + kk], pos as int, acc@[newm[kk]]));
                    }
                }
            }
            assert(idx_seq(targets@) =~= cd_targets(items@, acc@, cd2)) by {
                assert forall|q: int| 0 <= q < targets@.len() implies idx_seq(targets@)[q] == cd_targets(items@, acc@, cd2)[q] by {
                    if q < old_targets.len() {
                        assert(targets@[q] == old_targets[q]);
                        assert(idx_seq(old_targets)[q] == cd_targets(items@, acc@, st.1)[q]);
                    } else {
                        let kk = q - old_targets.len();
                        assert(targets@[old_targets.len() + kk] == tgt_of(items@, acc@, newm[kk]));
                    }
                }
            }
            assert(idx_seq(reps@) =~= cd_reps(items@, acc@, cd2)) by {
                assert forall|q: int| 0 <= q < reps@.len() implies idx_seq(reps@)[q] == cd_reps(items@, acc@, cd2)[q] by {
                    if q < old_reps.len() {
                        assert(reps@[q] == old_reps[q]);
                        assert(idx_seq(old_reps)[q] == cd_reps(items@, acc@, st.1)[q]);
                    } else {
                        let kk = q - old_reps.len();
                        assert(reps@[old_reps.len() + kk] == rep_of(items@, acc@, newm[kk]));
                    }
                }
            }
        }
        let mut proj = apply_mappings(&m, &targets, &reps, from);
        add_locals(&mut proj, items, nodes[k].source.as_str());
        let ghost pset = entry_set(proj@);
        proof {
            assert(pset == applied(cd_targets(items@, acc@, cd2), cd_reps(items@, acc@, cd2), st.1.len() as int, merged(st.0, g[k as int])).union(locals(items@, src)));
            assert forall|e: EntryView| pset.contains(e) implies 0 <= e.0 < items@.len() && 0 <= e.1 < items@.len() by {
                if locals(items@, src).contains(e) {
                } else {
                    let e0 = choose|e0: EntryView| merged(st.0, g[k as int]).contains(e0)
                        && e == #[trigger] moved(cd_targets(items@, acc@, cd2), cd_reps(items@, acc@, cd2), st.1.len() as int, e0);
                    let j = choose|j: int| 0 <= j < g[k as int].len() && #[trigger] st.0[g[k as int][j]].contains(e0);
                    assert(set_bounded(st.0[g[k as int][j]], items@.len() as int));
                    match redirect(cd_targets(items@, acc@, cd2), st.1.len() as int, e0.1, cd_targets(items@, acc@, cd2).len() as int) {
                        Some(mi) => {
                            lemma_redirect_range(cd_targets(items@, acc@, cd2), st.1.len() as int, e0.1, cd_targets(items@, acc@, cd2).len() as int);
                            let a = cd2[mi].1;
                            assert(cd_reps(items@, acc@, cd2)[mi] == rep_of(items@, acc@, a));
                            assert(0 <= a < acc@.len()) by {
                                if mi < st.1.len() {
                                    lemma_run_decls(nodes@, g, ord, items@, acc@, pos as nat);
                                } else {
                                    lemma_owned_live_range(items@, acc@, src, l, acc@.len() as int);
                                    assert(newm.map_values(|a: int| (pos as int, a))[mi - st.1.len()] == (pos as int, newm[mi - st.1.len()]));
                                }
                            }
                            assert(find_key(items@, acc@[a].replacement@) is Some);
                            lemma_key_pos_bound(items@, acc@[a].replacement@, items@.len() as int);
                        },
                        None => {},
                    }
                }
            }
        }
        let ghost f_mid = findings_view(findings@);
        divergence_findings(&proj, items, nodes[k].source.as_str(), &mut findings);
        let ghost pre_projs = projs@;
        projs.set(k, proj);
        proof {
            let st2 = run(nodes@, g, ord, items@, acc@, (pos + 1) as nat);
            assert(entry_set(m@) == merged(st.0, g[k as int]));
            assert(st2.1 == cd2);
            assert(st2.0 == st.0.update(k as int, pset));
            assert(proj_sets(projs@) =~= st2.0) by {
                assert forall|q: int| 0 <= q < n implies proj_sets(projs@)[q] == st2.0[q] by {
                    if q != k {
                        assert(projs@[q] == pre_projs[q]);
                        assert(proj_sets(pre_projs)[q] == st.0[q]);
                    }
                }
            }
            assert forall|x: FindingView| #[trigger] findings_view(findings@).contains(x) <==> st2.2.contains(x) by {
                assert(findings_view(findings@).contains(x) <==> (f_mid.contains(x) || divergences(items@, src, pset).contains(x)));
                assert(f_mid.contains(x) <==> (f_before.contains(x) || target_refusals(items@, acc@, src, l).contains(x)));
            }
            assert forall|q: int| 0 <= q < st2.0.len() implies set_bounded(#[trigger] st2.0[q], items@.len() as int) by {
                if q != k {
                    assert(st2.0[q] == st.0[q]);
                }
            }
            assert forall|q: int| 0 <= q < compiled@.len() implies compiled_is(#[trigger] compiled@[q], st2.1[q].0, acc@[st2.1[q].1]) by {
                if q < old_compiled.len() {
                    assert(compiled@[q] == old_compiled[q]);
                    assert(compiled_is(old_compiled[q], st.1[q].0, acc@[st.1[q].1]));
                } else {
                    let kk = q - old_compiled.len();
                    assert(compiled_is(compiled@[old_compiled.len() + kk], pos as int, acc@[newm[kk]]));
                }
            }
        }
        pos += 1;
    }
    (projs, compiled, cd, targets, reps, findings)
}

proof fn lemma_redirect_range(targets: Seq<int>, from: int, t: int, upto: int)
    ensures
        redirect(targets, from, t, upto) matches Some(m) ==> from <= m < upto,
    decreases upto - from,
{
    if upto > from {
        lemma_redirect_range(targets, from, t, upto - 1);
    }
}

proof fn lemma_owned_live_range(items: Seq<CorpusItem>, acc: Seq<GraphOverrideDeclaration>, src: Seq<char>, l: Set<int>, upto: int)
    ensures
        forall|k: int| 0 <= k < owned_live(items, acc, src, l, upto).len() ==> 0 <= #[trigger] owned_live(items, acc, src, l, upto)[k] < upto,
    decreases upto,
{
    if upto > 0 {
        lemma_owned_live_range(items, acc, src, l, upto - 1);
        let prev = owned_live(items, acc, src, l, upto - 1);
        assert forall|k: int| 0 <= k < owned_live(items, acc, src, l, upto).len() implies 0 <= #[trigger] owned_live(items, acc, src, l, upto)[k] < upto by {
            if k < prev.len() {
                assert(owned_live(items, acc, src, l, upto)[k] == prev[k]);
            }
        }
    }
}

/// Every compiled declaration names an accepted declaration.
proof fn lemma_run_decls(
    kept: Seq<crate::graph_composition::SourceNodeInput>,
    g: Seq<Seq<int>>,
    ord: Seq<int>,
    items: Seq<CorpusItem>,
    acc: Seq<GraphOverrideDeclaration>,
    p: nat,
)
    ensures
        forall|m: int| 0 <= m < run(kept, g, ord, items, acc, p).1.len() ==> 0 <= #[trigger] run(kept, g, ord, items, acc, p).1[m].1 < acc.len(),
    decreases p,
{
    if p > 0 {
        lemma_run_decls(kept, g, ord, items, acc, (p - 1) as nat);
        let prev = run(kept, g, ord, items, acc, (p - 1) as nat);
        let pos = p - 1;
        let k = ord[pos];
        let src = kept[k].source@;
        let l = live(merged(prev.0, g[k]));
        let newm = owned_live(items, acc, src, l, acc.len() as int);
        lemma_owned_live_range(items, acc, src, l, acc.len() as int);
        let cd = run(kept, g, ord, items, acc, p).1;
        assert forall|m: int| 0 <= m < cd.len() implies 0 <= #[trigger] cd[m].1 < acc.len() by {
            if m < prev.1.len() {
                assert(cd[m] == prev.1[m]);
            } else {
                assert(cd[m] == (pos as int, newm[m - prev.1.len()]));
            }
        }
    }
}

/// A found key names an item.
pub proof fn lemma_find_key_bound(items: Seq<CorpusItem>, k: (Seq<char>, Seq<char>))
    ensures
        find_key(items, k) matches Some(i) ==> 0 <= i < items.len(),
{
    lemma_key_pos_bound(items, k, items.len() as int);
}

/// Every compiled declaration after a full visit names an accepted declaration.
pub proof fn lemma_run_all_decls(
    kept: Seq<crate::graph_composition::SourceNodeInput>,
    g: Seq<Seq<int>>,
    ord: Seq<int>,
    items: Seq<CorpusItem>,
    acc: Seq<GraphOverrideDeclaration>,
)
    ensures
        forall|m: int| 0 <= m < run(kept, g, ord, items, acc, kept.len()).1.len() ==> 0 <= #[trigger] run(kept, g, ord, items, acc, kept.len()).1[m].1 < acc.len(),
{
    lemma_run_decls(kept, g, ord, items, acc, kept.len());
}

/// Whether terminal `t` is live in `m`.
pub fn is_live_pub(m: &Vec<Entry>, t: usize) -> (r: bool)
    ensures
        r == live(entry_set(m@)).contains(t as int),
{
    is_live(m, t)
}

/// The projection computed for the source at position `q`.
pub open spec fn proj_at(
    kept: Seq<crate::graph_composition::SourceNodeInput>,
    g: Seq<Seq<int>>,
    ord: Seq<int>,
    items: Seq<CorpusItem>,
    acc: Seq<GraphOverrideDeclaration>,
    q: nat,
) -> Set<EntryView> {
    run(kept, g, ord, items, acc, q + 1).0[ord[q as int]]
}

/// Once computed, a source's projection is final and its findings stay.
pub proof fn lemma_run_final(
    kept: Seq<crate::graph_composition::SourceNodeInput>,
    g: Seq<Seq<int>>,
    ord: Seq<int>,
    items: Seq<CorpusItem>,
    acc: Seq<GraphOverrideDeclaration>,
    p: nat,
)
    requires
        p <= ord.len(),
        forall|a: int, b: int| 0 <= a < b < ord.len() ==> ord[a] != ord[b],
        forall|t: int| 0 <= t < ord.len() ==> 0 <= #[trigger] ord[t] < kept.len(),
    ensures
        run(kept, g, ord, items, acc, p).0.len() == kept.len(),
        forall|q: nat| q < p ==> #[trigger] run(kept, g, ord, items, acc, p).0[ord[q as int]] == proj_at(kept, g, ord, items, acc, q),
        forall|q: nat, x: FindingView| q < p && #[trigger] run(kept, g, ord, items, acc, q + 1).2.contains(x)
            ==> run(kept, g, ord, items, acc, p).2.contains(x),
    decreases p,
{
    if p > 0 {
        lemma_run_final(kept, g, ord, items, acc, (p - 1) as nat);
        let prev = run(kept, g, ord, items, acc, (p - 1) as nat);
        let cur = run(kept, g, ord, items, acc, p);
        let k = ord[p - 1];
        assert forall|q: nat| q < p implies #[trigger] cur.0[ord[q as int]] == proj_at(kept, g, ord, items, acc, q) by {
            if q < p - 1 {
                assert(ord[q as int] != k);
                assert(cur.0[ord[q as int]] == prev.0[ord[q as int]]);
            }
        }
        assert forall|q: nat, x: FindingView| q < p && #[trigger] run(kept, g, ord, items, acc, q + 1).2.contains(x)
            implies cur.2.contains(x) by {
            if q < p - 1 {
                assert(prev.2.contains(x));
            }
        }
    }
}

/// The source visited at position `q` keeps its own artifacts, and its
/// divergences are reported.
pub proof fn lemma_run_step(
    kept: Seq<crate::graph_composition::SourceNodeInput>,
    g: Seq<Seq<int>>,
    ord: Seq<int>,
    items: Seq<CorpusItem>,
    acc: Seq<GraphOverrideDeclaration>,
    q: nat,
)
    requires
        q < ord.len(),
        forall|a: int, b: int| 0 <= a < b < ord.len() ==> ord[a] != ord[b],
        forall|t: int| 0 <= t < ord.len() ==> 0 <= #[trigger] ord[t] < kept.len(),
    ensures
        ({
            let st = run(kept, g, ord, items, acc, q + 1);
            let k = ord[q as int];
            let p = st.0[k];
            &&& locals(items, kept[k].source@).subset_of(p)
            &&& divergences(items, kept[k].source@, p).subset_of(st.2)
        }),
{
    let prev = run(kept, g, ord, items, acc, q);
    let st = run(kept, g, ord, items, acc, q + 1);
    let k = ord[q as int];
    let src = kept[k].source@;
    let m = merged(prev.0, g[k]);
    let l = live(m);
    let newm = owned_live(items, acc, src, l, acc.len() as int);
    let cd = st.1;
    let proj = applied(cd_targets(items, acc, cd), cd_reps(items, acc, cd), prev.1.len() as int, m).union(locals(items, src));
    assert(st.0 == prev.0.update(k, proj));
    assert(st.2 == prev.2.union(target_refusals(items, acc, src, l)).union(divergences(items, src, proj)));
    lemma_run_final(kept, g, ord, items, acc, q);
    assert(st.0[k] == proj);
    assert forall|e: EntryView| locals(items, src).contains(e) implies st.0[k].contains(e) by {}
    assert forall|x: FindingView| divergences(items, src, st.0[k]).contains(x) implies st.2.contains(x) by {}
}


} // verus!
