//! The logical source graph: unique sources, validated edges, reachability
//! from the root, a deterministic topological order and per-source
//! visibility.
use vstd::prelude::*;

use crate::composition::{valid_source_alias, valid_source_alias_spec};
use crate::order::{keyed_values, Keyed, SortKey};
use crate::graph_composition::{
    finding_view, findings_view, GraphCompositionFinding, GraphFindingReason, SourceNodeInput,
    SourceParentInput, FINDING_INVALID_GRAPH,
};
use crate::text::{lemma_seq_lt_irreflexive, lemma_seq_lt_total, lemma_seq_lt_transitive, owned, push_str, seq_lt, str_eq, str_lt, views, join, join_strings};

verus! {

/// The view of a finding.
pub type FindingView = (Seq<char>, GraphFindingReason, Option<Seq<char>>, Seq<(Seq<char>, Seq<char>)>, Seq<char>);

/// A graph finding owned by `owner`, naming no artifact.
pub open spec fn graph_view(reason: GraphFindingReason, owner: Seq<char>, message: Seq<char>) -> FindingView {
    (FINDING_INVALID_GRAPH@, reason, Some(owner), Seq::empty(), message)
}

fn graph_finding(reason: GraphFindingReason, owner: &str, message: String) -> (r: GraphCompositionFinding)
    ensures
        finding_view(r) == graph_view(reason, owner@, message@),
{
    let r = GraphCompositionFinding {
        code: FINDING_INVALID_GRAPH,
        reason,
        owner_source: Some(owned(owner)),
        artifacts: Vec::new(),
        message,
    };
    assert(crate::graph_composition::keys_view(r.artifacts@) =~= Seq::<(Seq<char>, Seq<char>)>::empty());
    r
}

fn text3(a: &str, b: &str, c: &str) -> (r: String)
    ensures
        r@ == a@ + b@ + c@,
{
    let mut r = owned(a);
    push_str(&mut r, b);
    push_str(&mut r, c);
    r
}

fn text5(a: &str, b: &str, c: &str, d: &str, e: &str) -> (r: String)
    ensures
        r@ == a@ + b@ + c@ + d@ + e@,
{
    let mut r = text3(a, b, c);
    push_str(&mut r, d);
    push_str(&mut r, e);
    r
}

// ---------------------------------------------------------------- sources

/// The first declaration of its source.
pub open spec fn first_decl(nodes: Seq<SourceNodeInput>, i: int) -> bool {
    forall|j: int| 0 <= j < i ==> nodes[j].source@ != nodes[i].source@
}

/// Some node declares source `s`.
pub open spec fn declares(nodes: Seq<SourceNodeInput>, s: Seq<char>) -> bool {
    exists|i: int| 0 <= i < nodes.len() && nodes[i].source@ == s
}

/// Source `s` is declared by two nodes.
pub open spec fn declared_twice(nodes: Seq<SourceNodeInput>, s: Seq<char>) -> bool {
    exists|i: int, j: int| 0 <= i < j < nodes.len() && nodes[i].source@ == s && nodes[j].source@ == s
}

/// Sources strictly ascending.
pub open spec fn sources_ascending(kept: Seq<SourceNodeInput>) -> bool {
    forall|a: int, b: int| 0 <= a < b < kept.len() ==> seq_lt(kept[a].source@, kept[b].source@)
}

/// `kept` holds the first declaration of every source, by source.
pub open spec fn unique_nodes(nodes: Seq<SourceNodeInput>, kept: Seq<SourceNodeInput>) -> bool {
    &&& sources_ascending(kept)
    &&& forall|k: int| 0 <= k < kept.len() ==> exists|i: int| 0 <= i < nodes.len() && first_decl(nodes, i) && #[trigger] kept[k] == nodes[i]
    &&& forall|i: int| 0 <= i < nodes.len() && #[trigger] first_decl(nodes, i) ==> kept.contains(nodes[i])
}

pub open spec fn dup_source_message(s: Seq<char>) -> Seq<char> {
    "logical source '"@ + s + "' is declared more than once"@
}

pub open spec fn dup_source_view(s: Seq<char>) -> FindingView {
    graph_view(GraphFindingReason::DuplicateSource, s, dup_source_message(s))
}

proof fn lemma_position(kept: Seq<SourceNodeInput>, p: int, s: Seq<char>, k: int)
    requires
        sources_ascending(kept),
        0 <= p <= kept.len(),
        forall|a: int| 0 <= a < p ==> seq_lt(kept[a].source@, s),
        p < kept.len() ==> !seq_lt(kept[p].source@, s),
        p < kept.len() ==> kept[p].source@ != s,
        0 <= k < kept.len(),
    ensures
        kept[k].source@ != s,
        k < p ==> seq_lt(kept[k].source@, s),
        k >= p ==> seq_lt(s, kept[k].source@),
{
    if k < p {
        lemma_seq_lt_irreflexive(s);
    } else {
        lemma_seq_lt_total(kept[p].source@, s);
        if k > p {
            lemma_seq_lt_transitive(s, kept[p].source@, kept[k].source@);
        }
        lemma_seq_lt_irreflexive(s);
    }
}

/// The first declaration of each source, ascending, and a finding for each
/// source declared more than once.
fn dedup_nodes(nodes: Vec<SourceNodeInput>) -> (r: (Vec<SourceNodeInput>, Vec<GraphCompositionFinding>))
    ensures
        unique_nodes(nodes@, r.0@),
        forall|s: Seq<char>| declares(r.0@, s) <==> declares(nodes@, s),
        forall|x: FindingView| findings_view(r.1@).contains(x) <==> exists|s: Seq<char>| declared_twice(nodes@, s) && x == dup_source_view(s),
{
    let ghost all = nodes@;
    let mut rest = nodes;
    let mut kept: Vec<SourceNodeInput> = Vec::new();
    let mut findings: Vec<GraphCompositionFinding> = Vec::new();
    let ghost mut idx: int = 0;
    while rest.len() > 0
        invariant
            0 <= idx <= all.len(),
            rest@ == all.skip(idx),
            unique_nodes(all.take(idx), kept@),
            forall|s: Seq<char>| (exists|k: int| 0 <= k < kept@.len() && kept@[k].source@ == s) <==> declares(all.take(idx), s),
            forall|x: FindingView| findings_view(findings@).contains(x) <==> exists|s: Seq<char>| declared_twice(all.take(idx), s) && x == dup_source_view(s),
        decreases rest@.len(),
    {
        let node = rest.remove(0);
        let ghost pre = all.take(idx);
        let ghost post = all.take(idx + 1);
        proof {
            assert(node == all[idx]);
            assert(post =~= pre.push(node));
            assert(all.skip(idx).drop_first() =~= all.skip(idx + 1));
        }
        let mut p: usize = 0;
        while p < kept.len() && str_lt(kept[p].source.as_str(), node.source.as_str())
            invariant
                p <= kept@.len(),
                forall|a: int| 0 <= a < p ==> seq_lt(kept@[a].source@, node.source@),
            decreases kept@.len() - p,
        {
            p += 1;
        }
        if p < kept.len() && str_eq(kept[p].source.as_str(), node.source.as_str()) {
            let ghost s = node.source@;
            let m = text3("logical source '", node.source.as_str(), "' is declared more than once");
            let f = graph_finding(GraphFindingReason::DuplicateSource, node.source.as_str(), m);
            let ghost before = findings@;
            findings.push(f);
            proof {
                assert(findings_view(findings@) =~= findings_view(before).push(dup_source_view(s)));
                assert(declares(pre, s));
                let j = choose|j: int| 0 <= j < pre.len() && pre[j].source@ == s;
                assert(declared_twice(post, s)) by {
                    assert(post[j].source@ == s && post[idx].source@ == s);
                }
                assert forall|x: FindingView| findings_view(findings@).contains(x) <==> exists|t: Seq<char>| declared_twice(post, t) && x == dup_source_view(t) by {
                    if findings_view(findings@).contains(x) {
                        let q = choose|q: int| 0 <= q < findings_view(findings@).len() && findings_view(findings@)[q] == x;
                        if q < before.len() {
                            assert(findings_view(before)[q] == x);
                            assert(findings_view(before).contains(x));
                            let t = choose|t: Seq<char>| declared_twice(pre, t) && x == dup_source_view(t);
                            let (a, b) = choose|a: int, b: int| 0 <= a < b < pre.len() && pre[a].source@ == t && pre[b].source@ == t;
                            assert(post[a] == pre[a] && post[b] == pre[b]);
                        }
                    }
                    if exists|t: Seq<char>| declared_twice(post, t) && x == dup_source_view(t) {
                        let t = choose|t: Seq<char>| declared_twice(post, t) && x == dup_source_view(t);
                        let (a, b) = choose|a: int, b: int| 0 <= a < b < post.len() && post[a].source@ == t && post[b].source@ == t;
                        if b < idx {
                            assert(pre[a] == post[a] && pre[b] == post[b]);
                            assert(declared_twice(pre, t));
                            assert(findings_view(before).contains(x));
                            let q = choose|q: int| 0 <= q < findings_view(before).len() && findings_view(before)[q] == x;
                            assert(findings_view(findings@)[q] == x);
                        } else {
                            assert(t == s);
                            assert(findings_view(findings@)[before.len() as int] == x);
                        }
                    }
                }
                assert forall|i: int| 0 <= i < post.len() && #[trigger] first_decl(post, i) implies kept@.contains(post[i]) by {
                    if i < idx {
                        assert forall|jj: int| 0 <= jj < i implies pre[jj].source@ != pre[i].source@ by {
                            assert(post[jj] == pre[jj]);
                        }
                        assert(first_decl(pre, i));
                    } else {
                        assert(post[j].source@ == post[i].source@);
                    }
                }
                assert forall|k: int| 0 <= k < kept@.len() implies exists|i: int| 0 <= i < post.len() && first_decl(post, i) && #[trigger] kept@[k] == post[i] by {
                    let i = choose|i: int| 0 <= i < pre.len() && first_decl(pre, i) && kept@[k] == pre[i];
                    assert(post[i] == pre[i]);
                    assert forall|jj: int| 0 <= jj < i implies post[jj].source@ != post[i].source@ by {
                        assert(post[jj] == pre[jj]);
                    }
                }
                assert forall|t: Seq<char>| (exists|k: int| 0 <= k < kept@.len() && kept@[k].source@ == t) <==> declares(post, t) by {
                    if declares(post, t) {
                        let i = choose|i: int| 0 <= i < post.len() && post[i].source@ == t;
                        if i < idx {
                            assert(pre[i] == post[i]);
                            assert(declares(pre, t));
                        } else {
                            assert(kept@[p as int].source@ == t);
                        }
                    }
                    if exists|k: int| 0 <= k < kept@.len() && kept@[k].source@ == t {
                        assert(declares(pre, t));
                        let i = choose|i: int| 0 <= i < pre.len() && pre[i].source@ == t;
                        assert(post[i] == pre[i]);
                    }
                }
            }
        } else {
            let ghost old_kept = kept@;
            proof {
                assert forall|k: int| 0 <= k < old_kept.len() implies old_kept[k].source@ != node.source@ by {
                    lemma_position(old_kept, p as int, node.source@, k);
                }
                assert(!declares(pre, node.source@));
                assert(first_decl(post, idx)) by {
                    assert forall|jj: int| 0 <= jj < idx implies post[jj].source@ != post[idx].source@ by {
                        assert(post[jj] == pre[jj]);
                        if post[jj].source@ == node.source@ {
                            assert(declares(pre, node.source@));
                        }
                    }
                }
            }
            kept.insert(p, node);
            proof {
                let pp = p as int;
                assert(kept@ == old_kept.insert(pp, node));
                assert forall|a: int, b: int| 0 <= a < b < kept@.len() implies seq_lt(kept@[a].source@, kept@[b].source@) by {
                    if a < pp && b == pp {
                        lemma_position(old_kept, pp, node.source@, a);
                    } else if a == pp {
                        lemma_position(old_kept, pp, node.source@, b - 1);
                    } else if a < pp && b > pp {
                        assert(kept@[b] == old_kept[b - 1]);
                    } else if a > pp {
                        assert(kept@[a] == old_kept[a - 1]);
                        assert(kept@[b] == old_kept[b - 1]);
                    }
                }
                assert forall|k: int| 0 <= k < kept@.len() implies exists|i: int| 0 <= i < post.len() && first_decl(post, i) && #[trigger] kept@[k] == post[i] by {
                    if k == pp {
                        assert(kept@[k] == post[idx]);
                    } else {
                        let kk = if k < pp { k } else { k - 1 };
                        assert(kept@[k] == old_kept[kk]);
                        let i = choose|i: int| 0 <= i < pre.len() && first_decl(pre, i) && old_kept[kk] == pre[i];
                        assert(post[i] == pre[i]);
                        assert forall|jj: int| 0 <= jj < i implies post[jj].source@ != post[i].source@ by {
                            assert(post[jj] == pre[jj]);
                        }
                    }
                }
                assert forall|i: int| 0 <= i < post.len() && #[trigger] first_decl(post, i) implies kept@.contains(post[i]) by {
                    if i < idx {
                        assert forall|jj: int| 0 <= jj < i implies pre[jj].source@ != pre[i].source@ by {
                            assert(post[jj] == pre[jj]);
                        }
                        assert(first_decl(pre, i));
                        assert(old_kept.contains(pre[i]));
                        let k = choose|k: int| 0 <= k < old_kept.len() && old_kept[k] == pre[i];
                        if k < pp {
                            assert(kept@[k] == post[i]);
                        } else {
                            assert(kept@[k + 1] == post[i]);
                        }
                    } else {
                        assert(kept@[pp] == post[i]);
                    }
                }
                assert forall|t: Seq<char>| (exists|k: int| 0 <= k < kept@.len() && kept@[k].source@ == t) <==> declares(post, t) by {
                    if declares(post, t) {
                        let i = choose|i: int| 0 <= i < post.len() && post[i].source@ == t;
                        if i < idx {
                            assert(pre[i] == post[i]);
                            assert(declares(pre, t));
                            let k = choose|k: int| 0 <= k < old_kept.len() && old_kept[k].source@ == t;
                            if k < pp {
                                assert(kept@[k].source@ == t);
                            } else {
                                assert(kept@[k + 1].source@ == t);
                            }
                        } else {
                            assert(kept@[pp].source@ == t);
                        }
                    }
                    if exists|k: int| 0 <= k < kept@.len() && kept@[k].source@ == t {
                        let k = choose|k: int| 0 <= k < kept@.len() && kept@[k].source@ == t;
                        if k == pp {
                            assert(post[idx].source@ == t);
                        } else {
                            let kk = if k < pp { k } else { k - 1 };
                            assert(old_kept[kk].source@ == t);
                            assert(declares(pre, t));
                            let i = choose|i: int| 0 <= i < pre.len() && pre[i].source@ == t;
                            assert(post[i] == pre[i]);
                        }
                    }
                }
                assert forall|x: FindingView| findings_view(findings@).contains(x) <==> exists|t: Seq<char>| declared_twice(post, t) && x == dup_source_view(t) by {
                    if exists|t: Seq<char>| declared_twice(post, t) && x == dup_source_view(t) {
                        let t = choose|t: Seq<char>| declared_twice(post, t) && x == dup_source_view(t);
                        let (a, b) = choose|a: int, b: int| 0 <= a < b < post.len() && post[a].source@ == t && post[b].source@ == t;
                        if b == idx {
                            assert(pre[a] == post[a]);
                            assert(declares(pre, node.source@));
                        }
                        assert(pre[a] == post[a] && pre[b] == post[b]);
                        assert(declared_twice(pre, t));
                    }
                    if findings_view(findings@).contains(x) {
                        let t = choose|t: Seq<char>| declared_twice(pre, t) && x == dup_source_view(t);
                        let (a, b) = choose|a: int, b: int| 0 <= a < b < pre.len() && pre[a].source@ == t && pre[b].source@ == t;
                        assert(post[a] == pre[a] && post[b] == pre[b]);
                    }
                }
            }
        }
        proof {
            idx = idx + 1;
        }
    }
    proof {
        assert(all.take(all.len() as int) =~= all);
        assert forall|t: Seq<char>| declares(kept@, t) <==> declares(all, t) by {
            if declares(kept@, t) {
                let k = choose|k: int| 0 <= k < kept@.len() && kept@[k].source@ == t;
            }
        }
    }
    (kept, findings)
}

// ------------------------------------------------------------------ edges

pub open spec fn parent_twice(ps: Seq<SourceParentInput>, s: Seq<char>) -> bool {
    exists|a: int, b: int| 0 <= a < b < ps.len() && ps[a].source@ == s && ps[b].source@ == s
}

pub open spec fn alias_twice(ps: Seq<SourceParentInput>, s: Seq<char>) -> bool {
    exists|a: int, b: int| 0 <= a < b < ps.len() && ps[a].alias@ == s && ps[b].alias@ == s
}

pub open spec fn invalid_alias_message(n: Seq<char>, a: Seq<char>) -> Seq<char> {
    "source '"@ + n + "' declares invalid edge alias '"@ + a + "'"@
}

pub open spec fn unknown_parent_message(n: Seq<char>, p: Seq<char>) -> Seq<char> {
    "source '"@ + n + "' declares unknown parent '"@ + p + "'"@
}

pub open spec fn dup_parent_message(n: Seq<char>, p: Seq<char>) -> Seq<char> {
    "source '"@ + n + "' declares parent '"@ + p + "' more than once"@
}

pub open spec fn dup_alias_message(n: Seq<char>, a: Seq<char>) -> Seq<char> {
    "source '"@ + n + "' declares alias '"@ + a + "' more than once"@
}

/// What edge `j` of `node` is refused for, with `universe` the declared
/// nodes.
pub open spec fn edge_refusal(node: SourceNodeInput, j: int, universe: Seq<SourceNodeInput>, x: FindingView) -> bool {
    let n = node.source@;
    let ps = node.direct_parents@;
    let q = ps[j];
    ||| !valid_source_alias_spec(q.alias@) && x == graph_view(GraphFindingReason::InvalidAlias, n, invalid_alias_message(n, q.alias@))
    ||| !declares(universe, q.source@) && x == graph_view(GraphFindingReason::UnknownParent, n, unknown_parent_message(n, q.source@))
    ||| parent_twice(ps, q.source@) && x == graph_view(GraphFindingReason::DuplicateParent, n, dup_parent_message(n, q.source@))
    ||| alias_twice(ps, q.alias@) && x == graph_view(GraphFindingReason::DuplicateAlias, n, dup_alias_message(n, q.alias@))
}

/// What edge `j` of node `k` is refused for.
pub open spec fn edge_finding_at(kept: Seq<SourceNodeInput>, k: int, j: int, x: FindingView) -> bool {
    edge_refusal(kept[k], j, kept, x)
}

/// Every refusal of an edge of the graph.
pub open spec fn edge_finding(kept: Seq<SourceNodeInput>, x: FindingView) -> bool {
    exists|k: int, j: int| 0 <= k < kept.len() && 0 <= j < kept[k].direct_parents@.len() && #[trigger] edge_finding_at(kept, k, j, x)
}

fn source_twice(ps: &Vec<SourceParentInput>, s: &str) -> (r: bool)
    ensures
        r == parent_twice(ps@, s@),
{
    let mut seen = false;
    let mut i: usize = 0;
    while i < ps.len()
        invariant
            i <= ps@.len(),
            seen <==> exists|a: int| 0 <= a < i && ps@[a].source@ == s@,
            forall|a: int, b: int| 0 <= a < b < i ==> !(ps@[a].source@ == s@ && ps@[b].source@ == s@),
        decreases ps@.len() - i,
    {
        if str_eq(ps[i].source.as_str(), s) {
            if seen {
                let ghost a = choose|a: int| 0 <= a < i && ps@[a].source@ == s@;
                assert(ps@[a].source@ == s@ && ps@[i as int].source@ == s@);
                return true;
            }
            seen = true;
        }
        i += 1;
    }
    false
}

fn alias_seen_twice(ps: &Vec<SourceParentInput>, s: &str) -> (r: bool)
    ensures
        r == alias_twice(ps@, s@),
{
    let mut seen = false;
    let mut i: usize = 0;
    while i < ps.len()
        invariant
            i <= ps@.len(),
            seen <==> exists|a: int| 0 <= a < i && ps@[a].alias@ == s@,
            forall|a: int, b: int| 0 <= a < b < i ==> !(ps@[a].alias@ == s@ && ps@[b].alias@ == s@),
        decreases ps@.len() - i,
    {
        if str_eq(ps[i].alias.as_str(), s) {
            if seen {
                let ghost a = choose|a: int| 0 <= a < i && ps@[a].alias@ == s@;
                assert(ps@[a].alias@ == s@ && ps@[i as int].alias@ == s@);
                return true;
            }
            seen = true;
        }
        i += 1;
    }
    false
}

/// Whether some kept node declares `s`.
pub(crate) fn has_source(kept: &Vec<SourceNodeInput>, s: &str) -> (r: Option<usize>)
    ensures
        match r {
            Some(i) => i < kept@.len() && kept@[i as int].source@ == s@,
            None => !declares(kept@, s@),
        },
{
    let mut i: usize = 0;
    while i < kept.len()
        invariant
            i <= kept@.len(),
            forall|a: int| 0 <= a < i ==> kept@[a].source@ != s@,
        decreases kept@.len() - i,
    {
        if str_eq(kept[i].source.as_str(), s) {
            return Some(i);
        }
        i += 1;
    }
    None
}

/// Append the refusals of edge `j` of node `k`.
fn edge_findings_at(kept: &Vec<SourceNodeInput>, k: usize, j: usize, out: &mut Vec<GraphCompositionFinding>)
    requires
        k < kept@.len(),
        j < kept@[k as int].direct_parents@.len(),
    ensures
        forall|x: FindingView| findings_view(final(out)@).contains(x) <==> (findings_view(old(out)@).contains(x) || edge_finding_at(kept@, k as int, j as int, x)),
{
    let node = &kept[k];
    let n = node.source.as_str();
    let q = &node.direct_parents[j];
    let ghost start = findings_view(out@);
    let ghost nv = n@;
    let ghost ps = node.direct_parents@;
    let c1 = !valid_source_alias(q.alias.as_str());
    if c1 {
        let m = text5("source '", n, "' declares invalid edge alias '", q.alias.as_str(), "'");
        let ghost before = out@;
        out.push(graph_finding(GraphFindingReason::InvalidAlias, n, m));
        assert(findings_view(out@) =~= findings_view(before).push(graph_view(GraphFindingReason::InvalidAlias, nv, invalid_alias_message(nv, q.alias@))));
    }
    let ghost s1 = findings_view(out@);
    let c2 = has_source(kept, q.source.as_str()).is_none();
    if c2 {
        let m = text5("source '", n, "' declares unknown parent '", q.source.as_str(), "'");
        let ghost before = out@;
        out.push(graph_finding(GraphFindingReason::UnknownParent, n, m));
        assert(findings_view(out@) =~= findings_view(before).push(graph_view(GraphFindingReason::UnknownParent, nv, unknown_parent_message(nv, q.source@))));
    }
    let ghost s2 = findings_view(out@);
    let c3 = source_twice(&node.direct_parents, q.source.as_str());
    if c3 {
        let m = text5("source '", n, "' declares parent '", q.source.as_str(), "' more than once");
        let ghost before = out@;
        out.push(graph_finding(GraphFindingReason::DuplicateParent, n, m));
        assert(findings_view(out@) =~= findings_view(before).push(graph_view(GraphFindingReason::DuplicateParent, nv, dup_parent_message(nv, q.source@))));
    }
    let ghost s3 = findings_view(out@);
    let c4 = alias_seen_twice(&node.direct_parents, q.alias.as_str());
    if c4 {
        let m = text5("source '", n, "' declares alias '", q.alias.as_str(), "' more than once");
        let ghost before = out@;
        out.push(graph_finding(GraphFindingReason::DuplicateAlias, n, m));
        assert(findings_view(out@) =~= findings_view(before).push(graph_view(GraphFindingReason::DuplicateAlias, nv, dup_alias_message(nv, q.alias@))));
    }
    proof {
        let v1 = graph_view(GraphFindingReason::InvalidAlias, nv, invalid_alias_message(nv, q.alias@));
        let v2 = graph_view(GraphFindingReason::UnknownParent, nv, unknown_parent_message(nv, q.source@));
        let v3 = graph_view(GraphFindingReason::DuplicateParent, nv, dup_parent_message(nv, q.source@));
        let v4 = graph_view(GraphFindingReason::DuplicateAlias, nv, dup_alias_message(nv, q.alias@));
        let fin = findings_view(out@);
        assert(s1 == if c1 { start.push(v1) } else { start });
        assert(s2 == if c2 { s1.push(v2) } else { s1 });
        assert(s3 == if c3 { s2.push(v3) } else { s2 });
        assert(fin == if c4 { s3.push(v4) } else { s3 });
        assert forall|x: FindingView| fin.contains(x) <==> (start.contains(x) || edge_finding_at(kept@, k as int, j as int, x)) by {
            if fin.contains(x) {
                let t = choose|t: int| 0 <= t < fin.len() && fin[t] == x;
                if t < s3.len() {
                    assert(s3[t] == x);
                    if t < s2.len() {
                        assert(s2[t] == x);
                        if t < s1.len() {
                            assert(s1[t] == x);
                            if t < start.len() {
                                assert(start[t] == x);
                            }
                        }
                    }
                }
            }
            if start.contains(x) {
                let t = choose|t: int| 0 <= t < start.len() && start[t] == x;
                assert(s1[t] == x);
                assert(s2[t] == x);
                assert(s3[t] == x);
                assert(fin[t] == x);
            }
            if edge_finding_at(kept@, k as int, j as int, x) {
                if c1 && x == v1 {
                    assert(s1[s1.len() - 1] == x);
                    assert(s2[s1.len() - 1] == x);
                    assert(s3[s1.len() - 1] == x);
                    assert(fin[s1.len() - 1] == x);
                } else if c2 && x == v2 {
                    assert(s2[s2.len() - 1] == x);
                    assert(s3[s2.len() - 1] == x);
                    assert(fin[s2.len() - 1] == x);
                } else if c3 && x == v3 {
                    assert(s3[s3.len() - 1] == x);
                    assert(fin[s3.len() - 1] == x);
                } else {
                    assert(fin[fin.len() - 1] == x);
                }
            }
        }
    }
}

/// The refusals among the first `k` nodes and the first `j` edges of node `k`.
pub open spec fn edge_finding_upto(kept: Seq<SourceNodeInput>, k: int, j: int, x: FindingView) -> bool {
    exists|a: int, b: int| 0 <= a <= k && a < kept.len() && 0 <= b < kept[a].direct_parents@.len()
        && (a < k || b < j) && #[trigger] edge_finding_at(kept, a, b, x)
}

/// Every refusal of an edge of the graph.
fn edge_findings(kept: &Vec<SourceNodeInput>) -> (r: Vec<GraphCompositionFinding>)
    ensures
        forall|x: FindingView| findings_view(r@).contains(x) <==> edge_finding(kept@, x),
{
    let mut out: Vec<GraphCompositionFinding> = Vec::new();
    let mut k: usize = 0;
    while k < kept.len()
        invariant
            k <= kept@.len(),
            forall|x: FindingView| findings_view(out@).contains(x) <==> edge_finding_upto(kept@, k as int, 0, x),
        decreases kept@.len() - k,
    {
        let mut j: usize = 0;
        while j < kept[k].direct_parents.len()
            invariant
                k < kept@.len(),
                j <= kept@[k as int].direct_parents@.len(),
                forall|x: FindingView| findings_view(out@).contains(x) <==> edge_finding_upto(kept@, k as int, j as int, x),
            decreases kept@[k as int].direct_parents@.len() - j,
        {
            let ghost before = findings_view(out@);
            edge_findings_at(kept, k, j, &mut out);
            proof {
                assert forall|x: FindingView| findings_view(out@).contains(x) <==> edge_finding_upto(kept@, k as int, j + 1, x) by {
                    if edge_finding_upto(kept@, k as int, j + 1, x) {
                        let (a, b) = choose|a: int, b: int| 0 <= a <= k && a < kept@.len() && 0 <= b < kept@[a].direct_parents@.len()
                            && (a < k || b < j + 1) && #[trigger] edge_finding_at(kept@, a, b, x);
                        if !(a == k && b == j) {
                            assert(edge_finding_upto(kept@, k as int, j as int, x));
                        }
                    }
                }
            }
            j += 1;
        }
        proof {
            assert forall|x: FindingView| findings_view(out@).contains(x) <==> edge_finding_upto(kept@, k + 1, 0, x) by {
                if edge_finding_upto(kept@, k + 1, 0, x) {
                    let (a, b) = choose|a: int, b: int| 0 <= a <= k + 1 && a < kept@.len() && 0 <= b < kept@[a].direct_parents@.len()
                        && (a < k + 1 || b < 0) && #[trigger] edge_finding_at(kept@, a, b, x);
                    assert(edge_finding_upto(kept@, k as int, j as int, x));
                }
                if edge_finding_upto(kept@, k as int, j as int, x) {
                    let (a, b) = choose|a: int, b: int| 0 <= a <= k && a < kept@.len() && 0 <= b < kept@[a].direct_parents@.len()
                        && (a < k || b < j) && #[trigger] edge_finding_at(kept@, a, b, x);
                    assert(a < k + 1);
                }
            }
        }
        k += 1;
    }
    proof {
        assert forall|x: FindingView| edge_finding(kept@, x) <==> edge_finding_upto(kept@, kept@.len() as int, 0, x) by {
            if edge_finding(kept@, x) {
                let (a, b) = choose|a: int, b: int| 0 <= a < kept@.len() && 0 <= b < kept@[a].direct_parents@.len() && #[trigger] edge_finding_at(kept@, a, b, x);
                assert(edge_finding_upto(kept@, kept@.len() as int, 0, x));
            }
        }
    }
    out
}

// ------------------------------------------------------------ the graph

/// The position of the node that declares `s`.
pub open spec fn src_index(kept: Seq<SourceNodeInput>, s: Seq<char>) -> int {
    choose|i: int| 0 <= i < kept.len() && kept[i].source@ == s
}

/// For each node, the positions of its direct parents.
pub open spec fn graph_of(kept: Seq<SourceNodeInput>) -> Seq<Seq<int>> {
    Seq::new(kept.len(), |k: int| Seq::new(kept[k].direct_parents@.len(), |j: int| src_index(kept, kept[k].direct_parents@[j].source@)))
}

/// A well-formed adjacency: every parent position names a node.
pub open spec fn graph_wf(g: Seq<Seq<int>>) -> bool {
    forall|k: int, j: int| 0 <= k < g.len() && 0 <= j < g[k].len() ==> 0 <= #[trigger] g[k][j] < g.len()
}

/// Every edge names a declared node.
pub open spec fn edges_known(kept: Seq<SourceNodeInput>) -> bool {
    forall|k: int, j: int| 0 <= k < kept.len() && 0 <= j < kept[k].direct_parents@.len()
        ==> declares(kept, #[trigger] kept[k].direct_parents@[j].source@)
}

proof fn lemma_src_index(kept: Seq<SourceNodeInput>, i: int)
    requires
        sources_ascending(kept),
        0 <= i < kept.len(),
    ensures
        src_index(kept, kept[i].source@) == i,
{
    let s = kept[i].source@;
    assert(0 <= i < kept.len() && kept[i].source@ == s);
    let c = src_index(kept, s);
    if c != i {
        lemma_seq_lt_irreflexive(s);
    }
}

pub open spec fn idx_seq(v: Seq<usize>) -> Seq<int> {
    Seq::new(v.len(), |i: int| v[i] as int)
}

pub open spec fn graph_view_of(p: Seq<Vec<usize>>) -> Seq<Seq<int>> {
    Seq::new(p.len(), |k: int| idx_seq(p[k]@))
}

/// The parent positions of every node.
fn parent_positions(kept: &Vec<SourceNodeInput>) -> (r: Vec<Vec<usize>>)
    requires
        sources_ascending(kept@),
        edges_known(kept@),
    ensures
        graph_view_of(r@) == graph_of(kept@),
        graph_wf(graph_of(kept@)),
{
    let mut r: Vec<Vec<usize>> = Vec::new();
    let mut k: usize = 0;
    while k < kept.len()
        invariant
            k <= kept@.len(),
            sources_ascending(kept@),
            edges_known(kept@),
            graph_view_of(r@) == graph_of(kept@).take(k as int),
            r@.len() == k,
            graph_of(kept@).len() == kept@.len(),
        decreases kept@.len() - k,
    {
        let ps = &kept[k].direct_parents;
        let mut row: Vec<usize> = Vec::new();
        let mut j: usize = 0;
        while j < ps.len()
            invariant
                k < kept@.len(),
                ps == kept@[k as int].direct_parents,
                j <= ps@.len(),
                sources_ascending(kept@),
                edges_known(kept@),
                idx_seq(row@) == graph_of(kept@)[k as int].take(j as int),
                row@.len() == j,
                graph_of(kept@)[k as int].len() == ps@.len(),
            decreases ps@.len() - j,
        {
            assert(declares(kept@, kept@[k as int].direct_parents@[j as int].source@));
            match has_source(kept, ps[j].source.as_str()) {
                Some(i) => {
                    proof {
                        lemma_src_index(kept@, i as int);
                    }
                    let ghost before = row@;
                    row.push(i);
                    proof {
                        assert(graph_of(kept@)[k as int][j as int] == src_index(kept@, kept@[k as int].direct_parents@[j as int].source@));
                        assert(graph_of(kept@)[k as int][j as int] == i as int);
                        assert(idx_seq(before) == graph_of(kept@)[k as int].take(j as int));
                        assert forall|t: int| 0 <= t < j + 1 implies idx_seq(row@)[t] == graph_of(kept@)[k as int].take(j + 1)[t] by {
                            if t < j {
                                assert(idx_seq(row@)[t] == idx_seq(before)[t]);
                            }
                        }
                    }
                    assert(idx_seq(row@) =~= graph_of(kept@)[k as int].take(j + 1));
                },
                None => {
                    assert(false);
                },
            }
            j += 1;
        }
        assert(graph_of(kept@)[k as int].take(j as int) =~= graph_of(kept@)[k as int]);
        let ghost before_r = r@;
        r.push(row);
        proof {
            assert(graph_view_of(r@)[k as int] == idx_seq(row@));
            assert forall|t: int| 0 <= t < k + 1 implies graph_view_of(r@)[t] == graph_of(kept@).take(k + 1)[t] by {
                if t < k {
                    assert(graph_view_of(r@)[t] == graph_view_of(before_r)[t]);
                }
            }
        }
        assert(graph_view_of(r@) =~= graph_of(kept@).take(k + 1));
        k += 1;
    }
    assert(graph_of(kept@).take(kept@.len() as int) =~= graph_of(kept@));
    proof {
        assert forall|k: int, j: int| 0 <= k < graph_of(kept@).len() && 0 <= j < graph_of(kept@)[k].len() implies 0 <= #[trigger] graph_of(kept@)[k][j] < graph_of(kept@).len() by {
            assert(declares(kept@, kept@[k].direct_parents@[j].source@));
        }
    }
    r
}

/// One round of following parent edges.
pub open spec fn step_reach(g: Seq<Seq<int>>, r: Set<int>) -> Set<int> {
    r.union(Set::new(|q: int| exists|p: int, j: int| r.contains(p) && 0 <= p < g.len() && 0 <= j < g[p].len() && #[trigger] g[p][j] == q))
}

/// The nodes reachable from `start` in at most `k` parent steps.
pub open spec fn reach(g: Seq<Seq<int>>, start: int, k: nat) -> Set<int>
    decreases k,
{
    if k == 0 {
        set![start]
    } else {
        step_reach(g, reach(g, start, (k - 1) as nat))
    }
}

/// The nodes reachable from `start` by parent edges. A simple path visits
/// each node once, so `g.len()` steps reach them all.
pub open spec fn reachable(g: Seq<Seq<int>>, start: int) -> Set<int> {
    reach(g, start, g.len())
}

fn reach_round(g: &Vec<Vec<usize>>, marks: &Vec<bool>) -> (r: Vec<bool>)
    requires
        marks@.len() == g@.len(),
        graph_wf(graph_view_of(g@)),
    ensures
        r@.len() == g@.len(),
        forall|q: int| 0 <= q < g@.len() ==> (r@[q] <==> step_reach(graph_view_of(g@), Set::new(|p: int| 0 <= p < marks@.len() && marks@[p])).contains(q)),
{
    let ghost gv = graph_view_of(g@);
    let ghost m = Set::new(|p: int| 0 <= p < marks@.len() && marks@[p]);
    let mut r: Vec<bool> = Vec::new();
    let mut i: usize = 0;
    while i < marks.len()
        invariant
            i <= marks@.len(),
            r@ == marks@.take(i as int),
        decreases marks@.len() - i,
    {
        r.push(marks[i]);
        assert(r@ =~= marks@.take(i + 1));
        i += 1;
    }
    assert(marks@.take(marks@.len() as int) =~= marks@);
    let mut p: usize = 0;
    while p < g.len()
        invariant
            marks@.len() == g@.len(),
            r@.len() == g@.len(),
            gv == graph_view_of(g@),
            graph_wf(gv),
            m == Set::new(|p: int| 0 <= p < marks@.len() && marks@[p]),
            p <= g@.len(),
            forall|q: int| 0 <= q < g@.len() ==> (r@[q] <==> (marks@[q] || exists|a: int, j: int| 0 <= a < p && m.contains(a) && 0 <= j < gv[a].len() && #[trigger] gv[a][j] == q)),
        decreases g@.len() - p,
    {
        if marks[p] {
            let row = &g[p];
            let mut j: usize = 0;
            while j < row.len()
                invariant
                    marks@.len() == g@.len(),
                    r@.len() == g@.len(),
                    gv == graph_view_of(g@),
                    graph_wf(gv),
                    m == Set::new(|p: int| 0 <= p < marks@.len() && marks@[p]),
                    p < g@.len(),
                    marks@[p as int],
                    row == g@[p as int],
                    j <= row@.len(),
                    forall|q: int| 0 <= q < g@.len() ==> (r@[q] <==> (marks@[q]
                        || (exists|a: int, jj: int| 0 <= a < p && m.contains(a) && 0 <= jj < gv[a].len() && #[trigger] gv[a][jj] == q)
                        || (exists|jj: int| 0 <= jj < j && #[trigger] gv[p as int][jj] == q))),
                decreases row@.len() - j,
            {
                let t = row[j];
                assert(gv[p as int][j as int] == t as int);
                assert(0 <= gv[p as int][j as int] < gv.len());
                r.set(t, true);
                j += 1;
            }
            proof {
                assert forall|q: int| 0 <= q < g@.len() implies (r@[q] <==> (marks@[q] || exists|a: int, jj: int| 0 <= a < p + 1 && m.contains(a) && 0 <= jj < gv[a].len() && #[trigger] gv[a][jj] == q)) by {
                    if exists|jj: int| 0 <= jj < j && #[trigger] gv[p as int][jj] == q {
                        let jj = choose|jj: int| 0 <= jj < j && #[trigger] gv[p as int][jj] == q;
                        assert(m.contains(p as int));
                    }
                    if exists|a: int, jj: int| 0 <= a < p + 1 && m.contains(a) && 0 <= jj < gv[a].len() && #[trigger] gv[a][jj] == q {
                        let (a, jj) = choose|a: int, jj: int| 0 <= a < p + 1 && m.contains(a) && 0 <= jj < gv[a].len() && #[trigger] gv[a][jj] == q;
                        if a == p {
                            assert(gv[p as int].len() == row@.len());
                        }
                    }
                }
            }
        } else {
            proof {
                assert forall|q: int| 0 <= q < g@.len() implies (r@[q] <==> (marks@[q] || exists|a: int, jj: int| 0 <= a < p + 1 && m.contains(a) && 0 <= jj < gv[a].len() && #[trigger] gv[a][jj] == q)) by {
                    if exists|a: int, jj: int| 0 <= a < p + 1 && m.contains(a) && 0 <= jj < gv[a].len() && #[trigger] gv[a][jj] == q {
                        let (a, jj) = choose|a: int, jj: int| 0 <= a < p + 1 && m.contains(a) && 0 <= jj < gv[a].len() && #[trigger] gv[a][jj] == q;
                        assert(a != p);
                    }
                }
            }
        }
        p += 1;
    }
    proof {
        assert forall|q: int| 0 <= q < g@.len() implies (r@[q] <==> step_reach(gv, m).contains(q)) by {
            if step_reach(gv, m).contains(q) && !m.contains(q) {
                let (a, jj) = choose|a: int, jj: int| m.contains(a) && 0 <= a < gv.len() && 0 <= jj < gv[a].len() && #[trigger] gv[a][jj] == q;
            }
        }
    }
    r
}

/// The nodes reachable from `start`, as marks by position.
fn reachable_marks(g: &Vec<Vec<usize>>, start: usize) -> (r: Vec<bool>)
    requires
        start < g@.len(),
        graph_wf(graph_view_of(g@)),
    ensures
        r@.len() == g@.len(),
        forall|q: int| 0 <= q < g@.len() ==> (r@[q] <==> reachable(graph_view_of(g@), start as int).contains(q)),
{
    let n = g.len();
    let mut marks: Vec<bool> = Vec::new();
    let mut i: usize = 0;
    while i < n
        invariant
            n == g@.len(),
            i <= n,
            start < n,
            marks@.len() == i,
            forall|q: int| 0 <= q < i ==> (marks@[q] <==> q == start),
        decreases n - i,
    {
        marks.push(i == start);
        i += 1;
    }
    let mut k: usize = 0;
    while k < n
        invariant
            n == g@.len(),
            k <= n,
            marks@.len() == n,
            graph_wf(graph_view_of(g@)),
            forall|q: int| 0 <= q < n ==> (marks@[q] <==> reach(graph_view_of(g@), start as int, k as nat).contains(q)),
            forall|q: int| reach(graph_view_of(g@), start as int, k as nat).contains(q) ==> 0 <= q < n,
        decreases n - k,
    {
        let ghost m = Set::new(|p: int| 0 <= p < marks@.len() && marks@[p]);
        let ghost prev = reach(graph_view_of(g@), start as int, k as nat);
        assert(m =~= prev);
        marks = reach_round(g, &marks);
        proof {
            let gv = graph_view_of(g@);
            assert forall|q: int| step_reach(gv, prev).contains(q) implies 0 <= q < n by {
                if !prev.contains(q) {
                    let (a, jj) = choose|a: int, jj: int| prev.contains(a) && 0 <= a < gv.len() && 0 <= jj < gv[a].len() && #[trigger] gv[a][jj] == q;
                }
            }
        }
        k += 1;
    }
    marks
}

// ------------------------------------------------------- topological order

/// Node `i` is not yet placed and all its parents are.
pub open spec fn is_ready(g: Seq<Seq<int>>, placed: Seq<int>, i: int) -> bool {
    &&& !placed.contains(i)
    &&& forall|j: int| 0 <= j < g[i].len() ==> placed.contains(#[trigger] g[i][j])
}

/// The first ready node at or after `from`.
pub open spec fn first_ready(g: Seq<Seq<int>>, placed: Seq<int>, from: int) -> Option<int>
    decreases g.len() - from,
{
    if from < 0 || from >= g.len() {
        None
    } else if is_ready(g, placed, from) {
        Some(from)
    } else {
        first_ready(g, placed, from + 1)
    }
}

/// After `k` steps: each step places the first (smallest) node whose
/// parents are all placed.
pub open spec fn greedy(g: Seq<Seq<int>>, k: nat) -> Seq<int>
    decreases k,
{
    if k == 0 {
        Seq::empty()
    } else {
        let prev = greedy(g, (k - 1) as nat);
        match first_ready(g, prev, 0) {
            Some(i) => prev.push(i),
            None => prev,
        }
    }
}

/// The deterministic topological order: parents first, ties by source.
pub open spec fn topo_order(g: Seq<Seq<int>>) -> Seq<int> {
    greedy(g, g.len())
}

proof fn lemma_first_ready_sound(g: Seq<Seq<int>>, placed: Seq<int>, from: int)
    requires
        from >= 0,
    ensures
        first_ready(g, placed, from) matches Some(i) ==> 0 <= i < g.len() && is_ready(g, placed, i) && from <= i,
        first_ready(g, placed, from) is None ==> forall|i: int| from <= i < g.len() ==> !is_ready(g, placed, i),
    decreases g.len() - from,
{
    if 0 <= from < g.len() && !is_ready(g, placed, from) {
        lemma_first_ready_sound(g, placed, from + 1);
        assert forall|i: int| from <= i < g.len() && first_ready(g, placed, from) is None implies !is_ready(g, placed, i) by {
            if i > from {
            }
        }
    }
}

proof fn lemma_first_ready_skip(g: Seq<Seq<int>>, placed: Seq<int>, i: int)
    requires
        0 <= i <= g.len(),
        forall|a: int| 0 <= a < i ==> !is_ready(g, placed, a),
    ensures
        first_ready(g, placed, 0) == first_ready(g, placed, i),
    decreases i,
{
    if i > 0 {
        lemma_first_ready_skip(g, placed, i - 1);
    }
}

/// The order places distinct nodes, each after all its parents.
pub open spec fn parents_first(g: Seq<Seq<int>>, order: Seq<int>) -> bool {
    &&& forall|a: int, b: int| 0 <= a < b < order.len() ==> order[a] != order[b]
    &&& forall|t: int| 0 <= t < order.len() ==> 0 <= #[trigger] order[t] < g.len()
    &&& forall|t: int, j: int| 0 <= t < order.len() && 0 <= j < g[order[t]].len()
        ==> #[trigger] placed_before(order, t, g[order[t]][j])
}

/// `x` occurs among the first `t` entries of `order`.
pub open spec fn placed_before(order: Seq<int>, t: int, x: int) -> bool {
    exists|u: int| 0 <= u < t && order[u] == x
}

proof fn lemma_greedy_parents_first(g: Seq<Seq<int>>, k: nat)
    ensures
        parents_first(g, greedy(g, k)),
    decreases k,
{
    if k == 0 {
        assert(greedy(g, k) =~= Seq::<int>::empty());
    } else {
        let prev = greedy(g, (k - 1) as nat);
        lemma_greedy_parents_first(g, (k - 1) as nat);
        lemma_first_ready_sound(g, prev, 0);
        match first_ready(g, prev, 0) {
            Some(i) => {
                let cur = prev.push(i);
                assert(greedy(g, k) == cur);
                assert(is_ready(g, prev, i));
                assert forall|a: int, b: int| 0 <= a < b < cur.len() implies cur[a] != cur[b] by {
                    if b == prev.len() {
                        assert(cur[a] == prev[a]);
                        assert(prev.contains(prev[a]));
                    } else {
                        assert(cur[a] == prev[a] && cur[b] == prev[b]);
                    }
                }
                assert forall|t: int| 0 <= t < cur.len() implies 0 <= #[trigger] cur[t] < g.len() by {
                    if t < prev.len() {
                        assert(cur[t] == prev[t]);
                    }
                }
                assert forall|t: int, j: int| 0 <= t < cur.len() && 0 <= j < g[cur[t]].len() implies #[trigger] placed_before(cur, t, g[cur[t]][j]) by {
                    if t < prev.len() {
                        assert(cur[t] == prev[t]);
                        assert(g[prev[t]][j] == g[cur[t]][j]);
                        assert(placed_before(prev, t, g[prev[t]][j]));
                        let u = choose|u: int| 0 <= u < t && prev[u] == g[prev[t]][j];
                        assert(cur[u] == prev[u]);
                    } else {
                        assert(cur[t] == i);
                        assert(prev.contains(g[i][j]));
                        let u = choose|u: int| 0 <= u < prev.len() && prev[u] == g[i][j];
                        assert(cur[u] == prev[u]);
                    }
                }
                assert(parents_first(g, cur));
            },
            None => {
                assert(greedy(g, k) == prev);
            },
        }
    }
}

/// The topological order, as positions, and which positions it placed.
fn topo_order_exec(g: &Vec<Vec<usize>>) -> (r: (Vec<usize>, Vec<bool>))
    ensures
        idx_seq(r.0@) == topo_order(graph_view_of(g@)),
        r.1@.len() == g@.len(),
        forall|q: int| 0 <= q < g@.len() ==> (r.1@[q] <==> topo_order(graph_view_of(g@)).contains(q)),
{
    let ghost gv = graph_view_of(g@);
    let n = g.len();
    let mut placed: Vec<bool> = Vec::new();
    let mut i: usize = 0;
    while i < n
        invariant
            n == g@.len(),
            i <= n,
            placed@.len() == i,
            forall|q: int| 0 <= q < i ==> !placed@[q],
        decreases n - i,
    {
        placed.push(false);
        i += 1;
    }
    let mut order: Vec<usize> = Vec::new();
    let mut step: usize = 0;
    while step < n
        invariant
            n == g@.len(),
            gv == graph_view_of(g@),
            step <= n,
            placed@.len() == n,
            idx_seq(order@) == greedy(gv, step as nat),
            forall|q: int| 0 <= q < n ==> (placed@[q] <==> greedy(gv, step as nat).contains(q)),
        decreases n - step,
    {
        let ghost prev = greedy(gv, step as nat);
        let mut c: usize = 0;
        let mut found = false;
        while c < n && !found
            invariant
                n == g@.len(),
                gv == graph_view_of(g@),
                placed@.len() == n,
                c <= n,
                forall|q: int| 0 <= q < n ==> (placed@[q] <==> prev.contains(q)),
                forall|a: int| 0 <= a < c ==> !is_ready(gv, prev, a),
                found ==> c < n && is_ready(gv, prev, c as int),
                prev == greedy(gv, step as nat),
            decreases n - c + (if found { 0int } else { 1int }),
        {
            if !placed[c] {
                let row = &g[c];
                let mut j: usize = 0;
                let mut all = true;
                while j < row.len() && all
                    invariant
                        row == g@[c as int],
                        c < n,
                        n == g@.len(),
                        gv == graph_view_of(g@),
                        placed@.len() == n,
                        forall|q: int| 0 <= q < n ==> (placed@[q] <==> prev.contains(q)),
                        j <= row@.len(),
                        all ==> forall|t: int| 0 <= t < j ==> prev.contains(#[trigger] gv[c as int][t]),
                        prev == greedy(gv, step as nat),
                        !all ==> !is_ready(gv, prev, c as int),
                    decreases row@.len() - j + (if all { 1int } else { 0int }),
                {
                    let t = row[j];
                    assert(gv[c as int][j as int] == t as int);
                    if t >= n || !placed[t] {
                        proof {
                            if t < n {
                                assert(!prev.contains(t as int));
                            } else {
                                lemma_greedy_parents_first(gv, step as nat);
                                if prev.contains(t as int) {
                                    let u = choose|u: int| 0 <= u < prev.len() && prev[u] == t as int;
                                    assert(0 <= prev[u] < gv.len());
                                    assert(gv.len() == n);
                                }
                            }
                        }
                        all = false;
                    } else {
                        j += 1;
                    }
                }
                if all {
                    assert(gv[c as int].len() == row@.len());
                    found = true;
                } else {
                    c += 1;
                }
            } else {
                assert(prev.contains(c as int));
                c += 1;
            }
        }
        proof {
            lemma_first_ready_skip(gv, prev, c as int);
        }
        if found {
            let ghost before = order@;
            order.push(c);
            placed.set(c, true);
            proof {
                assert(first_ready(gv, prev, c as int) == Some(c as int));
                assert(greedy(gv, (step + 1) as nat) == prev.push(c as int));
                assert(idx_seq(order@) =~= prev.push(c as int));
                assert forall|q: int| 0 <= q < n implies (placed@[q] <==> prev.push(c as int).contains(q)) by {
                    if q != c && prev.push(c as int).contains(q) {
                        let u = choose|u: int| 0 <= u < prev.len() + 1 && prev.push(c as int)[u] == q;
                        assert(prev[u] == q);
                    }
                    if prev.contains(q) {
                        let u = choose|u: int| 0 <= u < prev.len() && prev[u] == q;
                        assert(prev.push(c as int)[u] == q);
                    }
                    if q == c {
                        assert(prev.push(c as int)[prev.len() as int] == q);
                    }
                }
            }
        } else {
            proof {
                lemma_first_ready_sound(gv, prev, c as int);
                assert(first_ready(gv, prev, c as int) is None);
                assert(greedy(gv, (step + 1) as nat) == prev);
            }
        }
        step += 1;
    }
    (order, placed)
}

// ------------------------------------------------------------- uniqueness

/// The unique, ascending first declarations of `nodes`.
pub open spec fn unique_of(nodes: Seq<SourceNodeInput>) -> Seq<SourceNodeInput> {
    choose|kept: Seq<SourceNodeInput>| unique_nodes(nodes, kept)
}

proof fn lemma_same_elements_ascending(a: Seq<SourceNodeInput>, b: Seq<SourceNodeInput>)
    requires
        sources_ascending(a),
        sources_ascending(b),
        forall|x: SourceNodeInput| a.contains(x) <==> b.contains(x),
    ensures
        a == b,
    decreases a.len(),
{
    if a.len() == 0 {
        if b.len() > 0 {
            assert(b.contains(b[0]));
        }
        assert(a =~= b);
    } else {
        assert(a.contains(a[0]));
        assert(b.contains(a[0]));
        assert(b.len() > 0);
        assert(b.contains(b[0]));
        assert(a.contains(b[0]));
        let m = choose|m: int| 0 <= m < b.len() && b[m] == a[0];
        let l = choose|l: int| 0 <= l < a.len() && a[l] == b[0];
        if m > 0 {
            // b[0] < b[m] = a[0] and a[0] <= a[l] = b[0]
            if l > 0 {
                lemma_seq_lt_transitive(b[0].source@, a[0].source@, b[0].source@);
            }
            lemma_seq_lt_irreflexive(b[0].source@);
        }
        assert(a[0] == b[0]);
        let a1 = a.drop_first();
        let b1 = b.drop_first();
        assert forall|x: SourceNodeInput| a1.contains(x) <==> b1.contains(x) by {
            if a1.contains(x) {
                let i = choose|i: int| 0 <= i < a1.len() && a1[i] == x;
                assert(a[i + 1] == x);
                lemma_seq_lt_irreflexive(x.source@);
                assert(x != a[0]);
                assert(b.contains(x));
                let j = choose|j: int| 0 <= j < b.len() && b[j] == x;
                assert(j != 0);
                assert(b1[j - 1] == x);
            }
            if b1.contains(x) {
                let i = choose|i: int| 0 <= i < b1.len() && b1[i] == x;
                assert(b[i + 1] == x);
                lemma_seq_lt_irreflexive(x.source@);
                assert(x != b[0]);
                assert(a.contains(x));
                let j = choose|j: int| 0 <= j < a.len() && a[j] == x;
                assert(j != 0);
                assert(a1[j - 1] == x);
            }
        }
        lemma_same_elements_ascending(a1, b1);
        assert(a =~= seq![a[0]] + a1);
        assert(b =~= seq![b[0]] + b1);
    }
}

/// The first declarations are determined by the input.
proof fn lemma_unique_of(nodes: Seq<SourceNodeInput>, kept: Seq<SourceNodeInput>)
    requires
        unique_nodes(nodes, kept),
    ensures
        unique_of(nodes) == kept,
{
    let other = unique_of(nodes);
    assert(unique_nodes(nodes, other));
    assert forall|x: SourceNodeInput| kept.contains(x) <==> other.contains(x) by {
        if kept.contains(x) {
            let k = choose|k: int| 0 <= k < kept.len() && kept[k] == x;
            let i = choose|i: int| 0 <= i < nodes.len() && first_decl(nodes, i) && #[trigger] kept[k] == nodes[i];
            assert(other.contains(nodes[i]));
        }
        if other.contains(x) {
            let k = choose|k: int| 0 <= k < other.len() && other[k] == x;
            let i = choose|i: int| 0 <= i < nodes.len() && first_decl(nodes, i) && #[trigger] other[k] == nodes[i];
            assert(kept.contains(nodes[i]));
        }
    }
    lemma_same_elements_ascending(kept, other);
}

// ----------------------------------------------------------- preparation

/// The sources at the positions in `s`, ascending.
pub open spec fn sources_in(kept: Seq<SourceNodeInput>, s: Set<int>, upto: int) -> Seq<Seq<char>>
    decreases upto,
{
    if upto <= 0 {
        Seq::empty()
    } else {
        let prev = sources_in(kept, s, upto - 1);
        if s.contains(upto - 1) { prev.push(kept[upto - 1].source@) } else { prev }
    }
}

pub proof fn lemma_sources_in(kept: Seq<SourceNodeInput>, s: Set<int>, upto: int, x: Seq<char>)
    requires
        0 <= upto <= kept.len(),
    ensures
        sources_in(kept, s, upto).contains(x) <==> exists|i: int| 0 <= i < upto && s.contains(i) && kept[i].source@ == x,
    decreases upto,
{
    if upto > 0 {
        lemma_sources_in(kept, s, upto - 1, x);
        let prev = sources_in(kept, s, upto - 1);
        if s.contains(upto - 1) {
            let cur = prev.push(kept[upto - 1].source@);
            if cur.contains(x) {
                let t = choose|t: int| 0 <= t < cur.len() && cur[t] == x;
                if t < prev.len() {
                    assert(prev[t] == x);
                }
            }
            if exists|i: int| 0 <= i < upto && s.contains(i) && kept[i].source@ == x {
                let i = choose|i: int| 0 <= i < upto && s.contains(i) && kept[i].source@ == x;
                if i < upto - 1 {
                    let t = choose|t: int| 0 <= t < prev.len() && prev[t] == x;
                    assert(prev.push(kept[upto - 1].source@)[t] == x);
                } else {
                    assert(prev.push(kept[upto - 1].source@)[prev.len() as int] == x);
                }
            }
        }
    }
}

/// The sources at the marked positions (or unmarked, when `want` is false).
fn marked_sources(kept: &Vec<SourceNodeInput>, marks: &Vec<bool>, want: bool) -> (r: Vec<String>)
    requires
        marks@.len() == kept@.len(),
    ensures
        views(r@) == sources_in(kept@, Set::new(|i: int| 0 <= i < marks@.len() && marks@[i] == want), kept@.len() as int),
{
    let ghost m = Set::new(|i: int| 0 <= i < marks@.len() && marks@[i] == want);
    let mut r: Vec<String> = Vec::new();
    let mut i: usize = 0;
    while i < kept.len()
        invariant
            marks@.len() == kept@.len(),
            i <= kept@.len(),
            m == Set::new(|i: int| 0 <= i < marks@.len() && marks@[i] == want),
            views(r@) == sources_in(kept@, m, i as int),
        decreases kept@.len() - i,
    {
        if marks[i] == want {
            r.push(kept[i].source.clone());
            assert(views(r@) =~= sources_in(kept@, m, i as int).push(kept@[i as int].source@));
        }
        i += 1;
    }
    r
}

pub open spec fn missing_root_message(root: Seq<char>) -> Seq<char> {
    "root source '"@ + root + "' is absent from the logical graph"@
}

pub open spec fn missing_root_view(root: Seq<char>) -> FindingView {
    graph_view(GraphFindingReason::MissingRoot, root, missing_root_message(root))
}

/// A refusal found while validating sources and edges.
pub open spec fn validation_finding(nodes: Seq<SourceNodeInput>, root: Seq<char>, x: FindingView) -> bool {
    ||| exists|s: Seq<char>| declared_twice(nodes, s) && x == dup_source_view(s)
    ||| !declares(nodes, root) && x == missing_root_view(root)
    ||| edge_finding(unique_of(nodes), x)
}

pub open spec fn unreachable_message(s: Seq<char>, root: Seq<char>) -> Seq<char> {
    "source '"@ + s + "' is not reachable from root '"@ + root + "'"@
}

/// The positions that the topological order never places.
pub open spec fn unplaced(g: Seq<Seq<int>>) -> Set<int> {
    Set::new(|i: int| 0 <= i < g.len() && !topo_order(g).contains(i))
}

/// The sources on or behind a cycle, ascending.
pub open spec fn cycle_sources(kept: Seq<SourceNodeInput>) -> Seq<Seq<char>> {
    sources_in(kept, unplaced(graph_of(kept)), kept.len() as int)
}

pub open spec fn cycle_message(c: Seq<Seq<char>>) -> Seq<char> {
    "source graph contains a cycle through "@ + join(c, ", "@)
}

/// A refusal of a validated graph: an unreachable source or a cycle.
pub open spec fn structure_finding(nodes: Seq<SourceNodeInput>, root: Seq<char>, x: FindingView) -> bool {
    structure_finding_of(unique_of(nodes), root, x)
}

/// A refusal of the graph of `kept`: an unreachable source or a cycle.
pub open spec fn structure_finding_of(kept: Seq<SourceNodeInput>, root: Seq<char>, x: FindingView) -> bool {
    let g = graph_of(kept);
    let r = src_index(kept, root);
    ||| exists|k: int| 0 <= k < kept.len() && !reachable(g, r).contains(k)
            && x == graph_view(GraphFindingReason::UnreachableSource, kept[k].source@, unreachable_message(kept[k].source@, root))
    ||| cycle_sources(kept).len() > 0
            && x == graph_view(GraphFindingReason::Cycle, cycle_sources(kept)[0], cycle_message(cycle_sources(kept)))
}

/// The accepted logical topology.
pub struct PreparedTopology {
    /// The first declaration of each source, ascending by source.
    pub nodes: Vec<SourceNodeInput>,
    /// For each node, the positions of its direct parents.
    pub graph: Vec<Vec<usize>>,
    /// Node positions in topological order: parents first, ties by source.
    pub order: Vec<usize>,
    /// The position of the root.
    pub root: usize,
    pub visibility: crate::graph_composition::SourceVisibility,
}

/// Owner and alias, the order of the alias table.
pub open spec fn alias_entry_key(e: ((String, String), String)) -> Seq<Seq<char>> {
    seq![e.0.0@, e.0.1@]
}

/// An alias declared by some edge.
pub open spec fn declared_alias(kept: Seq<SourceNodeInput>, e: ((Seq<char>, Seq<char>), Seq<char>)) -> bool {
    exists|k: int, j: int| 0 <= k < kept.len() && 0 <= j < kept[k].direct_parents@.len()
        && e == ((kept[k].source@, #[trigger] kept[k].direct_parents@[j].alias@), kept[k].direct_parents@[j].source@)
}

/// What an accepted topology holds.
pub open spec fn topology_of(nodes: Seq<SourceNodeInput>, root: Seq<char>, t: PreparedTopology) -> bool {
    let kept = t.nodes@;
    let g = graph_of(kept);
    &&& kept == unique_of(nodes)
    &&& sources_ascending(kept)
    &&& edges_known(kept)
    &&& graph_view_of(t.graph@) == g
    &&& graph_wf(g)
    &&& t.root < kept.len() && kept[t.root as int].source@ == root
    &&& idx_seq(t.order@) == topo_order(g)
    &&& t.order@.len() == kept.len()
    &&& forall|q: int| 0 <= q < kept.len() ==> #[trigger] topo_order(g).contains(q)
    &&& parents_first(g, idx_seq(t.order@))
    &&& forall|k: int| 0 <= k < kept.len() ==> reachable(g, t.root as int).contains(k)
    &&& t.visibility.visible_view() == Seq::new(kept.len(), |k: int| (kept[k].source@, sources_in(kept, reachable(g, k), kept.len() as int)))
    &&& forall|e| t.visibility.alias_view().contains(e) <==> declared_alias(kept, e)
    &&& forall|a: int, b: int| 0 <= a < b < t.visibility.alias_view().len() ==> !crate::text::keys_lt(
            seq![t.visibility.alias_view()[b].0.0, t.visibility.alias_view()[b].0.1],
            seq![t.visibility.alias_view()[a].0.0, t.visibility.alias_view()[a].0.1])
}

fn extend_findings(out: &mut Vec<GraphCompositionFinding>, more: Vec<GraphCompositionFinding>)
    ensures
        forall|x: FindingView| #[trigger] findings_view(final(out)@).contains(x) <==> (findings_view(old(out)@).contains(x) || findings_view(more@).contains(x)),
{
    let ghost a = out@;
    let mut more = more;
    let ghost b = more@;
    out.append(&mut more);
    proof {
        assert forall|x: FindingView| findings_view(out@).contains(x) <==> (findings_view(a).contains(x) || findings_view(b).contains(x)) by {
            if findings_view(out@).contains(x) {
                let t = choose|t: int| 0 <= t < out@.len() && findings_view(out@)[t] == x;
                if t < a.len() {
                    assert(findings_view(a)[t] == x);
                } else {
                    assert(findings_view(b)[t - a.len()] == x);
                }
            }
            if findings_view(a).contains(x) {
                let t = choose|t: int| 0 <= t < a.len() && findings_view(a)[t] == x;
                assert(findings_view(out@)[t] == x);
            }
            if findings_view(b).contains(x) {
                let t = choose|t: int| 0 <= t < b.len() && findings_view(b)[t] == x;
                assert(findings_view(out@)[t + a.len()] == x);
            }
        }
    }
}

/// First declarations and every validation refusal.
fn validate_sources(root: &str, nodes: Vec<SourceNodeInput>) -> (r: (Vec<SourceNodeInput>, Vec<GraphCompositionFinding>))
    ensures
        unique_nodes(nodes@, r.0@),
        r.0@ == unique_of(nodes@),
        forall|s: Seq<char>| declares(r.0@, s) <==> declares(nodes@, s),
        forall|x: FindingView| findings_view(r.1@).contains(x) <==> validation_finding(nodes@, root@, x),
{
    let ghost all = nodes@;
    let (kept, first) = dedup_nodes(nodes);
    let mut findings = first;
    proof {
        lemma_unique_of(all, kept@);
    }
    let ghost f1 = findings_view(findings@);
    let missing = has_source(&kept, root).is_none();
    if missing {
        let ghost before = findings@;
        let m = text3("root source '", root, "' is absent from the logical graph");
        findings.push(graph_finding(GraphFindingReason::MissingRoot, root, m));
        assert(findings_view(findings@) =~= findings_view(before).push(missing_root_view(root@)));
    }
    let ghost f2 = findings_view(findings@);
    let edges = edge_findings(&kept);
    let ghost ev = findings_view(edges@);
    extend_findings(&mut findings, edges);
    proof {
        assert(forall|x: FindingView| findings_view(findings@).contains(x) <==> (f2.contains(x) || ev.contains(x)));
        assert(forall|x: FindingView| ev.contains(x) <==> edge_finding(kept@, x));
        assert(forall|x: FindingView| f1.contains(x) <==> exists|s: Seq<char>| declared_twice(all, s) && x == dup_source_view(s));
        assert(kept@ == unique_of(all));
        assert forall|x: FindingView| findings_view(findings@).contains(x) <==> validation_finding(all, root@, x) by {
            if f2.contains(x) {
                let t = choose|t: int| 0 <= t < f2.len() && f2[t] == x;
                if t < f1.len() {
                    assert(f1[t] == x);
                }
            }
            if f1.contains(x) {
                let t = choose|t: int| 0 <= t < f1.len() && f1[t] == x;
                assert(f2[t] == x);
            }
            if missing && x == missing_root_view(root@) {
                assert(f2[f2.len() - 1] == x);
            }
            if validation_finding(all, root@, x) {
                if exists|s: Seq<char>| declared_twice(all, s) && x == dup_source_view(s) {
                    assert(f1.contains(x));
                } else if !declares(all, root@) && x == missing_root_view(root@) {
                    assert(!declares(kept@, root@));
                    assert(f2.contains(x));
                } else {
                    assert(edge_finding(kept@, x));
                }
            }
            if f2.contains(x) && !f1.contains(x) {
                assert(missing);
                let t = choose|t: int| 0 <= t < f2.len() && f2[t] == x;
                assert(t == f2.len() - 1);
                assert(x == missing_root_view(root@));
                assert(!declares(all, root@));
            }
        }
    }
    (kept, findings)
}

/// Without validation refusals every edge names a declared node, once.
proof fn lemma_valid_edges(nodes: Seq<SourceNodeInput>, root: Seq<char>, kept: Seq<SourceNodeInput>)
    requires
        kept == unique_of(nodes),
        unique_nodes(nodes, kept),
        forall|s: Seq<char>| declares(kept, s) <==> declares(nodes, s),
        forall|x: FindingView| !validation_finding(nodes, root, x),
    ensures
        edges_known(kept),
        declares(kept, root),
        forall|k: int, a: int, b: int| 0 <= k < kept.len() && 0 <= a < b < kept[k].direct_parents@.len()
            ==> (#[trigger] kept[k].direct_parents@[a]).source@ != (#[trigger] kept[k].direct_parents@[b]).source@
                && kept[k].direct_parents@[a].alias@ != kept[k].direct_parents@[b].alias@,
{
    assert forall|k: int, j: int| 0 <= k < kept.len() && 0 <= j < kept[k].direct_parents@.len()
        implies declares(kept, #[trigger] kept[k].direct_parents@[j].source@) by {
        if !declares(kept, kept[k].direct_parents@[j].source@) {
            let n = kept[k].source@;
            let q = kept[k].direct_parents@[j];
            let x = graph_view(GraphFindingReason::UnknownParent, n, unknown_parent_message(n, q.source@));
            assert(edge_finding_at(kept, k, j, x));
            assert(validation_finding(nodes, root, x));
        }
    }
    if !declares(nodes, root) {
        assert(validation_finding(nodes, root, missing_root_view(root)));
    }
    assert forall|k: int, a: int, b: int| 0 <= k < kept.len() && 0 <= a < b < kept[k].direct_parents@.len()
        implies (#[trigger] kept[k].direct_parents@[a]).source@ != (#[trigger] kept[k].direct_parents@[b]).source@
            && kept[k].direct_parents@[a].alias@ != kept[k].direct_parents@[b].alias@ by {
        let n = kept[k].source@;
        let ps = kept[k].direct_parents@;
        if ps[a].source@ == ps[b].source@ {
            let x = graph_view(GraphFindingReason::DuplicateParent, n, dup_parent_message(n, ps[a].source@));
            assert(parent_twice(ps, ps[a].source@));
            assert(edge_finding_at(kept, k, a, x));
            assert(validation_finding(nodes, root, x));
        }
        if ps[a].alias@ == ps[b].alias@ {
            let x = graph_view(GraphFindingReason::DuplicateAlias, n, dup_alias_message(n, ps[a].alias@));
            assert(alias_twice(ps, ps[a].alias@));
            assert(edge_finding_at(kept, k, a, x));
            assert(validation_finding(nodes, root, x));
        }
    }
}

/// Unreachable sources and cycles of a validated graph, with the order.
fn structure_findings(kept: &Vec<SourceNodeInput>, graph: &Vec<Vec<usize>>, root_idx: usize, root: &str)
    -> (r: (Vec<GraphCompositionFinding>, Vec<usize>, Vec<bool>))
    requires
        sources_ascending(kept@),
        graph_view_of(graph@) == graph_of(kept@),
        graph_wf(graph_of(kept@)),
        root_idx < kept@.len(),
        kept@[root_idx as int].source@ == root@,
    ensures
        forall|x: FindingView| #[trigger] findings_view(r.0@).contains(x) <==> structure_finding_of(kept@, root@, x),
        idx_seq(r.1@) == topo_order(graph_of(kept@)),
        r.2@.len() == kept@.len(),
        forall|q: int| 0 <= q < kept@.len() ==> (r.2@[q] <==> topo_order(graph_of(kept@)).contains(q)),
        forall|q: int| 0 <= q < kept@.len() ==> (r.0@.len() == 0 ==> reachable(graph_of(kept@), root_idx as int).contains(q)),
{
    let ghost g = graph_of(kept@);
    proof {
        lemma_src_index(kept@, root_idx as int);
    }
    assert(graph_view_of(graph@).len() == kept@.len());
    let marks = reachable_marks(graph, root_idx);
    let mut findings: Vec<GraphCompositionFinding> = Vec::new();
    let mut k: usize = 0;
    while k < kept.len()
        invariant
            k <= kept@.len(),
            marks@.len() == kept@.len(),
            graph_view_of(graph@) == g,
            g == graph_of(kept@),
            forall|q: int| 0 <= q < kept@.len() ==> (marks@[q] <==> reachable(g, root_idx as int).contains(q)),
            forall|x: FindingView| #[trigger] findings_view(findings@).contains(x) <==> exists|a: int| 0 <= a < k && !reachable(g, root_idx as int).contains(a)
                && x == graph_view(GraphFindingReason::UnreachableSource, kept@[a].source@, unreachable_message(kept@[a].source@, root@)),
            findings@.len() == 0 ==> forall|a: int| 0 <= a < k ==> reachable(g, root_idx as int).contains(a),
        decreases kept@.len() - k,
    {
        if !marks[k] {
            let ghost before = findings@;
            let m = text5("source '", kept[k].source.as_str(), "' is not reachable from root '", root, "'");
            findings.push(graph_finding(GraphFindingReason::UnreachableSource, kept[k].source.as_str(), m));
            proof {
                let v = graph_view(GraphFindingReason::UnreachableSource, kept@[k as int].source@, unreachable_message(kept@[k as int].source@, root@));
                assert(findings_view(findings@) =~= findings_view(before).push(v));
                assert forall|x: FindingView| #[trigger] findings_view(findings@).contains(x) <==> exists|a: int| 0 <= a < k + 1 && !reachable(g, root_idx as int).contains(a)
                    && x == graph_view(GraphFindingReason::UnreachableSource, kept@[a].source@, unreachable_message(kept@[a].source@, root@)) by {
                    if findings_view(findings@).contains(x) {
                        let t = choose|t: int| 0 <= t < findings_view(findings@).len() && findings_view(findings@)[t] == x;
                        if t < before.len() {
                            assert(findings_view(before)[t] == x);
                            assert(findings_view(before).contains(x));
                        }
                    }
                    if exists|a: int| 0 <= a < k + 1 && !reachable(g, root_idx as int).contains(a)
                        && x == graph_view(GraphFindingReason::UnreachableSource, kept@[a].source@, unreachable_message(kept@[a].source@, root@)) {
                        let a = choose|a: int| 0 <= a < k + 1 && !reachable(g, root_idx as int).contains(a)
                            && x == graph_view(GraphFindingReason::UnreachableSource, kept@[a].source@, unreachable_message(kept@[a].source@, root@));
                        if a < k {
                            assert(findings_view(before).contains(x));
                            let t = choose|t: int| 0 <= t < findings_view(before).len() && findings_view(before)[t] == x;
                            assert(findings_view(findings@)[t] == x);
                        } else {
                            assert(findings_view(findings@)[before.len() as int] == x);
                        }
                    }
                }
            }
        }
        k += 1;
    }
    let (order, placed) = topo_order_exec(graph);
    let cyc = marked_sources(kept, &placed, false);
    let ghost unreach = findings_view(findings@);
    let has_cycle = cyc.len() > 0;
    proof {
        assert(Set::new(|i: int| 0 <= i < placed@.len() && placed@[i] == false) =~= unplaced(g));
        assert(views(cyc@) == cycle_sources(kept@));
    }
    if has_cycle {
        let ghost before = findings@;
        let joined = join_strings(&cyc, ", ");
        let m = text3("source graph contains a cycle through ", joined.as_str(), "");
        proof {
            reveal_strlit("");
            assert(m@ =~= cycle_message(cycle_sources(kept@)));
        }
        findings.push(graph_finding(GraphFindingReason::Cycle, cyc[0].as_str(), m));
        assert(findings_view(findings@) =~= findings_view(before).push(graph_view(GraphFindingReason::Cycle, cycle_sources(kept@)[0], cycle_message(cycle_sources(kept@)))));
    }
    proof {
        let cv = graph_view(GraphFindingReason::Cycle, cycle_sources(kept@)[0], cycle_message(cycle_sources(kept@)));
        assert forall|x: FindingView| #[trigger] findings_view(findings@).contains(x) <==> structure_finding_of(kept@, root@, x) by {
            if findings_view(findings@).contains(x) {
                let t = choose|t: int| 0 <= t < findings_view(findings@).len() && findings_view(findings@)[t] == x;
                if t < unreach.len() {
                    assert(unreach[t] == x);
                    assert(unreach.contains(x));
                }
            }
            if structure_finding_of(kept@, root@, x) {
                if has_cycle && x == cv {
                    assert(findings_view(findings@)[unreach.len() as int] == x);
                } else {
                    assert(unreach.contains(x));
                    let t = choose|t: int| 0 <= t < unreach.len() && unreach[t] == x;
                    assert(findings_view(findings@)[t] == x);
                }
            }
        }
    }
    (findings, order, placed)
}

/// The visible sources of every node and the alias table.
fn build_visibility(kept: &Vec<SourceNodeInput>, graph: &Vec<Vec<usize>>) -> (r: crate::graph_composition::SourceVisibility)
    requires
        graph_view_of(graph@) == graph_of(kept@),
        graph_wf(graph_of(kept@)),
    ensures
        r.visible_view() == Seq::new(kept@.len(), |k: int| (kept@[k].source@, sources_in(kept@, reachable(graph_of(kept@), k), kept@.len() as int))),
        forall|e| r.alias_view().contains(e) <==> declared_alias(kept@, e),
        forall|a: int, b: int| 0 <= a < b < r.alias_view().len() ==> !crate::text::keys_lt(
            seq![r.alias_view()[b].0.0, r.alias_view()[b].0.1],
            seq![r.alias_view()[a].0.0, r.alias_view()[a].0.1]),
{
    let ghost g = graph_of(kept@);
    let ghost target = Seq::new(kept@.len(), |k: int| (kept@[k].source@, sources_in(kept@, reachable(g, k), kept@.len() as int)));
    let mut visible: Vec<(String, Vec<String>)> = Vec::new();
    let mut k: usize = 0;
    assert(graph_view_of(graph@).len() == kept@.len());
    while k < kept.len()
        invariant
            k <= kept@.len(),
            graph_view_of(graph@) == g,
            g == graph_of(kept@),
            graph_wf(g),
            graph@.len() == kept@.len(),
            target == Seq::new(kept@.len(), |k: int| (kept@[k].source@, sources_in(kept@, reachable(g, k), kept@.len() as int))),
            Seq::new(visible@.len(), |i: int| (visible@[i].0@, views(visible@[i].1@))) == target.take(k as int),
            visible@.len() == k,
        decreases kept@.len() - k,
    {
        let marks = reachable_marks(graph, k);
        let list = marked_sources(kept, &marks, true);
        proof {
            assert(Set::new(|i: int| 0 <= i < marks@.len() && marks@[i] == true) =~= reachable(g, k as int)) by {
                assert forall|q: int| reachable(g, k as int).contains(q) implies 0 <= q < marks@.len() by {
                    lemma_reach_bounded(g, k as int, kept@.len());
                    assert(marks@.len() == kept@.len());
                }
            }
        }
        let ghost before = visible@;
        visible.push((kept[k].source.clone(), list));
        proof {
            assert(Seq::new(visible@.len(), |i: int| (visible@[i].0@, views(visible@[i].1@))) =~= target.take(k + 1)) by {
                assert forall|i: int| 0 <= i < k + 1 implies (visible@[i].0@, views(visible@[i].1@)) == target.take(k + 1)[i] by {
                    if i < k {
                        assert(visible@[i] == before[i]);
                        assert(Seq::new(before.len(), |i: int| (before[i].0@, views(before[i].1@)))[i] == target.take(k as int)[i]);
                    }
                }
            }
        }
        k += 1;
    }
    assert(target.take(kept@.len() as int) =~= target);
    let mut keyed: Vec<Keyed<((String, String), String)>> = Vec::new();
    let ghost f = |e: ((String, String), String)| alias_entry_key(e);
    let mut a: usize = 0;
    while a < kept.len()
        invariant
            a <= kept@.len(),
            f == (|e: ((String, String), String)| alias_entry_key(e)),
            forall|i: int| 0 <= i < keyed@.len() ==> (#[trigger] keyed@[i]).sort_key() == f(keyed@[i].value),
            forall|e| alias_view_of(keyed_values(keyed@)).contains(e) <==> exists|k: int, j: int| 0 <= k < a && 0 <= j < kept@[k].direct_parents@.len()
                && e == ((kept@[k].source@, #[trigger] kept@[k].direct_parents@[j].alias@), kept@[k].direct_parents@[j].source@),
        decreases kept@.len() - a,
    {
        let ps = &kept[a].direct_parents;
        let mut j: usize = 0;
        while j < ps.len()
            invariant
                a < kept@.len(),
                ps == kept@[a as int].direct_parents,
                j <= ps@.len(),
                f == (|e: ((String, String), String)| alias_entry_key(e)),
                forall|i: int| 0 <= i < keyed@.len() ==> (#[trigger] keyed@[i]).sort_key() == f(keyed@[i].value),
                forall|e| alias_view_of(keyed_values(keyed@)).contains(e) <==> (exists|k: int, jj: int| 0 <= k < a && 0 <= jj < kept@[k].direct_parents@.len()
                    && e == ((kept@[k].source@, #[trigger] kept@[k].direct_parents@[jj].alias@), kept@[k].direct_parents@[jj].source@))
                    || (exists|jj: int| 0 <= jj < j && e == ((kept@[a as int].source@, #[trigger] ps@[jj].alias@), ps@[jj].source@)),
            decreases ps@.len() - j,
        {
            let owner = kept[a].source.clone();
            let alias = ps[j].alias.clone();
            let value = ((owner.clone(), alias.clone()), ps[j].source.clone());
            let key = vec![owner, alias];
            let ghost before = keyed@;
            keyed.push(Keyed { key, value });
            proof {
                assert(keyed@[keyed@.len() - 1].sort_key() =~= f(value));
                assert(keyed_values(keyed@) =~= keyed_values(before).push(value));
                let vb = alias_view_of(keyed_values(before));
                let ve = ((value.0.0@, value.0.1@), value.1@);
                assert(alias_view_of(keyed_values(keyed@)) =~= vb.push(ve));
                assert forall|e| alias_view_of(keyed_values(keyed@)).contains(e) <==> (exists|k: int, jj: int| 0 <= k < a && 0 <= jj < kept@[k].direct_parents@.len()
                    && e == ((kept@[k].source@, #[trigger] kept@[k].direct_parents@[jj].alias@), kept@[k].direct_parents@[jj].source@))
                    || (exists|jj: int| 0 <= jj < j + 1 && e == ((kept@[a as int].source@, #[trigger] ps@[jj].alias@), ps@[jj].source@)) by {
                    if vb.push(ve).contains(e) {
                        let t = choose|t: int| 0 <= t < vb.len() + 1 && vb.push(ve)[t] == e;
                        if t < vb.len() {
                            assert(vb[t] == e);
                            assert(vb.contains(e));
                        } else {
                            assert(e == ((kept@[a as int].source@, ps@[j as int].alias@), ps@[j as int].source@));
                        }
                    }
                    if vb.contains(e) {
                        let t = choose|t: int| 0 <= t < vb.len() && vb[t] == e;
                        assert(vb.push(ve)[t] == e);
                    }
                    if exists|jj: int| 0 <= jj < j + 1 && e == ((kept@[a as int].source@, #[trigger] ps@[jj].alias@), ps@[jj].source@) {
                        let jj = choose|jj: int| 0 <= jj < j + 1 && e == ((kept@[a as int].source@, #[trigger] ps@[jj].alias@), ps@[jj].source@);
                        if jj == j {
                            assert(vb.push(ve)[vb.len() as int] == e);
                        } else {
                            assert(vb.contains(e));
                        }
                    }
                }
            }
            j += 1;
        }
        proof {
            assert forall|e| alias_view_of(keyed_values(keyed@)).contains(e) <==> exists|k: int, jj: int| 0 <= k < a + 1 && 0 <= jj < kept@[k].direct_parents@.len()
                && e == ((kept@[k].source@, #[trigger] kept@[k].direct_parents@[jj].alias@), kept@[k].direct_parents@[jj].source@) by {
                if exists|k: int, jj: int| 0 <= k < a + 1 && 0 <= jj < kept@[k].direct_parents@.len()
                    && e == ((kept@[k].source@, #[trigger] kept@[k].direct_parents@[jj].alias@), kept@[k].direct_parents@[jj].source@) {
                    let (k, jj) = choose|k: int, jj: int| 0 <= k < a + 1 && 0 <= jj < kept@[k].direct_parents@.len()
                        && e == ((kept@[k].source@, #[trigger] kept@[k].direct_parents@[jj].alias@), kept@[k].direct_parents@[jj].source@);
                    if k == a {
                        assert(e == ((kept@[a as int].source@, ps@[jj].alias@), ps@[jj].source@));
                    }
                }
            }
        }
        a += 1;
    }
    let ghost kv = keyed_values(keyed@);
    let aliases = crate::order::sort_keyed(keyed, Ghost(f));
    let r = crate::graph_composition::SourceVisibility::from_tables(visible, aliases);
    proof {
        let av = alias_view_of(aliases@);
        assert(r.alias_view() =~= av);
        assert forall|e| av.contains(e) <==> alias_view_of(kv).contains(e) by {
            if av.contains(e) {
                let t = choose|t: int| 0 <= t < av.len() && av[t] == e;
                assert(aliases@.contains(aliases@[t]));
                assert(kv.contains(aliases@[t]));
                let m = choose|m: int| 0 <= m < kv.len() && kv[m] == aliases@[t];
                assert(alias_view_of(kv)[m] == e);
            }
            if alias_view_of(kv).contains(e) {
                let m = choose|m: int| 0 <= m < kv.len() && alias_view_of(kv)[m] == e;
                assert(kv.contains(kv[m]));
                assert(aliases@.contains(kv[m]));
                let t = choose|t: int| 0 <= t < aliases@.len() && aliases@[t] == kv[m];
                assert(av[t] == e);
            }
        }
        assert forall|x: int, y: int| 0 <= x < y < av.len() implies !crate::text::keys_lt(seq![av[y].0.0, av[y].0.1], seq![av[x].0.0, av[x].0.1]) by {
            assert(f(aliases@[y]) =~= seq![av[y].0.0, av[y].0.1]);
            assert(f(aliases@[x]) =~= seq![av[x].0.0, av[x].0.1]);
        }
    }
    r
}

/// The views of an alias table.
pub open spec fn alias_view_of(v: Seq<((String, String), String)>) -> Seq<((Seq<char>, Seq<char>), Seq<char>)> {
    Seq::new(v.len(), |i: int| ((v[i].0.0@, v[i].0.1@), v[i].1@))
}

proof fn lemma_reach_bounded(g: Seq<Seq<int>>, start: int, k: nat)
    requires
        graph_wf(g),
        0 <= start < g.len(),
    ensures
        forall|q: int| reach(g, start, k).contains(q) ==> 0 <= q < g.len(),
    decreases k,
{
    if k > 0 {
        lemma_reach_bounded(g, start, (k - 1) as nat);
        let prev = reach(g, start, (k - 1) as nat);
        assert forall|q: int| reach(g, start, k).contains(q) implies 0 <= q < g.len() by {
            if !prev.contains(q) {
                let (p, j) = choose|p: int, j: int| prev.contains(p) && 0 <= p < g.len() && 0 <= j < g[p].len() && #[trigger] g[p][j] == q;
            }
        }
    }
}

proof fn lemma_greedy_len(g: Seq<Seq<int>>, k: nat)
    ensures
        greedy(g, k).len() <= k,
    decreases k,
{
    if k > 0 {
        lemma_greedy_len(g, (k - 1) as nat);
    }
}

/// An order that places every node has exactly one entry per node.
proof fn lemma_order_covers(g: Seq<Seq<int>>)
    requires
        forall|q: int| 0 <= q < g.len() ==> topo_order(g).contains(q),
    ensures
        topo_order(g).len() == g.len(),
{
    let o = topo_order(g);
    lemma_greedy_len(g, g.len());
    vstd::set_lib::lemma_int_range(0, g.len() as int);
    assert(vstd::set_lib::set_int_range(0, g.len() as int).subset_of(o.to_set())) by {
        assert forall|q: int| vstd::set_lib::set_int_range(0, g.len() as int).contains(q) implies o.to_set().contains(q) by {
            assert(o.contains(q));
        }
    }
    vstd::seq_lib::seq_to_set_is_finite(o);
    vstd::set_lib::lemma_len_subset(vstd::set_lib::set_int_range(0, g.len() as int), o.to_set());
    o.lemma_cardinality_of_set();
}

/// Prepare the logical topology rooted at `root`. Sources and edges are
/// validated first; only a valid graph is checked for unreachable sources
/// and cycles. Every refusal of the failing stage is reported, sorted and
/// without repeats.
pub fn prepare_topology(root: &str, nodes: Vec<SourceNodeInput>) -> (r: Result<PreparedTopology, Vec<GraphCompositionFinding>>)
    ensures
        match r {
            Ok(t) => {
                &&& forall|x: FindingView| !validation_finding(nodes@, root@, x)
                &&& forall|x: FindingView| !structure_finding(nodes@, root@, x)
                &&& topology_of(nodes@, root@, t)
            },
            Err(fs) => {
                &&& fs@.len() > 0
                &&& crate::graph_composition::findings_sorted(fs@)
                &&& (exists|x: FindingView| validation_finding(nodes@, root@, x)) ==>
                        forall|x: FindingView| #[trigger] findings_view(fs@).contains(x) <==> validation_finding(nodes@, root@, x)
                &&& (forall|x: FindingView| !validation_finding(nodes@, root@, x)) ==>
                        forall|x: FindingView| #[trigger] findings_view(fs@).contains(x) <==> structure_finding(nodes@, root@, x)
            },
        },
{
    let ghost all = nodes@;
    let (kept, findings) = validate_sources(root, nodes);
    if findings.len() > 0 {
        proof {
            assert(findings_view(findings@).contains(findings_view(findings@)[0]));
        }
        let sorted = crate::graph_composition::sort_dedup_findings(findings);
        proof {
            let x0 = findings_view(findings@)[0];
            assert(validation_finding(all, root@, x0));
            assert(findings_view(sorted@).contains(x0));
        }
        return Err(sorted);
    }
    proof {
        assert forall|x: FindingView| !validation_finding(all, root@, x) by {
            if validation_finding(all, root@, x) {
                assert(findings_view(findings@).contains(x));
            }
        }
        lemma_valid_edges(all, root@, kept@);
    }
    let graph = parent_positions(&kept);
    let root_idx = match has_source(&kept, root) {
        Some(i) => i,
        None => {
            proof {
                assert(false);
            }
            0
        },
    };
    let (sfind, order, _placed) = structure_findings(&kept, &graph, root_idx, root);
    proof {
        lemma_src_index(kept@, root_idx as int);
    }
    if sfind.len() > 0 {
        proof {
            assert(findings_view(sfind@).contains(findings_view(sfind@)[0]));
        }
        let sorted = crate::graph_composition::sort_dedup_findings(sfind);
        proof {
            assert(findings_view(sorted@).contains(findings_view(sfind@)[0]));
        }
        return Err(sorted);
    }
    let visibility = build_visibility(&kept, &graph);
    proof {
        let g = graph_of(kept@);
        assert forall|x: FindingView| !structure_finding(all, root@, x) by {
            if structure_finding(all, root@, x) {
                assert(findings_view(sfind@).contains(x));
            }
        }
        assert forall|q: int| 0 <= q < g.len() implies topo_order(g).contains(q) by {
            if !topo_order(g).contains(q) {
                assert(unplaced(g).contains(q));
                lemma_sources_in(kept@, unplaced(g), kept@.len() as int, kept@[q].source@);
                assert(cycle_sources(kept@).contains(kept@[q].source@));
                assert(cycle_sources(kept@).len() > 0);
                let x = graph_view(GraphFindingReason::Cycle, cycle_sources(kept@)[0], cycle_message(cycle_sources(kept@)));
                assert(structure_finding_of(kept@, root@, x));
                assert(findings_view(sfind@).contains(x));
            }
        }
        lemma_order_covers(g);
        lemma_greedy_parents_first(g, g.len());
    }
    Ok(PreparedTopology { nodes: kept, graph, order, root: root_idx, visibility })
}

/// In ascending sources, the position of a node's source is the node's.
pub proof fn lemma_src_index_pub(kept: Seq<SourceNodeInput>, i: int)
    requires
        sources_ascending(kept),
        0 <= i < kept.len(),
    ensures
        src_index(kept, kept[i].source@) == i,
{
    lemma_src_index(kept, i);
}

/// In an accepted topology every edge names a declared node.
pub open spec fn edges_known_pub(kept: Seq<SourceNodeInput>) -> bool {
    edges_known(kept)
}

} // verus!
