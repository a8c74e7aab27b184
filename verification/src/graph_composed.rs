//! The composed source graph: the unique catalog, every source's effective
//! projection and the root's effective view.
use vstd::prelude::*;

use crate::corpus::ArtifactKey;
use crate::graph_composition::{
    ascending_keys, finding_view, findings_sorted, findings_view, has_override_cycle, keys_view, override_graph_has_cycle,
    sort_dedup_findings, sort_unique_keys, CompiledOverride, GraphCompositionFinding, GraphCompositionInput,
    GraphFindingReason, GraphOverrideDeclaration, SourceNodeInput, SourceVisibility, FINDING_INVALID_OVERRIDE,
};
use crate::graph_items::{item_finding, prepare_items};
use crate::graph_overrides::{accepted, override_finding, prepare_overrides};
use crate::graph_projection::{cd_reps, cd_targets, compiled_is, decls_resolved, entry_set, entry_view, proj_sets, project_all, run, set_bounded, Entry, EntryView};
use crate::graph_topology::{
    graph_of, idx_seq, prepare_topology, structure_finding, topology_of, validation_finding, FindingView, PreparedTopology,
};
use crate::item::CorpusItem;
use crate::order::{sorted_by_key, SortKey};
use crate::text::{owned, str_eq};
use crate::graph_topology::has_source;

verus! {

/// The redirect edges of compiled declarations.
pub open spec fn compiled_edges(d: Seq<GraphOverrideDeclaration>, cd: Seq<(int, int)>) -> Seq<((Seq<char>, Seq<char>), (Seq<char>, Seq<char>))> {
    Seq::new(cd.len(), |m: int| (d[cd[m].1].target@, d[cd[m].1].replacement@))
}

/// Some target comes back to itself.
pub open spec fn edges_cycle(e: Seq<((Seq<char>, Seq<char>), (Seq<char>, Seq<char>))>) -> bool {
    exists|i: int, k: nat| 0 <= i < e.len() && 1 <= k <= e.len()
        && #[trigger] crate::graph_composition::walk(e, e[i].0, k) == Some(e[i].0)
}

/// The cycle finding over all mapped keys.
pub open spec fn cycle_view(e: Seq<((Seq<char>, Seq<char>), (Seq<char>, Seq<char>))>) -> FindingView {
    (FINDING_INVALID_OVERRIDE@, GraphFindingReason::OverrideCycle, None,
        ascending_keys(Set::new(|k: (Seq<char>, Seq<char>)| exists|i: int| 0 <= i < e.len() && (k == e[i].0 || k == e[i].1))),
        "the compiled override graph contains a cycle"@)
}

/// What the projections and the redirect cycle check report.
pub open spec fn projection_finding(kept: Seq<SourceNodeInput>, s: Seq<CorpusItem>, d: Seq<GraphOverrideDeclaration>, x: FindingView) -> bool {
    let g = graph_of(kept);
    let st = run(kept, g, crate::graph_topology::topo_order(g), s, d, kept.len());
    let e = compiled_edges(d, st.1);
    ||| st.2.contains(x)
    ||| edges_cycle(e) && x == cycle_view(e)
}

/// The findings of a refused composition: those of the first stage that
/// fails (sources and edges, graph shape, items, declarations, projections).
pub open spec fn composition_refused(nodes: Seq<SourceNodeInput>, root: Seq<char>, items: Seq<CorpusItem>, decls: Seq<GraphOverrideDeclaration>, fs: Set<FindingView>) -> bool {
    if exists|x: FindingView| validation_finding(nodes, root, x) {
        forall|x: FindingView| fs.contains(x) <==> validation_finding(nodes, root, x)
    } else if exists|x: FindingView| structure_finding(nodes, root, x) {
        forall|x: FindingView| fs.contains(x) <==> structure_finding(nodes, root, x)
    } else {
        let kept = crate::graph_topology::unique_of(nodes);
        exists|s: Seq<CorpusItem>| s.to_multiset() == items.to_multiset() && sorted_by_key(s) && {
            if exists|x: FindingView| item_finding(s, kept, root, x) {
                forall|x: FindingView| fs.contains(x) <==> item_finding(s, kept, root, x)
            } else {
                exists|d: Seq<GraphOverrideDeclaration>| d.to_multiset() == decls.to_multiset() && sorted_by_key(d) && {
                    if exists|x: FindingView| override_finding(d, kept, s, x) {
                        forall|x: FindingView| fs.contains(x) <==> override_finding(d, kept, s, x)
                    } else {
                        forall|x: FindingView| fs.contains(x) <==> projection_finding(kept, s, d, x)
                    }
                }
            }
        }
    }
}

/// The unique catalog plus source-contextual and root-effective
/// projections.
pub struct GraphComposition {
    root_source: String,
    topology: PreparedTopology,
    topo_sources: Vec<String>,
    items: Vec<CorpusItem>,
    decls: Vec<GraphOverrideDeclaration>,
    projs: Vec<Vec<Entry>>,
    ordered: Vec<CompiledOverride>,
    targets: Vec<usize>,
    reps: Vec<usize>,
}

impl GraphComposition {
    pub closed spec fn root_view(self) -> Seq<char> {
        self.root_source@
    }

    pub closed spec fn topology_view(self) -> PreparedTopology {
        self.topology
    }

    /// The catalog, ordered by artifact path and key.
    pub closed spec fn catalog_view(self) -> Seq<CorpusItem> {
        self.items@
    }

    /// The accepted override declarations, ordered.
    pub closed spec fn decls_view(self) -> Seq<GraphOverrideDeclaration> {
        self.decls@
    }

    /// The projection of every source, by node position.
    pub closed spec fn projections_view(self) -> Seq<Set<EntryView>> {
        proj_sets(self.projs@)
    }

    /// The compiled overrides, in owner order.
    pub closed spec fn ordered_view(self) -> Seq<CompiledOverride> {
        self.ordered@
    }

    /// Target and replacement positions of each compiled override.
    pub closed spec fn targets_view(self) -> Seq<int> {
        idx_seq(self.targets@)
    }

    pub closed spec fn reps_view(self) -> Seq<int> {
        idx_seq(self.reps@)
    }

    #[verifier::type_invariant]
    closed spec fn wf(self) -> bool {
        let kept = self.topology.nodes@;
        let g = graph_of(kept);
        let st = run(kept, g, crate::graph_topology::topo_order(g), self.items@, self.decls@, kept.len());
        &&& self.topology.root < kept.len()
        &&& crate::graph_topology::sources_ascending(kept)
        &&& kept[self.topology.root as int].source@ == self.root_source@
        &&& crate::graph_topology::graph_view_of(self.topology.graph@) == g
        &&& crate::graph_topology::graph_wf(g)
        &&& self.projs@.len() == kept.len()
        &&& proj_sets(self.projs@) == st.0
        &&& forall|k: int| 0 <= k < st.0.len() ==> set_bounded(#[trigger] st.0[k], self.items@.len() as int)
        &&& self.targets@.len() == self.ordered@.len()
        &&& self.reps@.len() == self.ordered@.len()
        &&& idx_seq(self.targets@) == cd_targets(self.items@, self.decls@, st.1)
        &&& idx_seq(self.reps@) == cd_reps(self.items@, self.decls@, st.1)
        &&& forall|m: int| 0 <= m < self.reps@.len() ==> (#[trigger] self.reps@[m]) < self.items@.len()
        &&& forall|m: int| 0 <= m < self.targets@.len() ==> (#[trigger] self.targets@[m]) < self.items@.len()
        &&& self.ordered@.len() == st.1.len()
        &&& forall|m: int| 0 <= m < self.ordered@.len() ==> compiled_is(#[trigger] self.ordered@[m], st.1[m].0, self.decls@[st.1[m].1])
        &&& self.topo_sources@.len() == kept.len()
        &&& forall|t: int| 0 <= t < kept.len() ==> (#[trigger] self.topo_sources@[t])@ == kept[self.topology.order@[t] as int].source@
        &&& self.topology.order@.len() == kept.len()
        &&& forall|t: int| 0 <= t < kept.len() ==> (#[trigger] self.topology.order@[t]) < kept.len()
    }
}

/// A composition of the input that every stage accepted.
pub open spec fn composed_from(c: GraphComposition, nodes: Seq<SourceNodeInput>, root: Seq<char>, items: Seq<CorpusItem>, decls: Seq<GraphOverrideDeclaration>) -> bool {
    let t = c.topology_view();
    let kept = t.nodes@;
    let g = graph_of(kept);
    let s = c.catalog_view();
    let d = c.decls_view();
    let st = run(kept, g, crate::graph_topology::topo_order(g), s, d, kept.len());
    &&& c.root_view() == root
    &&& forall|x: FindingView| !validation_finding(nodes, root, x)
    &&& forall|x: FindingView| !structure_finding(nodes, root, x)
    &&& topology_of(nodes, root, t)
    &&& s.to_multiset() == items.to_multiset()
    &&& sorted_by_key(s)
    &&& forall|x: FindingView| !item_finding(s, kept, root, x)
    &&& d.to_multiset() == decls.to_multiset()
    &&& sorted_by_key(d)
    &&& forall|x: FindingView| !override_finding(d, kept, s, x)
    &&& forall|x: FindingView| !projection_finding(kept, s, d, x)
    &&& c.projections_view() == st.0
    &&& c.targets_view() == cd_targets(s, d, st.1)
    &&& c.reps_view() == cd_reps(s, d, st.1)
    &&& c.ordered_view().len() == st.1.len()
    &&& forall|m: int| 0 <= m < st.1.len() ==> compiled_is(#[trigger] c.ordered_view()[m], st.1[m].0, d[st.1[m].1])
}

/// With no refusal every declaration is accepted and resolved.
proof fn lemma_all_accepted(d: Seq<GraphOverrideDeclaration>, kept: Seq<SourceNodeInput>, s: Seq<CorpusItem>, upto: int)
    requires
        0 <= upto <= d.len(),
        forall|x: FindingView| !override_finding(d, kept, s, x),
    ensures
        crate::graph_overrides::accepted_upto(d, kept, s, upto) == d.take(upto),
        decls_resolved(s, d),
    decreases upto,
{
    assert forall|i: int| 0 <= i < d.len() implies crate::graph_overrides::decl_refusal(d, kept, s, i) is None by {
        if crate::graph_overrides::decl_refusal(d, kept, s, i) is Some {
            let x = crate::graph_overrides::decl_refusal(d, kept, s, i).unwrap();
            assert(override_finding(d, kept, s, x));
        }
    }
    if upto > 0 {
        lemma_all_accepted(d, kept, s, upto - 1);
        assert(d.take(upto) =~= d.take(upto - 1).push(d[upto - 1]));
    }
    assert forall|a: int| 0 <= a < d.len() implies (#[trigger] crate::graph_overrides::find_key(s, d[a].target@)) is Some
        && crate::graph_overrides::find_key(s, d[a].replacement@) is Some by {
        assert(crate::graph_overrides::decl_refusal(d, kept, s, a) is None);
    }
}

impl GraphComposition {
    /// Compose the graph. Each stage runs only when the previous one
    /// accepted its input; a refusal reports every finding of its stage,
    /// sorted and without repeats.
    pub fn compose(input: GraphCompositionInput) -> (r: Result<GraphComposition, Vec<GraphCompositionFinding>>)
        ensures
            match r {
                Ok(c) => composed_from(c, input.nodes@, input.root_source@, input.items@, input.overrides@),
                Err(fs) => {
                    &&& fs@.len() > 0
                    &&& findings_sorted(fs@)
                    &&& composition_refused(input.nodes@, input.root_source@, input.items@, input.overrides@,
                            Set::new(|x: FindingView| findings_view(fs@).contains(x)))
                },
            },
    {
        let ghost in_nodes = input.nodes@;
        let ghost in_items = input.items@;
        let ghost in_decls = input.overrides@;
        let GraphCompositionInput { root_source, nodes, items, overrides } = input;
        let ghost root = root_source@;
        let topology = match prepare_topology(root_source.as_str(), nodes) {
            Ok(t) => t,
            Err(fs) => {
                proof {
                    let fset = Set::new(|x: FindingView| findings_view(fs@).contains(x));
                    if !(exists|x: FindingView| validation_finding(in_nodes, root, x)) && !(exists|x: FindingView| structure_finding(in_nodes, root, x)) {
                        assert(findings_view(fs@).contains(findings_view(fs@)[0]));
                        assert(structure_finding(in_nodes, root, findings_view(fs@)[0]));
                    }
                    assert(composition_refused(in_nodes, root, in_items, in_decls, fset));
                }
                return Err(fs);
            },
        };
        let ghost kept = topology.nodes@;
        let (s, ifind) = prepare_items(&topology.nodes, root_source.as_str(), items);
        if ifind.len() > 0 {
            let fs = sort_dedup_findings(ifind);
            proof {
                let x0 = findings_view(ifind@)[0];
                assert(findings_view(ifind@).contains(x0));
                assert(item_finding(s@, kept, root, x0));
                assert(findings_view(fs@).contains(x0));
                let fset = Set::new(|x: FindingView| findings_view(fs@).contains(x));
                assert(composition_refused(in_nodes, root, in_items, in_decls, fset));
            }
            return Err(fs);
        }
        let (d, acc, ofind) = prepare_overrides(overrides, &topology.nodes, &s);
        if ofind.len() > 0 {
            let fs = sort_dedup_findings(ofind);
            proof {
                let x0 = findings_view(ofind@)[0];
                assert(findings_view(ofind@).contains(x0));
                assert(override_finding(d@, kept, s@, x0));
                assert(findings_view(fs@).contains(x0));
                assert forall|x: FindingView| !item_finding(s@, kept, root, x) by {
                    if item_finding(s@, kept, root, x) {
                        assert(findings_view(ifind@).contains(x));
                    }
                }
                let fset = Set::new(|x: FindingView| findings_view(fs@).contains(x));
                assert(composition_refused(in_nodes, root, in_items, in_decls, fset));
            }
            return Err(fs);
        }
        proof {
            assert forall|x: FindingView| !override_finding(d@, kept, s@, x) by {
                if override_finding(d@, kept, s@, x) {
                    assert(findings_view(ofind@).contains(x));
                }
            }
            lemma_all_accepted(d@, kept, s@, d@.len() as int);
            assert(d@.take(d@.len() as int) =~= d@);
            assert(acc@ == d@);
        }
        proof {
            let g0 = graph_of(kept);
            let ord = idx_seq(topology.order@);
            assert(crate::graph_topology::parents_first(g0, ord));
            assert forall|t: int| 0 <= t < topology.order@.len() implies (#[trigger] topology.order@[t]) < topology.nodes@.len() by {
                assert(ord[t] == topology.order@[t] as int);
                assert(0 <= ord[t] < g0.len());
            }
        }
        let (projs, compiled, cd, targets, reps, findings0) = project_all(&topology.nodes, &topology.graph, &topology.order, &s, &acc);
        let mut findings = findings0;
        let ghost g = graph_of(kept);
        let ghost st = run(kept, g, crate::graph_topology::topo_order(g), s@, acc@, kept.len());
        let ghost e = compiled_edges(acc@, st.1);
        proof {
            assert(crate::graph_composition::override_edges(compiled@) =~= e) by {
                assert forall|m: int| 0 <= m < compiled@.len() implies crate::graph_composition::override_edges(compiled@)[m] == e[m] by {
                    assert(compiled_is(compiled@[m], st.1[m].0, acc@[st.1[m].1]));
                }
            }
            assert(has_override_cycle(compiled@) == edges_cycle(e)) by {
                if has_override_cycle(compiled@) {
                    let (i, k) = choose|i: int, k: nat| 0 <= i < compiled@.len() && 1 <= k <= compiled@.len()
                        && #[trigger] crate::graph_composition::walk(crate::graph_composition::override_edges(compiled@), compiled@[i].target@, k) == Some(compiled@[i].target@);
                    assert(e[i].0 == compiled@[i].target@);
                }
                if edges_cycle(e) {
                    let (i, k) = choose|i: int, k: nat| 0 <= i < e.len() && 1 <= k <= e.len()
                        && #[trigger] crate::graph_composition::walk(e, e[i].0, k) == Some(e[i].0);
                    assert(e[i].0 == compiled@[i].target@);
                }
            }
        }
        let ghost f_before = findings_view(findings@);
        let cyc = override_graph_has_cycle(&compiled);
        if cyc {
            let mut keys: Vec<ArtifactKey> = Vec::new();
            let mut m: usize = 0;
            while m < compiled.len()
                invariant
                    m <= compiled@.len(),
                    e == compiled_edges(acc@, st.1),
                    crate::graph_composition::override_edges(compiled@) == e,
                    forall|k: (Seq<char>, Seq<char>)| #[trigger] keys_view(keys@).contains(k) <==>
                        exists|i: int| 0 <= i < m && (k == e[i].0 || k == e[i].1),
                decreases compiled@.len() - m,
            {
                let ghost before = keys_view(keys@);
                keys.push(compiled[m].target.dup());
                keys.push(compiled[m].replacement.dup());
                proof {
                    assert(e[m as int] == (compiled@[m as int].target@, compiled@[m as int].replacement@));
                    assert(keys_view(keys@) =~= before.push(e[m as int].0).push(e[m as int].1));
                    assert forall|k: (Seq<char>, Seq<char>)| #[trigger] keys_view(keys@).contains(k) <==>
                        exists|i: int| 0 <= i < m + 1 && (k == e[i].0 || k == e[i].1) by {
                        if keys_view(keys@).contains(k) {
                            let q = choose|q: int| 0 <= q < keys_view(keys@).len() && keys_view(keys@)[q] == k;
                            if q < before.len() {
                                assert(before[q] == k);
                                assert(before.contains(k));
                            }
                        }
                        if exists|i: int| 0 <= i < m + 1 && (k == e[i].0 || k == e[i].1) {
                            let i = choose|i: int| 0 <= i < m + 1 && (k == e[i].0 || k == e[i].1);
                            if i < m {
                                assert(before.contains(k));
                                let q = choose|q: int| 0 <= q < before.len() && before[q] == k;
                                assert(keys_view(keys@)[q] == k);
                            } else if k == e[i].0 {
                                assert(keys_view(keys@)[before.len() as int] == k);
                            } else {
                                assert(keys_view(keys@)[before.len() as int + 1] == k);
                            }
                        }
                    }
                }
                m += 1;
            }
            let arts = sort_unique_keys(keys);
            let f = GraphCompositionFinding {
                code: FINDING_INVALID_OVERRIDE,
                reason: GraphFindingReason::OverrideCycle,
                owner_source: None,
                artifacts: arts,
                message: owned("the compiled override graph contains a cycle"),
            };
            proof {
                assert(Set::new(|x| keys_view(keys@).contains(x)) =~= Set::new(|k: (Seq<char>, Seq<char>)| exists|i: int| 0 <= i < e.len() && (k == e[i].0 || k == e[i].1)));
                assert(finding_view(f) == cycle_view(e));
            }
            let ghost before = findings@;
            findings.push(f);
            assert(findings_view(findings@) =~= findings_view(before).push(cycle_view(e)));
        }
        proof {
            assert forall|x: FindingView| #[trigger] findings_view(findings@).contains(x) <==> projection_finding(kept, s@, acc@, x) by {
                let fin = findings_view(findings@);
                if fin.contains(x) && !f_before.contains(x) {
                    let u = choose|u: int| 0 <= u < fin.len() && fin[u] == x;
                    if u < f_before.len() {
                        assert(f_before[u] == x);
                    }
                }
                if f_before.contains(x) {
                    let u = choose|u: int| 0 <= u < f_before.len() && f_before[u] == x;
                    assert(fin[u] == x);
                }
                if cyc && x == cycle_view(e) {
                    assert(fin[f_before.len() as int] == x);
                }
            }
        }
        if findings.len() > 0 {
            let fs = sort_dedup_findings(findings);
            proof {
                let x0 = findings_view(findings@)[0];
                assert(findings_view(findings@).contains(x0));
                assert(findings_view(fs@).contains(x0));
                assert forall|x: FindingView| !item_finding(s@, kept, root, x) by {
                    if item_finding(s@, kept, root, x) {
                        assert(findings_view(ifind@).contains(x));
                    }
                }
                let fset = Set::new(|x: FindingView| findings_view(fs@).contains(x));
                assert(composition_refused(in_nodes, root, in_items, in_decls, fset));
            }
            return Err(fs);
        }
        let mut topo_sources: Vec<String> = Vec::new();
        let mut t: usize = 0;
        while t < topology.order.len()
            invariant
                t <= topology.order@.len(),
                topology.order@.len() == topology.nodes@.len(),
                forall|q: int| 0 <= q < topology.order@.len() ==> (#[trigger] topology.order@[q]) < topology.nodes@.len(),
                topo_sources@.len() == t,
                forall|q: int| 0 <= q < t ==> (#[trigger] topo_sources@[q])@ == topology.nodes@[topology.order@[q] as int].source@,
            decreases topology.order@.len() - t,
        {
            topo_sources.push(topology.nodes[topology.order[t]].source.clone());
            t += 1;
        }
        proof {
            assert forall|x: FindingView| !item_finding(s@, kept, root, x) by {
                if item_finding(s@, kept, root, x) {
                    assert(findings_view(ifind@).contains(x));
                }
            }
            assert forall|x: FindingView| !projection_finding(kept, s@, acc@, x) by {
                if projection_finding(kept, s@, acc@, x) {
                    assert(findings_view(findings@).contains(x));
                }
            }
            assert forall|m: int| 0 <= m < reps@.len() implies (#[trigger] reps@[m]) < s@.len() by {
                assert(idx_seq(reps@)[m] == cd_reps(s@, acc@, st.1)[m]);
                crate::graph_projection::lemma_run_all_decls(kept, g, crate::graph_topology::topo_order(g), s@, acc@);
                assert(idx_seq(reps@).len() == st.1.len());
                assert(idx_seq(targets@).len() == st.1.len());
                assert(m < st.1.len());
                let a = st.1[m].1;
                assert(0 <= a < acc@.len());
                assert(decls_resolved(s@, acc@));
                assert(crate::graph_overrides::find_key(s@, acc@[a].target@) is Some);
                assert(crate::graph_overrides::find_key(s@, acc@[a].replacement@) is Some);
                crate::graph_projection::lemma_find_key_bound(s@, acc@[a].replacement@);
            }
            assert forall|m: int| 0 <= m < targets@.len() implies (#[trigger] targets@[m]) < s@.len() by {
                assert(idx_seq(targets@)[m] == cd_targets(s@, acc@, st.1)[m]);
                crate::graph_projection::lemma_run_all_decls(kept, g, crate::graph_topology::topo_order(g), s@, acc@);
                assert(idx_seq(reps@).len() == st.1.len());
                assert(idx_seq(targets@).len() == st.1.len());
                assert(m < st.1.len());
                let a = st.1[m].1;
                assert(0 <= a < acc@.len());
                assert(decls_resolved(s@, acc@));
                assert(crate::graph_overrides::find_key(s@, acc@[a].target@) is Some);
                assert(crate::graph_overrides::find_key(s@, acc@[a].target@) is Some);
                crate::graph_projection::lemma_find_key_bound(s@, acc@[a].target@);
            }
        }
        proof {
            assert(topology.root < kept.len());
            assert(kept[topology.root as int].source@ == root_source@);
            assert(crate::graph_topology::graph_view_of(topology.graph@) == g);
            assert(crate::graph_topology::graph_wf(g));
            assert(projs@.len() == kept.len());
            assert(proj_sets(projs@) == st.0);
            assert(forall|k: int| 0 <= k < st.0.len() ==> set_bounded(#[trigger] st.0[k], s@.len() as int));
            assert(idx_seq(targets@) == cd_targets(s@, acc@, st.1));
            assert(compiled@.len() == st.1.len());
            assert(forall|m: int| 0 <= m < compiled@.len() ==> compiled_is(#[trigger] compiled@[m], st.1[m].0, acc@[st.1[m].1]));
            assert(targets@.len() == compiled@.len());
            assert(reps@.len() == compiled@.len());
            assert(idx_seq(reps@) == cd_reps(s@, acc@, st.1));
            assert(topo_sources@.len() == kept.len());
            assert(topology.order@.len() == kept.len());
            assert(forall|t: int| 0 <= t < kept.len() ==> (#[trigger] topology.order@[t]) < kept.len());
            assert(forall|t: int| 0 <= t < kept.len() ==> (#[trigger] topo_sources@[t])@ == kept[topology.order@[t] as int].source@);
        }
        Ok(GraphComposition {
            root_source,
            topology,
            topo_sources,
            items: s,
            decls: acc,
            projs,
            ordered: compiled,
            targets,
            reps,
        })
    }
}

/// The items at the positions in `s`, in catalog order.
pub open spec fn items_in(items: Seq<CorpusItem>, s: Set<int>, upto: int) -> Seq<CorpusItem>
    decreases upto,
{
    if upto <= 0 {
        Seq::empty()
    } else {
        let prev = items_in(items, s, upto - 1);
        if s.contains(upto - 1) { prev.push(items[upto - 1]) } else { prev }
    }
}

/// The positions of the items of one source.
pub open spec fn source_positions(items: Seq<CorpusItem>, src: Seq<char>) -> Set<int> {
    Set::new(|i: int| 0 <= i < items.len() && items[i].key.source@ == src)
}

/// Exactly `t` answers for origin `o`.
pub open spec fn single_terminal(p: Set<EntryView>, o: int, t: int) -> bool {
    crate::graph_projection::terminals_of(p, o) == set![t]
}

/// The single terminal that answers for origin `o`, if exactly one does.
pub open spec fn terminal_for(p: Set<EntryView>, o: int) -> Option<int> {
    if exists|t: int| single_terminal(p, o, t) {
        Some(choose|t: int| single_terminal(p, o, t))
    } else {
        None
    }
}

pub open spec fn derefs(v: Seq<&CorpusItem>) -> Seq<CorpusItem> {
    Seq::new(v.len(), |i: int| *v[i])
}

impl GraphComposition {
    /// The position of the root source.
    pub closed spec fn root_pos(self) -> int {
        self.topology.root as int
    }

    pub fn root_source(&self) -> (r: &str)
        ensures
            r@ == self.root_view(),
    {
        self.root_source.as_str()
    }

    /// Every source-owned artifact, ordered by artifact path and key.
    pub fn catalog(&self) -> (r: &Vec<CorpusItem>)
        ensures
            r@ == self.catalog_view(),
    {
        &self.items
    }

    /// The items at marked positions.
    fn select(&self, s: Ghost<Set<int>>, marks: &Vec<bool>) -> (r: Vec<&CorpusItem>)
        requires
            marks@.len() == self.items@.len(),
            forall|i: int| 0 <= i < marks@.len() ==> (marks@[i] <==> s@.contains(i)),
        ensures
            derefs(r@) == items_in(self.catalog_view(), s@, self.catalog_view().len() as int),
    {
        let mut r: Vec<&CorpusItem> = Vec::new();
        let mut i: usize = 0;
        while i < self.items.len()
            invariant
                i <= self.items@.len(),
                marks@.len() == self.items@.len(),
                forall|i: int| 0 <= i < marks@.len() ==> (marks@[i] <==> s@.contains(i)),
                derefs(r@) == items_in(self.items@, s@, i as int),
            decreases self.items@.len() - i,
        {
            if marks[i] {
                r.push(&self.items[i]);
                assert(derefs(r@) =~= items_in(self.items@, s@, i as int).push(self.items@[i as int]));
            }
            i += 1;
        }
        r
    }

    /// Marks of the terminals of one projection.
    fn live_marks(&self, k: usize) -> (r: Vec<bool>)
        requires
            k < self.projs@.len(),
        ensures
            r@.len() == self.items@.len(),
            forall|i: int| 0 <= i < r@.len() ==> (r@[i] <==> crate::graph_projection::live(self.projections_view()[k as int]).contains(i)),
    {
        let mut r: Vec<bool> = Vec::new();
        let mut i: usize = 0;
        while i < self.items.len()
            invariant
                k < self.projs@.len(),
                i <= self.items@.len(),
                r@.len() == i,
                forall|q: int| 0 <= q < i ==> (r@[q] <==> crate::graph_projection::live(self.projections_view()[k as int]).contains(q)),
            decreases self.items@.len() - i,
        {
            let b = crate::graph_projection::is_live_pub(&self.projs[k], i);
            assert(self.projections_view()[k as int] == entry_set(self.projs@[k as int]@));
            r.push(b);
            i += 1;
        }
        r
    }

    /// The root-effective view: every artifact that answers at the root
    /// after overrides, in catalog order.
    pub fn effective(&self) -> (r: Vec<&CorpusItem>)
        ensures
            derefs(r@) == items_in(self.catalog_view(), crate::graph_projection::live(self.projections_view()[self.root_pos()]), self.catalog_view().len() as int),
    {
        proof {
            use_type_invariant(self);
        }
        let marks = self.live_marks(self.topology.root);
        self.select(Ghost(crate::graph_projection::live(self.projections_view()[self.root_pos()])), &marks)
    }

    /// The marks of one source's items.
    fn source_marks(&self, src: &str) -> (r: Vec<bool>)
        ensures
            r@.len() == self.items@.len(),
            forall|i: int| 0 <= i < r@.len() ==> (r@[i] <==> source_positions(self.catalog_view(), src@).contains(i)),
    {
        let mut r: Vec<bool> = Vec::new();
        let mut i: usize = 0;
        while i < self.items.len()
            invariant
                i <= self.items@.len(),
                r@.len() == i,
                forall|q: int| 0 <= q < i ==> (r@[q] <==> source_positions(self.items@, src@).contains(q)),
            decreases self.items@.len() - i,
        {
            r.push(str_eq(self.items[i].key.source.as_str(), src));
            i += 1;
        }
        r
    }

    /// The root's own artifacts, in catalog order.
    pub fn root_local(&self) -> (r: Vec<&CorpusItem>)
        ensures
            derefs(r@) == items_in(self.catalog_view(), source_positions(self.catalog_view(), self.root_view()), self.catalog_view().len() as int),
    {
        let marks = self.source_marks(self.root_source.as_str());
        self.select(Ghost(source_positions(self.catalog_view(), self.root_view())), &marks)
    }

    /// The artifacts owned by `source`, in catalog order.
    pub fn local_to(&self, source: &str) -> (r: Vec<&CorpusItem>)
        ensures
            derefs(r@) == items_in(self.catalog_view(), source_positions(self.catalog_view(), source@), self.catalog_view().len() as int),
    {
        let marks = self.source_marks(source);
        self.select(Ghost(source_positions(self.catalog_view(), source@)), &marks)
    }

    /// The node position of a source.
    pub closed spec fn node_of(self, source: Seq<char>) -> Option<int> {
        if crate::graph_topology::declares(self.topology.nodes@, source) {
            Some(crate::graph_topology::src_index(self.topology.nodes@, source))
        } else {
            None
        }
    }

    fn node_index(&self, source: &str) -> (r: Option<usize>)
        ensures
            match r {
                Some(k) => k < self.projs@.len() && self.node_of(source@) == Some(k as int),
                None => self.node_of(source@) is None,
            },
    {
        proof {
            use_type_invariant(self);
        }
        match has_source(&self.topology.nodes, source) {
            None => None,
            Some(k) => {
                proof {
                    crate::graph_topology::lemma_src_index_pub(self.topology.nodes@, k as int);
                }
                Some(k)
            },
        }
    }

    /// The effective view rooted at an authoring source, when it is known.
    pub fn effective_from(&self, source: &str) -> (r: Option<Vec<&CorpusItem>>)
        ensures
            match r {
                Some(v) => self.node_of(source@) matches Some(k) && derefs(v@) == items_in(self.catalog_view(),
                    crate::graph_projection::live(self.projections_view()[k]), self.catalog_view().len() as int),
                None => self.node_of(source@) is None,
            },
    {
        match self.node_index(source) {
            None => None,
            Some(k) => {
                let marks = self.live_marks(k);
                Some(self.select(Ghost(crate::graph_projection::live(self.projections_view()[k as int])), &marks))
            },
        }
    }

    /// The artifact with `key`.
    pub fn item(&self, key: &ArtifactKey) -> (r: Option<&CorpusItem>)
        ensures
            match r {
                Some(it) => crate::graph_overrides::find_key(self.catalog_view(), key@) matches Some(i) && *it == self.catalog_view()[i],
                None => crate::graph_overrides::find_key(self.catalog_view(), key@) is None,
            },
    {
        match crate::graph_overrides::find_key_exec(&self.items, key) {
            Some(i) => Some(&self.items[i]),
            None => None,
        }
    }

    /// Source visibility and edge-local aliases.
    pub fn visibility(&self) -> (r: &SourceVisibility)
        ensures
            *r == self.topology_view().visibility,
    {
        &self.topology.visibility
    }

    /// Sources in topological order: parents first, ties by source.
    pub fn topological_sources(&self) -> (r: &Vec<String>)
        ensures
            r@.len() == self.topology_view().nodes@.len(),
            forall|t: int| 0 <= t < r@.len() ==> (#[trigger] r@[t])@ == self.topology_view().nodes@[self.topology_view().order@[t] as int].source@,
    {
        proof {
            use_type_invariant(self);
        }
        &self.topo_sources
    }

    /// The compiled overrides, in owner order.
    pub fn ordered_overrides(&self) -> (r: &Vec<CompiledOverride>)
        ensures
            r@ == self.ordered_view(),
    {
        &self.ordered
    }
}

impl GraphComposition {
    fn terminal_of(&self, k: usize, o: usize) -> (r: Option<usize>)
        requires
            k < self.projs@.len(),
        ensures
            match r {
                Some(t) => terminal_for(self.projections_view()[k as int], o as int) == Some(t as int) && t < self.catalog_view().len(),
                None => terminal_for(self.projections_view()[k as int], o as int) is None,
            },
    {
        proof {
            use_type_invariant(self);
        }
        let ts = crate::graph_projection::terminals_exec(&self.projs[k], o);
        let ghost p = self.projections_view()[k as int];
        let ghost tv = idx_seq(ts@);
        proof {
            assert(p == entry_set(self.projs@[k as int]@));
            tv.unique_seq_to_set();
            assert(tv.to_set() =~= crate::graph_projection::terminals_of(p, o as int));
        }
        if ts.len() == 1 {
            let t = ts[0];
            proof {
                assert(tv.to_set() =~= set![t as int]) by {
                    broadcast use vstd::seq_lib::group_seq_properties;
                    assert(tv =~= seq![t as int]);
                    assert forall|x: int| tv.to_set().contains(x) <==> x == t as int by {
                        if x == t as int {
                            assert(tv[0] == x);
                            assert(tv.contains(x));
                        }
                        if tv.contains(x) {
                            let q = choose|q: int| 0 <= q < tv.len() && tv[q] == x;
                        }
                    }
                }
                assert(single_terminal(p, o as int, t as int));
                let c = choose|x: int| single_terminal(p, o as int, x);
                assert(set![c].contains(c));
                assert(set![t as int].contains(c));
                assert(crate::graph_projection::terminals_of(p, o as int).contains(t as int));
                let rr = choose|rr: Seq<int>| p.contains((o as int, t as int, rr));
                assert(set_bounded(p, self.items@.len() as int));
            }
            Some(t)
        } else {
            proof {
                if exists|x: int| single_terminal(p, o as int, x) {
                    let x = choose|x: int| single_terminal(p, o as int, x);
                    assert(set![x].len() == 1);
                }
            }
            None
        }
    }

    /// The terminal that answers for `key` in the projection of `source`.
    pub fn terminal_from(&self, source: &str, key: &ArtifactKey) -> (r: Option<&ArtifactKey>)
        ensures
            match r {
                Some(t) => self.node_of(source@) matches Some(k)
                    && crate::graph_overrides::find_key(self.catalog_view(), key@) matches Some(o)
                    && terminal_for(self.projections_view()[k], o) matches Some(ti)
                    && 0 <= ti < self.catalog_view().len()
                    && *t == self.catalog_view()[ti].key,
                None => self.node_of(source@) is None
                    || crate::graph_overrides::find_key(self.catalog_view(), key@) is None
                    || terminal_for(self.projections_view()[self.node_of(source@).unwrap()], crate::graph_overrides::find_key(self.catalog_view(), key@).unwrap()) is None,
            },
    {
        let k = match self.node_index(source) {
            Some(k) => k,
            None => { return None; },
        };
        let o = match crate::graph_overrides::find_key_exec(&self.items, key) {
            Some(o) => o,
            None => { return None; },
        };
        match self.terminal_of(k, o) {
            Some(t) => Some(&self.items[t].key),
            None => None,
        }
    }
}

/// Some identifier of the item folds to `f`.
pub open spec fn answers_to(it: CorpusItem, f: Seq<char>) -> bool {
    exists|j: int| 0 <= j < it.identifiers@.len() && crate::composition::fold(#[trigger] it.identifiers@[j]@) == f
}

/// Keys of items in the visible sources that answer to `f`.
pub open spec fn historical_set(items: Seq<CorpusItem>, vis: Seq<Seq<char>>, f: Seq<char>) -> Set<(Seq<char>, Seq<char>)> {
    Set::new(|k: (Seq<char>, Seq<char>)| exists|i: int| 0 <= i < items.len() && vis.contains(items[i].key.source@)
        && answers_to(items[i], f) && k == #[trigger] items[i].key@)
}

/// The keys of the terminals that answer for the candidates.
pub open spec fn effective_set(items: Seq<CorpusItem>, p: Set<EntryView>, hist: Set<(Seq<char>, Seq<char>)>) -> Set<(Seq<char>, Seq<char>)> {
    Set::new(|k: (Seq<char>, Seq<char>)| exists|c: (Seq<char>, Seq<char>), o: int, t: int| #![trigger hist.contains(c), terminal_for(p, o), items[t]]
        hist.contains(c) && crate::graph_overrides::find_key(items, c) == Some(o) && terminal_for(p, o) == Some(t) && k == items[t].key@)
}

/// The first item of source `s` whose canonical id folds to `f`.
pub open spec fn canon_pos(items: Seq<CorpusItem>, s: Seq<char>, f: Seq<char>, upto: int) -> Option<int>
    decreases upto,
{
    if upto <= 0 {
        None
    } else {
        match canon_pos(items, s, f, upto - 1) {
            Some(i) => Some(i),
            None => if items[upto - 1].key.source@ == s && crate::composition::fold(items[upto - 1].key.canonical_id@) == f {
                Some(upto - 1)
            } else {
                None
            },
        }
    }
}

/// A resolution as keys, or a failure as a variant number with its lists.
pub type ResolutionView = Result<(Seq<(Seq<char>, Seq<char>)>, (Seq<char>, Seq<char>), (Seq<char>, Seq<char>), bool), (int, Seq<(Seq<char>, Seq<char>)>, Seq<(Seq<char>, Seq<char>)>)>;

pub open spec fn resolution_view(r: Result<crate::graph_composition::GraphResolution, crate::graph_composition::GraphLookupError>) -> ResolutionView {
    match r {
        Ok(res) => Ok((keys_view(res.historical_candidates@), res.selected@, res.effective_terminal@, res.qualified)),
        Err(crate::graph_composition::GraphLookupError::UnknownContext) => Err((0, Seq::empty(), Seq::empty())),
        Err(crate::graph_composition::GraphLookupError::NotFound) => Err((1, Seq::empty(), Seq::empty())),
        Err(crate::graph_composition::GraphLookupError::InvalidQualifiedReference) => Err((2, Seq::empty(), Seq::empty())),
        Err(crate::graph_composition::GraphLookupError::QualifiedCanonicalRequired) => Err((3, Seq::empty(), Seq::empty())),
        Err(crate::graph_composition::GraphLookupError::Ambiguous { historical_candidates, effective_candidates }) =>
            Err((4, keys_view(historical_candidates@), keys_view(effective_candidates@))),
    }
}

/// How an unqualified reference resolves in projection `p` with the
/// visible sources `vis`.
pub open spec fn unqualified_view(items: Seq<CorpusItem>, p: Set<EntryView>, vis: Seq<Seq<char>>, reference: Seq<char>) -> ResolutionView {
    let f = crate::composition::fold(reference);
    let hist = historical_set(items, vis, f);
    let h = ascending_keys(hist);
    let e = ascending_keys(effective_set(items, p, hist));
    if h.len() == 0 {
        Err((1, Seq::empty(), Seq::empty()))
    } else if e.len() != 1 {
        Err((4, h, e))
    } else {
        Ok((h, e[0], e[0], false))
    }
}

/// The source a qualifier names from a context.
pub open spec fn qualifier_target(vis: SourceVisibility, context: Seq<char>, q: Seq<char>) -> Option<Seq<char>> {
    if q.contains('/') {
        if crate::graph_composition::lookup(vis.visible_view(), context) matches Some(vs) && vs.contains(q) { Some(q) } else { None }
    } else {
        crate::graph_composition::lookup(vis.alias_view(), (context, q))
    }
}

/// How a qualified reference resolves.
pub open spec fn qualified_view(items: Seq<CorpusItem>, p: Set<EntryView>, vis: SourceVisibility, context: Seq<char>, reference: Seq<char>) -> ResolutionView {
    let (q, cid) = crate::text::split_dcolon(reference).unwrap();
    if q.len() == 0 || cid.len() == 0 || crate::text::contains_seq(cid, "::"@) {
        Err((2, Seq::empty(), Seq::empty()))
    } else {
        match qualifier_target(vis, context, q) {
            None => Err((1, Seq::empty(), Seq::empty())),
            Some(ts) => {
                let f = crate::composition::fold(cid);
                match canon_pos(items, ts, f, items.len() as int) {
                    None => if exists|i: int| 0 <= i < items.len() && items[i].key.source@ == ts && #[trigger] answers_to(items[i], f) {
                        Err((3, Seq::empty(), Seq::empty()))
                    } else {
                        Err((1, Seq::empty(), Seq::empty()))
                    },
                    Some(i) => match crate::graph_overrides::find_key(items, items[i].key@) {
                        None => Err((1, Seq::empty(), Seq::empty())),
                        Some(o) => match terminal_for(p, o) {
                            None => Err((1, Seq::empty(), Seq::empty())),
                            Some(t) => Ok((seq![items[i].key@], items[i].key@, items[t].key@, true)),
                        },
                    },
                }
            },
        }
    }
}

fn answers_exec(it: &CorpusItem, f: &String) -> (r: bool)
    ensures
        r == answers_to(*it, f@),
{
    let mut j: usize = 0;
    while j < it.identifiers.len()
        invariant
            j <= it.identifiers@.len(),
            forall|q: int| 0 <= q < j ==> crate::composition::fold(#[trigger] it.identifiers@[q]@) != f@,
        decreases it.identifiers@.len() - j,
    {
        let g = crate::text::fold_case(it.identifiers[j].as_str());
        if str_eq(g.as_str(), f.as_str()) {
            return true;
        }
        j += 1;
    }
    false
}

fn contains_string(v: &Vec<String>, s: &str) -> (r: bool)
    ensures
        r == crate::text::views(v@).contains(s@),
{
    let mut i: usize = 0;
    while i < v.len()
        invariant
            i <= v@.len(),
            forall|q: int| 0 <= q < i ==> v@[q]@ != s@,
        decreases v@.len() - i,
    {
        if str_eq(v[i].as_str(), s) {
            assert(crate::text::views(v@)[i as int] == s@);
            return true;
        }
        i += 1;
    }
    proof {
        if crate::text::views(v@).contains(s@) {
            let q = choose|q: int| 0 <= q < crate::text::views(v@).len() && crate::text::views(v@)[q] == s@;
            assert(crate::text::views(v@)[q] == v@[q]@);
        }
    }
    false
}

fn has_slash(s: &str) -> (r: bool)
    ensures
        r == s@.contains('/'),
{
    let cs = crate::text::chars_of(s);
    let mut i: usize = 0;
    while i < cs.len()
        invariant
            cs@ == s@,
            i <= cs@.len(),
            forall|q: int| 0 <= q < i ==> cs@[q] != '/',
        decreases cs@.len() - i,
    {
        if cs[i] == '/' {
            return true;
        }
        i += 1;
    }
    false
}

impl GraphComposition {
    fn historical_keys(&self, vis: &Vec<String>, f: &String) -> (r: Vec<ArtifactKey>)
        ensures
            keys_view(r@) == ascending_keys(historical_set(self.catalog_view(), crate::text::views(vis@), f@)),
            forall|x| #[trigger] keys_view(r@).contains(x) <==> historical_set(self.catalog_view(), crate::text::views(vis@), f@).contains(x),
    {
        let ghost hs = historical_set(self.items@, crate::text::views(vis@), f@);
        let mut keys: Vec<ArtifactKey> = Vec::new();
        let mut i: usize = 0;
        while i < self.items.len()
            invariant
                i <= self.items@.len(),
                hs == historical_set(self.items@, crate::text::views(vis@), f@),
                forall|x| #[trigger] keys_view(keys@).contains(x) <==> exists|q: int| 0 <= q < i && crate::text::views(vis@).contains(self.items@[q].key.source@)
                    && answers_to(self.items@[q], f@) && x == #[trigger] self.items@[q].key@,
            decreases self.items@.len() - i,
        {
            let ghost before = keys_view(keys@);
            let take = contains_string(vis, self.items[i].key.source.as_str()) && answers_exec(&self.items[i], f);
            if take {
                keys.push(self.items[i].key.dup());
                assert(keys_view(keys@) =~= before.push(self.items@[i as int].key@));
            }
            proof {
                assert forall|x| #[trigger] keys_view(keys@).contains(x) <==> exists|q: int| 0 <= q < i + 1 && crate::text::views(vis@).contains(self.items@[q].key.source@)
                    && answers_to(self.items@[q], f@) && x == #[trigger] self.items@[q].key@ by {
                    if keys_view(keys@).contains(x) && !before.contains(x) {
                        let u = choose|u: int| 0 <= u < keys_view(keys@).len() && keys_view(keys@)[u] == x;
                        if u < before.len() {
                            assert(before[u] == x);
                        }
                    }
                    if before.contains(x) {
                        let u = choose|u: int| 0 <= u < before.len() && before[u] == x;
                        assert(keys_view(keys@)[u] == x);
                    }
                    if exists|q: int| 0 <= q < i + 1 && crate::text::views(vis@).contains(self.items@[q].key.source@)
                        && answers_to(self.items@[q], f@) && x == #[trigger] self.items@[q].key@ {
                        let q = choose|q: int| 0 <= q < i + 1 && crate::text::views(vis@).contains(self.items@[q].key.source@)
                            && answers_to(self.items@[q], f@) && x == #[trigger] self.items@[q].key@;
                        if q == i {
                            assert(keys_view(keys@)[before.len() as int] == x);
                        }
                    }
                }
            }
            i += 1;
        }
        let r = sort_unique_keys(keys);
        proof {
            assert(Set::new(|x| keys_view(keys@).contains(x)) =~= hs);
        }
        r
    }

    fn effective_keys(&self, k: usize, hist: &Vec<ArtifactKey>) -> (r: Vec<ArtifactKey>)
        requires
            k < self.projs@.len(),
        ensures
            keys_view(r@) == ascending_keys(effective_set(self.catalog_view(), self.projections_view()[k as int], Set::new(|x| keys_view(hist@).contains(x)))),
    {
        let ghost p = self.projections_view()[k as int];
        let ghost hs = Set::new(|x| keys_view(hist@).contains(x));
        let mut keys: Vec<ArtifactKey> = Vec::new();
        let mut i: usize = 0;
        while i < hist.len()
            invariant
                k < self.projs@.len(),
                i <= hist@.len(),
                p == self.projections_view()[k as int],
                hs == Set::new(|x| keys_view(hist@).contains(x)),
                forall|x| #[trigger] keys_view(keys@).contains(x) <==> exists|c: (Seq<char>, Seq<char>), o: int, t: int|
                    #![trigger keys_view(hist@.take(i as int)).contains(c), terminal_for(p, o), self.items@[t]]
                    keys_view(hist@.take(i as int)).contains(c) && crate::graph_overrides::find_key(self.items@, c) == Some(o)
                        && terminal_for(p, o) == Some(t) && x == self.items@[t].key@,
            decreases hist@.len() - i,
        {
            let ghost before = keys_view(keys@);
            let ghost c = hist@[i as int]@;
            proof {
                assert(keys_view(hist@.take(i + 1)) =~= keys_view(hist@.take(i as int)).push(c));
            }
            match crate::graph_overrides::find_key_exec(&self.items, &hist[i]) {
                Some(o) => {
                    match self.terminal_of(k, o) {
                        Some(t) => {
                            keys.push(self.items[t].key.dup());
                            assert(keys_view(keys@) =~= before.push(self.items@[t as int].key@));
                        },
                        None => {},
                    }
                },
                None => {},
            }
            proof {
                let h0 = keys_view(hist@.take(i as int));
                let h1 = keys_view(hist@.take(i + 1));
                assert forall|x| #[trigger] keys_view(keys@).contains(x) <==> exists|c2: (Seq<char>, Seq<char>), o: int, t: int|
                    #![trigger h1.contains(c2), terminal_for(p, o), self.items@[t]]
                    h1.contains(c2) && crate::graph_overrides::find_key(self.items@, c2) == Some(o)
                        && terminal_for(p, o) == Some(t) && x == self.items@[t].key@ by {
                    if keys_view(keys@).contains(x) && !before.contains(x) {
                        let u = choose|u: int| 0 <= u < keys_view(keys@).len() && keys_view(keys@)[u] == x;
                        if u < before.len() {
                            assert(before[u] == x);
                        }
                        assert(h1.contains(c)) by {
                            assert(h1[i as int] == c);
                        }
                    }
                    if before.contains(x) {
                        let u = choose|u: int| 0 <= u < before.len() && before[u] == x;
                        assert(keys_view(keys@)[u] == x);
                        let (c2, o, t) = choose|c2: (Seq<char>, Seq<char>), o: int, t: int|
                            #![trigger h0.contains(c2), terminal_for(p, o), self.items@[t]]
                            h0.contains(c2) && crate::graph_overrides::find_key(self.items@, c2) == Some(o)
                                && terminal_for(p, o) == Some(t) && x == self.items@[t].key@;
                        let v = choose|v: int| 0 <= v < h0.len() && h0[v] == c2;
                        assert(h1[v] == c2);
                        assert(h1.contains(c2));
                    }
                    if exists|c2: (Seq<char>, Seq<char>), o: int, t: int|
                        #![trigger h1.contains(c2), terminal_for(p, o), self.items@[t]]
                        h1.contains(c2) && crate::graph_overrides::find_key(self.items@, c2) == Some(o)
                            && terminal_for(p, o) == Some(t) && x == self.items@[t].key@ {
                        let (c2, o, t) = choose|c2: (Seq<char>, Seq<char>), o: int, t: int|
                            #![trigger h1.contains(c2), terminal_for(p, o), self.items@[t]]
                            h1.contains(c2) && crate::graph_overrides::find_key(self.items@, c2) == Some(o)
                                && terminal_for(p, o) == Some(t) && x == self.items@[t].key@;
                        let v = choose|v: int| 0 <= v < h1.len() && h1[v] == c2;
                        if v < i {
                            assert(h0[v] == c2);
                            assert(h0.contains(c2));
                            assert(before.contains(x));
                            let u = choose|u: int| 0 <= u < before.len() && before[u] == x;
                            assert(keys_view(keys@)[u] == x);
                        } else {
                            assert(c2 == c);
                            assert(keys_view(keys@)[before.len() as int] == x);
                        }
                    }
                }
            }
            i += 1;
        }
        let r = sort_unique_keys(keys);
        proof {
            assert(hist@.take(hist@.len() as int) =~= hist@);
            let hl = keys_view(hist@.take(hist@.len() as int));
            assert(hl == keys_view(hist@));
            assert(Set::new(|x| keys_view(keys@).contains(x)) =~= effective_set(self.items@, p, hs)) by {
                assert forall|x| keys_view(keys@).contains(x) <==> effective_set(self.items@, p, hs).contains(x) by {
                    if keys_view(keys@).contains(x) {
                        let (c2, o, t) = choose|c2: (Seq<char>, Seq<char>), o: int, t: int|
                            #![trigger hl.contains(c2), terminal_for(p, o), self.items@[t]]
                            hl.contains(c2) && crate::graph_overrides::find_key(self.items@, c2) == Some(o)
                                && terminal_for(p, o) == Some(t) && x == self.items@[t].key@;
                        assert(hs.contains(c2));
                    }
                    if effective_set(self.items@, p, hs).contains(x) {
                        let (c2, o, t) = choose|c2: (Seq<char>, Seq<char>), o: int, t: int| #![trigger hs.contains(c2), terminal_for(p, o), self.items@[t]]
                            hs.contains(c2) && crate::graph_overrides::find_key(self.items@, c2) == Some(o) && terminal_for(p, o) == Some(t) && x == self.items@[t].key@;
                        assert(keys_view(hist@).contains(c2));
                        assert(hl.contains(c2));
                    }
                }
            }
        }
        r
    }
}

impl GraphComposition {
    /// How `reference` resolves from the authoring source `context`.
    pub open spec fn resolution_spec(self, context: Seq<char>, reference: Seq<char>) -> ResolutionView {
        match self.node_of(context) {
            None => Err((0, Seq::empty(), Seq::empty())),
            Some(k) => if crate::text::contains_seq(reference, "::"@) {
                qualified_view(self.catalog_view(), self.projections_view()[k], self.topology_view().visibility, context, reference)
            } else {
                match crate::graph_composition::lookup(self.topology_view().visibility.visible_view(), context) {
                    None => Err((0, Seq::empty(), Seq::empty())),
                    Some(vs) => unqualified_view(self.catalog_view(), self.projections_view()[k], vs, reference),
                }
            },
        }
    }

    fn canon_position(&self, ts: &str, f: &String) -> (r: Option<usize>)
        ensures
            match r {
                Some(i) => i < self.catalog_view().len() && canon_pos(self.catalog_view(), ts@, f@, self.catalog_view().len() as int) == Some(i as int),
                None => canon_pos(self.catalog_view(), ts@, f@, self.catalog_view().len() as int) is None,
            },
    {
        let mut i: usize = 0;
        while i < self.items.len()
            invariant
                i <= self.items@.len(),
                canon_pos(self.items@, ts@, f@, i as int) is None,
            decreases self.items@.len() - i,
        {
            if str_eq(self.items[i].key.source.as_str(), ts) {
                let g = crate::text::fold_case(self.items[i].key.canonical_id.as_str());
                if str_eq(g.as_str(), f.as_str()) {
                    proof {
                        lemma_canon_stable(self.items@, ts@, f@, i + 1, self.items@.len() as int);
                    }
                    return Some(i);
                }
            }
            i += 1;
        }
        None
    }

    fn any_alias(&self, ts: &str, f: &String) -> (r: bool)
        ensures
            r == exists|i: int| 0 <= i < self.catalog_view().len() && self.catalog_view()[i].key.source@ == ts@ && #[trigger] answers_to(self.catalog_view()[i], f@),
    {
        let mut i: usize = 0;
        while i < self.items.len()
            invariant
                i <= self.items@.len(),
                forall|q: int| 0 <= q < i ==> !(self.items@[q].key.source@ == ts@ && #[trigger] answers_to(self.items@[q], f@)),
            decreases self.items@.len() - i,
        {
            if str_eq(self.items[i].key.source.as_str(), ts) && answers_exec(&self.items[i], f) {
                return true;
            }
            i += 1;
        }
        false
    }

    fn resolve_qualified(&self, k: usize, context: &str, reference: &str) -> (r: Result<crate::graph_composition::GraphResolution, crate::graph_composition::GraphLookupError>)
        requires
            k < self.projs@.len(),
            crate::text::contains_seq(reference@, "::"@),
        ensures
            resolution_view(r) == qualified_view(self.catalog_view(), self.projections_view()[k as int], self.topology_view().visibility, context@, reference@),
    {
        proof {
            reveal_strlit("::");
            crate::text::lemma_first_occ_bound(reference@, "::"@, 0);
            let i = choose|i: int| crate::text::occurs_at(reference@, "::"@, i);
        }
        let (q, cid) = match crate::text::split_once_dcolon(reference) {
            Some(p) => p,
            None => {
                proof { assert(false); }
                return Err(crate::graph_composition::GraphLookupError::NotFound);
            },
        };
        if q.as_str().is_empty() || cid.as_str().is_empty() || crate::text::has_dcolon(cid.as_str()) {
            proof {
                assert(q@.len() == 0 || cid@.len() == 0 || crate::text::contains_seq(cid@, "::"@));
            }
            return Err(crate::graph_composition::GraphLookupError::InvalidQualifiedReference);
        }
        proof {
            assert(q@.len() > 0 && cid@.len() > 0);
        }
        let ts: String = if has_slash(q.as_str()) {
            if self.topology.visibility.is_visible(context, q.as_str()) {
                q.clone()
            } else {
                return Err(crate::graph_composition::GraphLookupError::NotFound);
            }
        } else {
            match self.topology.visibility.alias_target(context, q.as_str()) {
                Some(t) => owned(t),
                None => { return Err(crate::graph_composition::GraphLookupError::NotFound); },
            }
        };
        assert(qualifier_target(self.topology.visibility, context@, q@) == Some(ts@));
        let f = crate::text::fold_case(cid.as_str());
        match self.canon_position(ts.as_str(), &f) {
            None => {
                if self.any_alias(ts.as_str(), &f) {
                    Err(crate::graph_composition::GraphLookupError::QualifiedCanonicalRequired)
                } else {
                    Err(crate::graph_composition::GraphLookupError::NotFound)
                }
            },
            Some(i) => {
                match crate::graph_overrides::find_key_exec(&self.items, &self.items[i].key) {
                    None => Err(crate::graph_composition::GraphLookupError::NotFound),
                    Some(o) => match self.terminal_of(k, o) {
                        None => Err(crate::graph_composition::GraphLookupError::NotFound),
                        Some(t) => {
                            let hist = vec![self.items[i].key.dup()];
                            assert(keys_view(hist@) =~= seq![self.items@[i as int].key@]);
                            Ok(crate::graph_composition::GraphResolution {
                                historical_candidates: hist,
                                selected: self.items[i].key.dup(),
                                effective_terminal: self.items[t].key.dup(),
                                qualified: true,
                            })
                        },
                    },
                }
            },
        }
    }

    /// Resolve `reference` with the visibility and aliases of the authoring
    /// source `context`. A qualified reference selects source-owned history;
    /// an unqualified one selects the single effective terminal.
    pub fn resolve_from(&self, context: &str, reference: &str) -> (r: Result<crate::graph_composition::GraphResolution, crate::graph_composition::GraphLookupError>)
        ensures
            resolution_view(r) == self.resolution_spec(context@, reference@),
    {
        let k = match self.node_index(context) {
            Some(k) => k,
            None => { return Err(crate::graph_composition::GraphLookupError::UnknownContext); },
        };
        if crate::text::has_dcolon(reference) {
            return self.resolve_qualified(k, context, reference);
        }
        let f = crate::text::fold_case(reference);
        let vis = match self.topology.visibility.visible_from(context) {
            Some(v) => v,
            None => { return Err(crate::graph_composition::GraphLookupError::UnknownContext); },
        };
        let hist = self.historical_keys(vis, &f);
        if hist.len() == 0 {
            return Err(crate::graph_composition::GraphLookupError::NotFound);
        }
        let eff = self.effective_keys(k, &hist);
        proof {
            assert(Set::new(|x| keys_view(hist@).contains(x)) =~= historical_set(self.catalog_view(), crate::text::views(vis@), f@));
        }
        if eff.len() != 1 {
            return Err(crate::graph_composition::GraphLookupError::Ambiguous { historical_candidates: hist, effective_candidates: eff });
        }
        let t = eff[0].dup();
        let sel = eff[0].dup();
        Ok(crate::graph_composition::GraphResolution { historical_candidates: hist, selected: sel, effective_terminal: t, qualified: false })
    }

    /// Resolve from the root.
    pub fn resolve_public(&self, reference: &str) -> (r: Result<crate::graph_composition::GraphResolution, crate::graph_composition::GraphLookupError>)
        ensures
            resolution_view(r) == self.resolution_spec(self.root_view(), reference@),
    {
        self.resolve_from(self.root_source.as_str(), reference)
    }
}

proof fn lemma_canon_stable(items: Seq<CorpusItem>, s: Seq<char>, f: Seq<char>, a: int, b: int)
    requires
        a <= b,
        canon_pos(items, s, f, a) is Some,
    ensures
        canon_pos(items, s, f, b) == canon_pos(items, s, f, a),
    decreases b - a,
{
    if b > a {
        lemma_canon_stable(items, s, f, a, b - 1);
    }
}

/// Historical keys of the root projection with a different terminal.
pub open spec fn redirect_pairs(items: Seq<CorpusItem>, p: Set<EntryView>) -> Set<((Seq<char>, Seq<char>), (Seq<char>, Seq<char>))> {
    Set::new(|x: ((Seq<char>, Seq<char>), (Seq<char>, Seq<char>))| exists|e: EntryView| #[trigger] p.contains(e)
        && items[e.0].key@ != items[e.1].key@ && x == (items[e.0].key@, items[e.1].key@))
}

/// An artifact takes part in mapping `m`: some route through `m` starts at
/// it or passes one of its replacements through it.
pub open spec fn takes_part(p: Set<EntryView>, reps: Seq<int>, items: Seq<CorpusItem>, a: int, m: int) -> bool {
    exists|e: EntryView| #[trigger] p.contains(e) && e.2.contains(m)
        && (items[e.0].key@ == items[a].key@ || exists|j: int| 0 <= j < e.2.len() && 0 <= e.2[j] < reps.len() && items[reps[e.2[j]]].key@ == items[a].key@)
}

/// How artifact `a` relates to a compiled override.
pub open spec fn state_of(a: (Seq<char>, Seq<char>), c: CompiledOverride) -> crate::graph_composition::GraphOverrideState {
    if a == c.target@ {
        crate::graph_composition::GraphOverrideState::Overridden
    } else if a == c.replacement@ {
        crate::graph_composition::GraphOverrideState::Replacement
    } else {
        crate::graph_composition::GraphOverrideState::Lineage
    }
}

/// The view of a provenance record.
pub open spec fn provenance_view(g: crate::graph_composition::GraphOverrideProvenance) -> (crate::graph_composition::GraphOverrideState, Seq<char>, (Seq<char>, Seq<char>), (Seq<char>, Seq<char>), (Seq<char>, Seq<char>)) {
    (g.state, g.owner_source@, g.target@, g.replacement@, g.rationale@)
}

/// The overrides artifact `a` takes part in, in override order.
pub open spec fn provenance_upto(p: Set<EntryView>, reps: Seq<int>, items: Seq<CorpusItem>, ordered: Seq<CompiledOverride>, a: int, upto: int)
    -> Seq<(crate::graph_composition::GraphOverrideState, Seq<char>, (Seq<char>, Seq<char>), (Seq<char>, Seq<char>), (Seq<char>, Seq<char>))>
    decreases upto,
{
    if upto <= 0 {
        Seq::empty()
    } else {
        let prev = provenance_upto(p, reps, items, ordered, a, upto - 1);
        let m = upto - 1;
        let c = ordered[m];
        if takes_part(p, reps, items, a, m) {
            prev.push((state_of(items[a].key@, c), c.owner_source@, c.target@, c.replacement@, c.rationale@))
        } else {
            prev
        }
    }
}

fn route_has(r: &Vec<usize>, m: usize) -> (b: bool)
    ensures
        b == idx_seq(r@).contains(m as int),
{
    let mut j: usize = 0;
    while j < r.len()
        invariant
            j <= r@.len(),
            forall|q: int| 0 <= q < j ==> r@[q] != m,
        decreases r@.len() - j,
    {
        if r[j] == m {
            assert(idx_seq(r@)[j as int] == m as int);
            return true;
        }
        j += 1;
    }
    false
}

impl GraphComposition {
    /// Historical keys the root redirects, with their terminal, ordered by
    /// historical key.
    pub fn terminal_redirects(&self) -> (r: Vec<(ArtifactKey, ArtifactKey)>)
        ensures
            forall|x| #[trigger] pair_views(r@).contains(x)
                <==> redirect_pairs(self.catalog_view(), self.projections_view()[self.root_pos()]).contains(x),
            forall|a: int, b: int| 0 <= a < b < r@.len() ==> !crate::text::keys_lt(crate::corpus::pair_key(r@[b].0@), crate::corpus::pair_key(r@[a].0@)),
    {
        proof {
            use_type_invariant(self);
        }
        let k = self.topology.root;
        let proj = &self.projs[k];
        let ghost p = self.projections_view()[k as int];
        let ghost f = |e: (ArtifactKey, ArtifactKey)| crate::corpus::pair_key(e.0@);
        let mut keyed: Vec<crate::order::Keyed<(ArtifactKey, ArtifactKey)>> = Vec::new();
        let mut i: usize = 0;
        while i < proj.len()
            invariant
                i <= proj@.len(),
                *proj == self.projs@[k as int],
                p == entry_set(proj@),
                set_bounded(p, self.items@.len() as int),
                f == (|e: (ArtifactKey, ArtifactKey)| crate::corpus::pair_key(e.0@)),
                forall|q: int| 0 <= q < keyed@.len() ==> (#[trigger] keyed@[q]).sort_key() == f(keyed@[q].value),
                forall|x| #[trigger] pair_views(crate::order::keyed_values(keyed@)).contains(x) <==>
                    exists|q: int| 0 <= q < i && self.items@[proj@[q].origin as int].key@ != self.items@[proj@[q].terminal as int].key@
                        && x == (self.items@[proj@[q].origin as int].key@, self.items@[proj@[q].terminal as int].key@),
            decreases proj@.len() - i,
        {
            let e = &proj[i];
            assert(p.contains(entry_view(proj@[i as int])));
            let o = &self.items[e.origin].key;
            let t = &self.items[e.terminal].key;
            let ghost before = pair_views(crate::order::keyed_values(keyed@));
            if !o.same(t) {
                let key = vec![o.source.clone(), o.canonical_id.clone()];
                let ghost kb = keyed@;
                keyed.push(crate::order::Keyed { key, value: (o.dup(), t.dup()) });
                proof {
                    assert(crate::order::strings_view(keyed@[keyed@.len() - 1].key@) =~= crate::corpus::pair_key(o@));
                    assert(pair_views(crate::order::keyed_values(keyed@)) =~= before.push((o@, t@)));
                }
            }
            proof {
                let now = pair_views(crate::order::keyed_values(keyed@));
                assert forall|x| #[trigger] now.contains(x) <==>
                    exists|q: int| 0 <= q < i + 1 && self.items@[proj@[q].origin as int].key@ != self.items@[proj@[q].terminal as int].key@
                        && x == (self.items@[proj@[q].origin as int].key@, self.items@[proj@[q].terminal as int].key@) by {
                    if now.contains(x) && !before.contains(x) {
                        let u = choose|u: int| 0 <= u < now.len() && now[u] == x;
                        if u < before.len() {
                            assert(before[u] == x);
                        }
                    }
                    if before.contains(x) {
                        let u = choose|u: int| 0 <= u < before.len() && before[u] == x;
                        assert(now[u] == x);
                    }
                    if exists|q: int| 0 <= q < i + 1 && self.items@[proj@[q].origin as int].key@ != self.items@[proj@[q].terminal as int].key@
                        && x == (self.items@[proj@[q].origin as int].key@, self.items@[proj@[q].terminal as int].key@) {
                        let q = choose|q: int| 0 <= q < i + 1 && self.items@[proj@[q].origin as int].key@ != self.items@[proj@[q].terminal as int].key@
                            && x == (self.items@[proj@[q].origin as int].key@, self.items@[proj@[q].terminal as int].key@);
                        if q == i {
                            assert(now[before.len() as int] == x);
                        }
                    }
                }
            }
            i += 1;
        }
        let ghost kv = crate::order::keyed_values(keyed@);
        let r = crate::order::sort_keyed(keyed, Ghost(f));
        proof {
            assert forall|x| #[trigger] pair_views(r@).contains(x)
                <==> redirect_pairs(self.items@, p).contains(x) by {
                let rv = pair_views(r@);
                if rv.contains(x) {
                    let u = choose|u: int| 0 <= u < rv.len() && rv[u] == x;
                    assert(r@.contains(r@[u]));
                    assert(kv.contains(r@[u]));
                    let w = choose|w: int| 0 <= w < kv.len() && kv[w] == r@[u];
                    assert(pair_views(kv)[w] == x);
                    assert(pair_views(kv).contains(x));
                    let q = choose|q: int| 0 <= q < proj@.len() && self.items@[proj@[q].origin as int].key@ != self.items@[proj@[q].terminal as int].key@
                        && x == (self.items@[proj@[q].origin as int].key@, self.items@[proj@[q].terminal as int].key@);
                    assert(p.contains(entry_view(proj@[q])));
                }
                if redirect_pairs(self.items@, p).contains(x) {
                    let e = choose|e: EntryView| #[trigger] p.contains(e) && self.items@[e.0].key@ != self.items@[e.1].key@ && x == (self.items@[e.0].key@, self.items@[e.1].key@);
                    let q = choose|q: int| 0 <= q < proj@.len() && entry_view(#[trigger] proj@[q]) == e;
                    assert(pair_views(kv).contains(x));
                    let w = choose|w: int| 0 <= w < kv.len() && pair_views(kv)[w] == x;
                    assert(kv.contains(kv[w]));
                    assert(r@.contains(kv[w]));
                    let u = choose|u: int| 0 <= u < r@.len() && r@[u] == kv[w];
                    assert(rv[u] == x);
                }
            }
            assert forall|a: int, b: int| 0 <= a < b < r@.len() implies !crate::text::keys_lt(crate::corpus::pair_key(r@[b].0@), crate::corpus::pair_key(r@[a].0@)) by {
                assert(f(r@[a]) == crate::corpus::pair_key(r@[a].0@));
                assert(f(r@[b]) == crate::corpus::pair_key(r@[b].0@));
            }
        }
        r
    }

    /// The overrides an artifact took part in, in override order; `None`
    /// when the catalog has no such artifact.
    pub fn provenance_for(&self, key: &ArtifactKey) -> (r: Option<Vec<crate::graph_composition::GraphOverrideProvenance>>)
        ensures
            match r {
                None => crate::graph_overrides::find_key(self.catalog_view(), key@) is None,
                Some(v) => crate::graph_overrides::find_key(self.catalog_view(), key@) matches Some(a)
                    && Seq::new(v@.len(), |i: int| provenance_view(v@[i])) == provenance_upto(self.projections_view()[self.root_pos()],
                        self.reps_view(), self.catalog_view(), self.ordered_view(), a, self.ordered_view().len() as int),
            },
    {
        proof {
            use_type_invariant(self);
        }
        let a = match crate::graph_overrides::find_key_exec(&self.items, key) {
            None => { return None; },
            Some(a) => a,
        };
        let k = self.topology.root;
        let proj = &self.projs[k];
        let ghost p = self.projections_view()[k as int];
        let mut out: Vec<crate::graph_composition::GraphOverrideProvenance> = Vec::new();
        let mut m: usize = 0;
        while m < self.ordered.len()
            invariant
                m <= self.ordered@.len(),
                a < self.items@.len(),
                *proj == self.projs@[k as int],
                p == entry_set(proj@),
                k == self.topology.root,
                set_bounded(p, self.items@.len() as int),
                self.reps@.len() == self.ordered@.len(),
                forall|q: int| 0 <= q < self.reps@.len() ==> (#[trigger] self.reps@[q]) < self.items@.len(),
                Seq::new(out@.len(), |i: int| provenance_view(out@[i])) == provenance_upto(p, idx_seq(self.reps@), self.items@, self.ordered@, a as int, m as int),
            decreases self.ordered@.len() - m,
        {
            let part = self.takes_part_exec(proj, a, m);
            if part {
                let c = &self.ordered[m];
                let here = &self.items[a].key;
                let state = if here.same(&c.target) {
                    crate::graph_composition::GraphOverrideState::Overridden
                } else if here.same(&c.replacement) {
                    crate::graph_composition::GraphOverrideState::Replacement
                } else {
                    crate::graph_composition::GraphOverrideState::Lineage
                };
                let ghost before = out@;
                out.push(crate::graph_composition::GraphOverrideProvenance {
                    state,
                    owner_source: c.owner_source.clone(),
                    target: c.target.dup(),
                    replacement: c.replacement.dup(),
                    rationale: c.rationale.dup(),
                });
                proof {
                    assert(Seq::new(out@.len(), |i: int| provenance_view(out@[i])) =~= Seq::new(before.len(), |i: int| provenance_view(before[i])).push(
                        (state_of(self.items@[a as int].key@, self.ordered@[m as int]), c.owner_source@, c.target@, c.replacement@, c.rationale@)));
                }
            }
            m += 1;
        }
        Some(out)
    }

    fn takes_part_exec(&self, proj: &Vec<Entry>, a: usize, m: usize) -> (r: bool)
        requires
            set_bounded(entry_set(proj@), self.items@.len() as int),
            a < self.items@.len(),
            forall|q: int| 0 <= q < self.reps@.len() ==> (#[trigger] self.reps@[q]) < self.items@.len(),
        ensures
            r == takes_part(entry_set(proj@), idx_seq(self.reps@), self.items@, a as int, m as int),
    {
        let ghost p = entry_set(proj@);
        let ghost rv = idx_seq(self.reps@);
        let mut i: usize = 0;
        while i < proj.len()
            invariant
                i <= proj@.len(),
                p == entry_set(proj@),
                rv == idx_seq(self.reps@),
                set_bounded(p, self.items@.len() as int),
                a < self.items@.len(),
                forall|q: int| 0 <= q < self.reps@.len() ==> (#[trigger] self.reps@[q]) < self.items@.len(),
                forall|q: int| 0 <= q < i ==> !(idx_seq(proj@[q].route@).contains(m as int)
                    && (self.items@[proj@[q].origin as int].key@ == self.items@[a as int].key@
                        || exists|j: int| 0 <= j < proj@[q].route@.len() && 0 <= idx_seq(proj@[q].route@)[j] < rv.len() && self.items@[rv[idx_seq(proj@[q].route@)[j]]].key@ == self.items@[a as int].key@)),
            decreases proj@.len() - i,
        {
            let e = &proj[i];
            assert(p.contains(entry_view(proj@[i as int])));
            if route_has(&e.route, m) {
                if self.items[e.origin].key.same(&self.items[a].key) {
                    proof {
                        assert(takes_part(p, rv, self.items@, a as int, m as int)) by {
                            assert(p.contains(entry_view(proj@[i as int])));
                        }
                    }
                    return true;
                }
                let mut j: usize = 0;
                while j < e.route.len()
                    invariant
                        j <= e.route@.len(),
                        *e == proj@[i as int],
                        i < proj@.len(),
                        p == entry_set(proj@),
                        idx_seq(e.route@).contains(m as int),
                        rv == idx_seq(self.reps@),
                        forall|q: int| 0 <= q < self.reps@.len() ==> (#[trigger] self.reps@[q]) < self.items@.len(),
                        a < self.items@.len(),
                        forall|q: int| 0 <= q < j ==> !(0 <= idx_seq(e.route@)[q] < rv.len() && self.items@[rv[idx_seq(e.route@)[q]]].key@ == self.items@[a as int].key@),
                    decreases e.route@.len() - j,
                {
                    let rm = e.route[j];
                    if rm < self.reps.len() {
                        let rp = self.reps[rm];
                        assert(rv[rm as int] == rp as int);
                        if self.items[rp].key.same(&self.items[a].key) {
                            proof {
                                assert(idx_seq(e.route@)[j as int] == rm as int);
                                let ev = entry_view(proj@[i as int]);
                                assert(p.contains(ev));
                                assert(ev.2 == idx_seq(e.route@));
                                assert(0 <= ev.2[j as int] < rv.len());
                                assert(self.items@[rv[ev.2[j as int]]].key@ == self.items@[a as int].key@);
                                assert(takes_part(p, rv, self.items@, a as int, m as int));
                            }
                            return true;
                        }
                    }
                    j += 1;
                }
            }
            i += 1;
        }
        proof {
            if takes_part(p, rv, self.items@, a as int, m as int) {
                let e = choose|e: EntryView| #[trigger] p.contains(e) && e.2.contains(m as int)
                    && (self.items@[e.0].key@ == self.items@[a as int].key@ || exists|j: int| 0 <= j < e.2.len() && 0 <= e.2[j] < rv.len() && self.items@[rv[e.2[j]]].key@ == self.items@[a as int].key@);
                let q = choose|q: int| 0 <= q < proj@.len() && entry_view(#[trigger] proj@[q]) == e;
            }
        }
        false
    }
}

/// The key views of key pairs.
pub open spec fn pair_views(v: Seq<(ArtifactKey, ArtifactKey)>) -> Seq<((Seq<char>, Seq<char>), (Seq<char>, Seq<char>))> {
    Seq::new(v.len(), |i: int| (v[i].0@, v[i].1@))
}

/// The view of a relationship endpoint.
pub type RelationshipView = ((Seq<char>, Seq<char>), Seq<char>, Seq<char>, Seq<(Seq<char>, Seq<char>)>, Option<(Seq<char>, Seq<char>)>, Option<crate::graph_composition::GraphRelationshipIssue>, bool);

pub open spec fn relationship_view(g: crate::graph_composition::GraphRelationship) -> RelationshipView {
    (g.source@, g.relationship@, g.authored_token@, keys_view(g.historical_candidates@),
        match g.effective_terminal { Some(k) => Some(k@), None => None }, g.issue, g.external)
}

pub open spec fn relationship_views(v: Seq<crate::graph_composition::GraphRelationship>) -> Seq<RelationshipView> {
    Seq::new(v.len(), |i: int| relationship_view(v[i]))
}

impl GraphComposition {
    /// The root's terminal for a key, as a key.
    pub open spec fn root_terminal(self, k: (Seq<char>, Seq<char>)) -> Option<(Seq<char>, Seq<char>)> {
        match crate::graph_overrides::find_key(self.catalog_view(), k) {
            None => None,
            Some(o) => match terminal_for(self.projections_view()[self.root_pos()], o) {
                None => None,
                Some(t) => Some(self.catalog_view()[t].key@),
            },
        }
    }

    /// One endpoint of a declared relationship. Historical candidates keep
    /// the authored meaning; the effective terminal is the live answer, at
    /// the root when `root_eff`.
    pub open spec fn endpoint(self, it: CorpusItem, rel: crate::item::DeclaredRelationship, token: Seq<char>, root_eff: bool) -> RelationshipView {
        if rel.external {
            (it.key@, rel.relationship@, token, Seq::empty(), None, None, true)
        } else {
            let base: (Seq<(Seq<char>, Seq<char>)>, Option<(Seq<char>, Seq<char>)>, Option<crate::graph_composition::GraphRelationshipIssue>) =
                match self.resolution_spec(it.key.source@, token) {
                    Ok(res) => (res.0, Some(res.2), None),
                    Err(e) => if e.0 == 4 {
                        (e.1, None, Some(crate::graph_composition::GraphRelationshipIssue::TargetAmbiguous))
                    } else {
                        (Seq::empty(), None, Some(crate::graph_composition::GraphRelationshipIssue::TargetNotFound))
                    },
                };
            let term = if root_eff {
                match base.1 {
                    Some(t) => self.root_terminal(t),
                    None => None,
                }
            } else {
                base.1
            };
            if term == Some(it.key@) {
                (it.key@, rel.relationship@, token, base.0, None, Some(crate::graph_composition::GraphRelationshipIssue::SelfReference), false)
            } else {
                (it.key@, rel.relationship@, token, base.0, term, base.2, false)
            }
        }
    }

    /// The endpoints of one item, relationship by relationship; none for an
    /// item that matched no artifact specification.
    pub open spec fn item_endpoints(self, it: CorpusItem, root_eff: bool) -> Seq<RelationshipView> {
        if it.spec_name is None {
            Seq::empty()
        } else {
            Seq::new(it.relationships@.len(), |k: int| Seq::new(it.relationships@[k].references@.len(),
                |j: int| self.endpoint(it, it.relationships@[k], it.relationships@[k].references@[j]@, root_eff))).flatten_alt()
        }
    }

    fn endpoint_exec(&self, it: &CorpusItem, rel: &crate::item::DeclaredRelationship, token: &String, root_eff: bool) -> (r: crate::graph_composition::GraphRelationship)
        ensures
            relationship_view(r) == self.endpoint(*it, *rel, token@, root_eff),
    {
        proof {
            use_type_invariant(self);
        }
        if rel.external {
            let r = crate::graph_composition::GraphRelationship {
                source: it.key.dup(),
                relationship: rel.relationship.clone(),
                authored_token: token.clone(),
                historical_candidates: Vec::new(),
                effective_terminal: None,
                issue: None,
                external: true,
            };
            assert(keys_view(r.historical_candidates@) =~= Seq::<(Seq<char>, Seq<char>)>::empty());
            return r;
        }
        let res = self.resolve_from(it.key.source.as_str(), token.as_str());
        let ghost rv = resolution_view(res);
        let ghost base: (Seq<(Seq<char>, Seq<char>)>, Option<(Seq<char>, Seq<char>)>, Option<crate::graph_composition::GraphRelationshipIssue>) =
            match rv {
                Ok(x) => (x.0, Some(x.2), None),
                Err(e) => if e.0 == 4 {
                    (e.1, None, Some(crate::graph_composition::GraphRelationshipIssue::TargetAmbiguous))
                } else {
                    (Seq::empty(), None, Some(crate::graph_composition::GraphRelationshipIssue::TargetNotFound))
                },
            };
        let (hist, term, issue): (Vec<ArtifactKey>, Option<ArtifactKey>, Option<crate::graph_composition::GraphRelationshipIssue>) = match res {
            Ok(g) => (g.historical_candidates, Some(g.effective_terminal), None),
            Err(crate::graph_composition::GraphLookupError::Ambiguous { historical_candidates, effective_candidates }) =>
                (historical_candidates, None, Some(crate::graph_composition::GraphRelationshipIssue::TargetAmbiguous)),
            Err(_) => {
                let none: Vec<ArtifactKey> = Vec::new();
                assert(keys_view(none@) =~= Seq::<(Seq<char>, Seq<char>)>::empty());
                (none, None, Some(crate::graph_composition::GraphRelationshipIssue::TargetNotFound))
            },
        };
        assert(keys_view(hist@) == base.0);
        assert(issue == base.2);
        assert(match term { Some(k) => Some(k@), None => None } == base.1);
        proof {
            crate::graph_topology::lemma_src_index_pub(self.topology.nodes@, self.topology.root as int);
            assert(self.node_of(self.root_source@) == Some(self.root_pos()));
        }
        let term2: Option<ArtifactKey> = if root_eff {
            match term {
                Some(t) => match self.terminal_from(self.root_source.as_str(), &t) {
                    Some(k) => Some(k.dup()),
                    None => None,
                },
                None => None,
            }
        } else {
            term
        };
        let ghost spec_term = if root_eff {
            match base.1 {
                Some(t) => self.root_terminal(t),
                None => None,
            }
        } else {
            base.1
        };
        assert(match term2 { Some(k) => Some(k@), None => None } == spec_term);
        let selfref = match &term2 {
            Some(k) => k.same(&it.key),
            None => false,
        };
        if selfref {
            crate::graph_composition::GraphRelationship {
                source: it.key.dup(),
                relationship: rel.relationship.clone(),
                authored_token: token.clone(),
                historical_candidates: hist,
                effective_terminal: None,
                issue: Some(crate::graph_composition::GraphRelationshipIssue::SelfReference),
                external: false,
            }
        } else {
            crate::graph_composition::GraphRelationship {
                source: it.key.dup(),
                relationship: rel.relationship.clone(),
                authored_token: token.clone(),
                historical_candidates: hist,
                effective_terminal: term2,
                issue,
                external: false,
            }
        }
    }
}

proof fn lemma_flatten_step<A>(s: Seq<Seq<A>>, k: int)
    requires
        0 <= k < s.len(),
    ensures
        s.take(k + 1).flatten_alt() == s.take(k).flatten_alt() + s[k],
{
    assert(s.take(k + 1).drop_last() =~= s.take(k));
}

impl GraphComposition {
    /// Append the endpoints of one item.
    fn push_item_endpoints(&self, it: &CorpusItem, root_eff: bool, out: &mut Vec<crate::graph_composition::GraphRelationship>)
        ensures
            relationship_views(final(out)@) == relationship_views(old(out)@) + self.item_endpoints(*it, root_eff),
    {
        let ghost start = relationship_views(out@);
        if it.spec_name.is_none() {
            assert(relationship_views(out@) =~= start + self.item_endpoints(*it, root_eff));
            return;
        }
        let ghost s = Seq::new(it.relationships@.len(), |k: int| Seq::new(it.relationships@[k].references@.len(),
            |j: int| self.endpoint(*it, it.relationships@[k], it.relationships@[k].references@[j]@, root_eff)));
        let mut k: usize = 0;
        while k < it.relationships.len()
            invariant
                k <= it.relationships@.len(),
                s.len() == it.relationships@.len(),
                s == Seq::new(it.relationships@.len(), |k: int| Seq::new(it.relationships@[k].references@.len(),
                    |j: int| self.endpoint(*it, it.relationships@[k], it.relationships@[k].references@[j]@, root_eff))),
                relationship_views(out@) == start + s.take(k as int).flatten_alt(),
            decreases it.relationships@.len() - k,
        {
            let rel = &it.relationships[k];
            let ghost mid = relationship_views(out@);
            let mut j: usize = 0;
            while j < rel.references.len()
                invariant
                    k < it.relationships@.len(),
                    *rel == it.relationships@[k as int],
                    j <= rel.references@.len(),
                    relationship_views(out@) == mid + s[k as int].take(j as int),
                    s[k as int] == Seq::new(rel.references@.len(), |j: int| self.endpoint(*it, *rel, rel.references@[j]@, root_eff)),
                decreases rel.references@.len() - j,
            {
                let ghost before = relationship_views(out@);
                let e = self.endpoint_exec(it, rel, &rel.references[j], root_eff);
                out.push(e);
                proof {
                    assert(relationship_views(out@) =~= before.push(relationship_view(e)));
                    assert(s[k as int].take(j + 1) =~= s[k as int].take(j as int).push(s[k as int][j as int]));
                }
                j += 1;
            }
            proof {
                assert(s[k as int].take(j as int) =~= s[k as int]);
                lemma_flatten_step(s, k as int);
            }
            k += 1;
        }
        proof {
            assert(s.take(s.len() as int) =~= s);
        }
    }

    /// Every relationship endpoint of the catalog, item by item, resolved in
    /// its authoring source.
    pub fn catalog_relationships(&self) -> (r: Vec<crate::graph_composition::GraphRelationship>)
        ensures
            relationship_views(r@) == Seq::new(self.catalog_view().len(), |i: int| self.item_endpoints(self.catalog_view()[i], false)).flatten_alt(),
    {
        let ghost s = Seq::new(self.items@.len(), |i: int| self.item_endpoints(self.items@[i], false));
        let mut out: Vec<crate::graph_composition::GraphRelationship> = Vec::new();
        let mut i: usize = 0;
        while i < self.items.len()
            invariant
                i <= self.items@.len(),
                s == Seq::new(self.items@.len(), |i: int| self.item_endpoints(self.items@[i], false)),
                relationship_views(out@) == s.take(i as int).flatten_alt(),
            decreases self.items@.len() - i,
        {
            self.push_item_endpoints(&self.items[i], false, &mut out);
            proof {
                lemma_flatten_step(s, i as int);
            }
            i += 1;
        }
        proof {
            assert(s.take(s.len() as int) =~= s);
        }
        out
    }

    /// Every relationship endpoint of the root-effective view, with live
    /// terminals taken at the root.
    pub fn effective_relationships(&self) -> (r: Vec<crate::graph_composition::GraphRelationship>)
        ensures
            ({
                let eff = items_in(self.catalog_view(), crate::graph_projection::live(self.projections_view()[self.root_pos()]), self.catalog_view().len() as int);
                relationship_views(r@) == Seq::new(eff.len(), |i: int| self.item_endpoints(eff[i], true)).flatten_alt()
            }),
    {
        let eff = self.effective();
        let ghost effv = derefs(eff@);
        let ghost s = Seq::new(effv.len(), |i: int| self.item_endpoints(effv[i], true));
        let mut out: Vec<crate::graph_composition::GraphRelationship> = Vec::new();
        let mut i: usize = 0;
        while i < eff.len()
            invariant
                i <= eff@.len(),
                effv == derefs(eff@),
                s == Seq::new(effv.len(), |i: int| self.item_endpoints(effv[i], true)),
                relationship_views(out@) == s.take(i as int).flatten_alt(),
            decreases eff@.len() - i,
        {
            self.push_item_endpoints(eff[i], true, &mut out);
            proof {
                assert(effv[i as int] == *eff@[i as int]);
                lemma_flatten_step(s, i as int);
            }
            i += 1;
        }
        proof {
            assert(s.take(s.len() as int) =~= s);
        }
        out
    }
}

/// In an accepted composition every source's parents come before it in the
/// topological order.
pub proof fn law_parents_precede_children(
    c: GraphComposition,
    nodes: Seq<SourceNodeInput>,
    root: Seq<char>,
    items: Seq<CorpusItem>,
    decls: Seq<GraphOverrideDeclaration>,
    t: int,
    j: int,
)
    requires
        composed_from(c, nodes, root, items, decls),
        0 <= t < c.topology_view().order@.len(),
        0 <= j < c.topology_view().nodes@[c.topology_view().order@[t] as int].direct_parents@.len(),
    ensures
        exists|u: int| 0 <= u < t && c.topology_view().nodes@[c.topology_view().order@[u] as int].source@
            == c.topology_view().nodes@[c.topology_view().order@[t] as int].direct_parents@[j].source@,
{
    let tp = c.topology_view();
    let kept = tp.nodes@;
    let g = graph_of(kept);
    let ord = idx_seq(tp.order@);
    assert(crate::graph_topology::parents_first(g, ord));
    assert(ord[t] == tp.order@[t] as int);
    let k = ord[t];
    assert(0 <= k < g.len());
    assert(g[k][j] == crate::graph_topology::src_index(kept, kept[k].direct_parents@[j].source@));
    assert(crate::graph_topology::placed_before(ord, t, g[k][j]));
    let u = choose|u: int| 0 <= u < t && ord[u] == g[k][j];
    assert(crate::graph_topology::declares(kept, kept[k].direct_parents@[j].source@)) by {
        assert(crate::graph_topology::edges_known_pub(kept));
    }
    assert(kept[ord[u]].source@ == kept[k].direct_parents@[j].source@);
    assert(ord[u] == tp.order@[u] as int);
}

/// Every node reachable from `start` within `k` parent steps is placed at or
/// before `start`'s position `ts` in a parents-first order.
proof fn lemma_reach_placed_before(g: Seq<Seq<int>>, order: Seq<int>, start: int, ts: int, k: nat)
    requires
        crate::graph_topology::parents_first(g, order),
        0 <= ts < order.len(),
        order[ts] == start,
    ensures
        forall|q: int| #[trigger] crate::graph_topology::reach(g, start, k).contains(q) ==> exists|u: int| 0 <= u <= ts && order[u] == q,
    decreases k,
{
    if k > 0 {
        lemma_reach_placed_before(g, order, start, ts, (k - 1) as nat);
        let prev = crate::graph_topology::reach(g, start, (k - 1) as nat);
        assert forall|q: int| #[trigger] crate::graph_topology::reach(g, start, k).contains(q) implies exists|u: int| 0 <= u <= ts && order[u] == q by {
            if !prev.contains(q) {
                let (p, j) = choose|p: int, j: int| prev.contains(p) && 0 <= p < g.len() && 0 <= j < g[p].len() && #[trigger] g[p][j] == q;
                let up = choose|u: int| 0 <= u <= ts && order[u] == p;
                assert(crate::graph_topology::placed_before(order, up, g[order[up]][j]));
                let w = choose|w: int| 0 <= w < up && order[w] == g[order[up]][j];
                assert(order[w] == q);
            }
        }
    }
}

proof fn lemma_lookup_absent<K, V>(table: Seq<(K, V)>, key: K)
    requires
        forall|j: int| 0 <= j < table.len() ==> (#[trigger] table[j]).0 != key,
    ensures
        crate::graph_composition::lookup(table, key) is None,
    decreases table.len(),
{
    if table.len() > 0 {
        let rest = table.drop_first();
        assert forall|j: int| 0 <= j < rest.len() implies (#[trigger] rest[j]).0 != key by {
            assert(rest[j] == table[j + 1]);
        }
        lemma_lookup_absent(rest, key);
    }
}

/// In an accepted composition only the graph's sources are visibility
/// contexts: a source that is no node sees nothing.
pub proof fn law_only_nodes_see_sources(
    c: GraphComposition,
    nodes: Seq<SourceNodeInput>,
    root: Seq<char>,
    items: Seq<CorpusItem>,
    decls: Seq<GraphOverrideDeclaration>,
    x: Seq<char>,
)
    requires
        composed_from(c, nodes, root, items, decls),
        forall|k: int| 0 <= k < c.topology_view().nodes@.len() ==> (#[trigger] c.topology_view().nodes@[k]).source@ != x,
    ensures
        crate::graph_composition::lookup(c.topology_view().visibility.visible_view(), x) is None,
{
    let table = c.topology_view().visibility.visible_view();
    let kept = c.topology_view().nodes@;
    assert forall|j: int| 0 <= j < table.len() implies (#[trigger] table[j]).0 != x by {
        assert(table[j].0 == kept[j].source@);
    }
    lemma_lookup_absent(table, x);
}

proof fn lemma_no_earlier_canon(s: Seq<CorpusItem>, kept: Seq<SourceNodeInput>, root: Seq<char>, i: int, upto: int, k: int)
    requires
        crate::graph_items::last_canon(s, kept, root, i, upto) is None,
        0 <= k < upto,
    ensures
        !(crate::graph_items::first_of_key(s, kept, root, k) && crate::graph_items::canon_of(s[k]) == crate::graph_items::canon_of(s[i])),
    decreases upto,
{
    if k < upto - 1 {
        lemma_no_earlier_canon(s, kept, root, i, upto - 1, k);
    }
}

/// In an accepted composition every catalog item belongs to a graph source
/// and agrees on it in its key, origin and path; it is local exactly when
/// it belongs to the root; and no two items share a key, or a source and a
/// case-folded canonical id.
pub proof fn law_catalog_items_agree(
    c: GraphComposition,
    nodes: Seq<SourceNodeInput>,
    root: Seq<char>,
    items: Seq<CorpusItem>,
    decls: Seq<GraphOverrideDeclaration>,
    i: int,
    j: int,
)
    requires
        composed_from(c, nodes, root, items, decls),
        0 <= i < j < c.catalog_view().len(),
    ensures
        crate::graph_topology::declares(c.topology_view().nodes@, c.catalog_view()[i].key.source@),
        c.catalog_view()[i].key.source@ == c.catalog_view()[i].origin.source@,
        c.catalog_view()[i].key.source@ == c.catalog_view()[i].artifact_path.source@,
        (c.catalog_view()[i].origin.layer == crate::corpus::Layer::Local) <==> (c.catalog_view()[i].key.source@ == root),
        c.catalog_view()[i].key@ != c.catalog_view()[j].key@,
        crate::graph_items::canon_of(c.catalog_view()[i]) != crate::graph_items::canon_of(c.catalog_view()[j]),
{
    let s = c.catalog_view();
    let kept = c.topology_view().nodes@;
    assert(c.root_view() == root);
    assert forall|k: int| 0 <= k < s.len() implies #[trigger] crate::graph_items::item_refusal(s, kept, root, k) is None by {
        if crate::graph_items::item_refusal(s, kept, root, k) is Some {
            let x = crate::graph_items::item_refusal(s, kept, root, k)->Some_0;
            assert(item_finding(s, kept, root, x));
        }
    }
    assert(crate::graph_items::item_refusal(s, kept, root, i) is None);
    assert(crate::graph_items::item_refusal(s, kept, root, j) is None);
    assert(crate::graph_items::first_of_key(s, kept, root, i));
    assert(crate::graph_items::first_of_key(s, kept, root, j));
    assert(crate::graph_items::last_canon(s, kept, root, j, j) is None);
    lemma_no_earlier_canon(s, kept, root, j, j, i);
}

/// In an accepted composition every override declaration names a target
/// and a replacement in the catalog; the target has a specification and the
/// replacement has the same one; the rationale is a live decision; the
/// owner is a graph source, and the replacement and rationale are its own.
pub proof fn law_overrides_keep_the_target_type(
    c: GraphComposition,
    nodes: Seq<SourceNodeInput>,
    root: Seq<char>,
    items: Seq<CorpusItem>,
    decls: Seq<GraphOverrideDeclaration>,
    i: int,
)
    requires
        composed_from(c, nodes, root, items, decls),
        0 <= i < decls.len(),
    ensures
        ({
            let s = c.catalog_view();
            let x = decls[i];
            &&& crate::graph_overrides::find_key(s, x.target@) matches Some(t)
            &&& crate::graph_overrides::find_key(s, x.replacement@) matches Some(r)
            &&& crate::graph_overrides::find_key(s, x.rationale@) matches Some(q)
            &&& s[t].spec_name is Some
            &&& crate::corpus::opt_view(s[t].spec_name) == crate::corpus::opt_view(s[r].spec_name)
            &&& crate::corpus::opt_view(s[q].spec_name) == Some("decision"@)
            &&& s[q].live_decision
            &&& crate::graph_topology::declares(c.topology_view().nodes@, x.owner_source@)
            &&& x.replacement.source@ == x.owner_source@
            &&& x.rationale.source@ == x.owner_source@
        }),
{
    let kept = c.topology_view().nodes@;
    let s = c.catalog_view();
    let d = c.decls_view();
    vstd::seq_lib::to_multiset_contains(decls, decls[i]);
    assert(decls.contains(decls[i]));
    assert(d.to_multiset().count(decls[i]) > 0);
    vstd::seq_lib::to_multiset_contains(d, decls[i]);
    let j = choose|j: int| 0 <= j < d.len() && d[j] == decls[i];
    if crate::graph_overrides::decl_refusal(d, kept, s, j) is Some {
        let x = crate::graph_overrides::decl_refusal(d, kept, s, j)->Some_0;
        assert(override_finding(d, kept, s, x));
    }
    assert(crate::graph_overrides::decl_refusal(d, kept, s, j) is None);
    crate::graph_overrides::lemma_find_key_found(s, decls[i].target@);
    crate::graph_overrides::lemma_find_key_found(s, decls[i].replacement@);
    crate::graph_overrides::lemma_find_key_found(s, decls[i].rationale@);
}

/// Node position `k` occurs in `order`.
pub open spec fn placed(order: Seq<usize>, k: int) -> bool {
    exists|u: int| 0 <= u < order.len() && order[u] as int == k
}

/// In an accepted composition the topological order lists every source once
/// and ends with the root, which every source is reachable from.
pub proof fn law_topological_order_ends_at_root(
    c: GraphComposition,
    nodes: Seq<SourceNodeInput>,
    root: Seq<char>,
    items: Seq<CorpusItem>,
    decls: Seq<GraphOverrideDeclaration>,
)
    requires
        composed_from(c, nodes, root, items, decls),
    ensures
        c.topology_view().order@.len() == c.topology_view().nodes@.len(),
        c.topology_view().nodes@.len() > 0,
        c.topology_view().nodes@[c.topology_view().order@[c.topology_view().order@.len() - 1] as int].source@ == root,
        forall|a: int, b: int| 0 <= a < b < c.topology_view().order@.len() ==>
            c.topology_view().nodes@[#[trigger] c.topology_view().order@[a] as int].source@
                != c.topology_view().nodes@[#[trigger] c.topology_view().order@[b] as int].source@,
        forall|k: int| 0 <= k < c.topology_view().nodes@.len() ==> #[trigger] placed(c.topology_view().order@, k),
{
    let tp = c.topology_view();
    let kept = tp.nodes@;
    let g = graph_of(kept);
    let ord = idx_seq(tp.order@);
    let n = kept.len() as int;
    assert(crate::graph_topology::parents_first(g, ord));
    assert(0 <= tp.root < n);
    assert(ord.contains(tp.root as int)) by {
        assert(crate::graph_topology::topo_order(g).contains(tp.root as int));
    }
    let tr = choose|t: int| 0 <= t < ord.len() && ord[t] == tp.root as int;
    lemma_reach_placed_before(g, ord, tp.root as int, tr, g.len());
    let last = ord[n - 1];
    assert(0 <= last < n);
    assert(crate::graph_topology::reachable(g, tp.root as int).contains(last));
    let u = choose|u: int| 0 <= u <= tr && ord[u] == last;
    assert(u == n - 1);
    assert(tr == n - 1);
    assert forall|a: int, b: int| 0 <= a < b < tp.order@.len() implies
        kept[#[trigger] tp.order@[a] as int].source@ != kept[#[trigger] tp.order@[b] as int].source@ by {
        let x = tp.order@[a] as int;
        let y = tp.order@[b] as int;
        assert(ord[a] == x && ord[b] == y);
        assert(x != y);
        if x < y {
            assert(crate::text::seq_lt(kept[x].source@, kept[y].source@));
            if kept[x].source@ == kept[y].source@ {
                crate::text::lemma_seq_lt_irreflexive(kept[x].source@);
            }
        } else {
            assert(crate::text::seq_lt(kept[y].source@, kept[x].source@));
            if kept[x].source@ == kept[y].source@ {
                crate::text::lemma_seq_lt_irreflexive(kept[x].source@);
            }
        }
    }
    assert forall|k: int| 0 <= k < n implies #[trigger] placed(tp.order@, k) by {
        assert(crate::graph_topology::topo_order(g).contains(k));
        let u = choose|u: int| 0 <= u < ord.len() && ord[u] == k;
        assert(tp.order@[u] as int == k);
    }
}

proof fn lemma_lookup_at<K, V>(table: Seq<(K, V)>, k: int, key: K)
    requires
        0 <= k < table.len(),
        table[k].0 == key,
        forall|j: int| 0 <= j < k ==> table[j].0 != key,
    ensures
        crate::graph_composition::lookup(table, key) == Some(table[k].1),
    decreases k,
{
    if k > 0 {
        let rest = table.drop_first();
        assert forall|j: int| 0 <= j < k - 1 implies rest[j].0 != key by {
            assert(rest[j] == table[j + 1]);
        }
        lemma_lookup_at(rest, k - 1, key);
    }
}

/// In an accepted composition a source sees exactly itself and the sources
/// reachable through its parents.
pub proof fn law_sources_see_their_ancestors(
    c: GraphComposition,
    nodes: Seq<SourceNodeInput>,
    root: Seq<char>,
    items: Seq<CorpusItem>,
    decls: Seq<GraphOverrideDeclaration>,
    k: int,
    s: Seq<char>,
)
    requires
        composed_from(c, nodes, root, items, decls),
        0 <= k < c.topology_view().nodes@.len(),
    ensures
        crate::graph_composition::lookup(c.topology_view().visibility.visible_view(), c.topology_view().nodes@[k].source@) matches Some(vs)
            && (vs.contains(s) <==> exists|q: int| #[trigger] crate::graph_topology::reachable(graph_of(c.topology_view().nodes@), k).contains(q)
                && 0 <= q < c.topology_view().nodes@.len() && c.topology_view().nodes@[q].source@ == s),
{
    let tp = c.topology_view();
    let kept = tp.nodes@;
    let g = graph_of(kept);
    let table = tp.visibility.visible_view();
    assert(table[k].0 == kept[k].source@);
    assert forall|j: int| 0 <= j < k implies table[j].0 != kept[k].source@ by {
        assert(table[j].0 == kept[j].source@);
        assert(crate::text::seq_lt(kept[j].source@, kept[k].source@));
        crate::text::lemma_seq_lt_irreflexive(kept[k].source@);
    }
    lemma_lookup_at(table, k, kept[k].source@);
    crate::graph_topology::lemma_sources_in(kept, crate::graph_topology::reachable(g, k), kept.len() as int, s);
}

/// An accepted composition leaves no historical artifact with two effective
/// terminals, in any source's projection.
pub proof fn law_no_divergent_terminals(
    c: GraphComposition,
    nodes: Seq<SourceNodeInput>,
    root: Seq<char>,
    items: Seq<CorpusItem>,
    decls: Seq<GraphOverrideDeclaration>,
    k: int,
    o: int,
    t1: int,
    t2: int,
)
    requires
        composed_from(c, nodes, root, items, decls),
        0 <= k < c.topology_view().nodes@.len(),
        crate::graph_projection::terminals_of(c.projections_view()[k], o).contains(t1),
        crate::graph_projection::terminals_of(c.projections_view()[k], o).contains(t2),
    ensures
        t1 == t2,
{
    let tp = c.topology_view();
    let kept = tp.nodes@;
    let g = graph_of(kept);
    let ord = crate::graph_topology::topo_order(g);
    let s = c.catalog_view();
    let d = c.decls_view();
    assert(crate::graph_topology::parents_first(g, ord));
    crate::graph_projection::lemma_run_final(kept, g, ord, s, d, kept.len());
    assert(ord.contains(k));
    let q = choose|q: int| 0 <= q < ord.len() && ord[q] == k;
    let st = run(kept, g, ord, s, d, kept.len());
    let p = st.0[k];
    assert(p == crate::graph_projection::proj_at(kept, g, ord, s, d, q as nat));
    let src = kept[k].source@;
    let stq = run(kept, g, ord, s, d, (q + 1) as nat);
    assert(stq.0[ord[q]] == p);
    crate::graph_projection::lemma_run_step(kept, g, ord, s, d, q as nat);
    assert(crate::graph_projection::divergences(s, src, p).subset_of(stq.2));
    if t1 != t2 {
        let ts = crate::graph_projection::terminals_of(p, o);
        // the projection is finite: it is the entry set of a list
        assert(c.projections_view()[k] == entry_set(c.projs@[k]@));
        let v = c.projs@[k]@;
        let tv = Seq::new(v.len(), |i: int| v[i].terminal as int);
        assert(ts.subset_of(tv.to_set())) by {
            assert forall|t: int| ts.contains(t) implies tv.to_set().contains(t) by {
                let r = choose|r: Seq<int>| p.contains((o, t, r));
                let i = choose|i: int| 0 <= i < v.len() && entry_view(#[trigger] v[i]) == (o, t, r);
                assert(tv[i] == t);
                assert(tv.contains(t));
            }
        }
        vstd::seq_lib::seq_to_set_is_finite(tv);
        vstd::set_lib::lemma_len_subset(ts, tv.to_set());
        assert(set![t1, t2].subset_of(ts));
        vstd::set_lib::lemma_len_subset(set![t1, t2], ts);
        assert(set![t1, t2].len() == 2) by {
            assert(set![t1, t2] =~= set![t1].insert(t2));
        }
        let rr = choose|r: Seq<int>| p.contains((o, t1, r));
        assert(crate::graph_projection::origins_of(p).contains(o));
        let x = crate::graph_projection::divergence_view(s, src, o, ts);
        assert(crate::graph_projection::divergences(s, src, p).contains(x));
        assert(st.2.contains(x));
        assert(projection_finding(kept, s, d, x));
    }
}

/// In an accepted composition every artifact of the root is effective at
/// the root.
pub proof fn law_root_artifacts_are_effective(
    c: GraphComposition,
    nodes: Seq<SourceNodeInput>,
    root: Seq<char>,
    items: Seq<CorpusItem>,
    decls: Seq<GraphOverrideDeclaration>,
    i: int,
)
    requires
        composed_from(c, nodes, root, items, decls),
        0 <= i < c.catalog_view().len(),
        c.catalog_view()[i].key.source@ == root,
    ensures
        crate::graph_projection::live(c.projections_view()[c.topology_view().root as int]).contains(i),
{
    let tp = c.topology_view();
    let kept = tp.nodes@;
    let g = graph_of(kept);
    let ord = crate::graph_topology::topo_order(g);
    let s = c.catalog_view();
    let d = c.decls_view();
    let k = tp.root as int;
    assert(crate::graph_topology::parents_first(g, ord));
    crate::graph_projection::lemma_run_final(kept, g, ord, s, d, kept.len());
    assert(ord.contains(k));
    let q = choose|q: int| 0 <= q < ord.len() && ord[q] == k;
    let st = run(kept, g, ord, s, d, kept.len());
    assert(st.0[k] == crate::graph_projection::proj_at(kept, g, ord, s, d, q as nat));
    crate::graph_projection::lemma_run_step(kept, g, ord, s, d, q as nat);
    assert(crate::graph_projection::locals(s, kept[k].source@).contains((i, i, Seq::<int>::empty())));
    assert(st.0[k].contains((i, i, Seq::<int>::empty())));
}

} // verus!
