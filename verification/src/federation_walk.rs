//! The state of the version-2 edge walk and its three steps per declared
//! edge: entering it (edge limit, sibling roots), accepting its captured
//! parent (source, pin, cycle, divergent pin; the edge, its roots and the
//! active route are recorded, and whether the parent's own declarations
//! still need walking is decided), and leaving it (the physical capture is
//! marked expanded, the route shrinks, and a source seen for the first time
//! is admitted to the closure). Resolving roots, capturing checkouts and
//! recursing into a parent's declarations are the caller's part.
use vstd::prelude::*;

use crate::federation::{ParentCorpusError, ParentCorpusErrorCode, ParentDeclaration, VerifiedFederationEdge};
use crate::federation_graph::{
    add_limited, admit_logical_node, admitted, check_captured_edge, check_siblings, contains_string, edge_refusal,
    first_conflict, node_bytes, CapturedManifestKind, opt_str, overlap_message, verified_pin, CapturedNode, V2_MAX_EDGES,
    V2_MAX_INHERITED_FILES, V2_MAX_INHERITED_SOURCES, V2_MAX_LOGICAL_BYTES,
};
use crate::manifest::limit_message;
use crate::corpus::opt_view;
use crate::text::{keys_lt, owned, str_eq, views};
use crate::order::{keyed_values, lemma_values_multiset, sort_by_key, sorted_unique, strictly_ascending, strings_view, unkey, Keyed, SortKey};
use vstd::multiset::Multiset;

verus! {

/// What the walk has established so far.
pub struct WalkState {
    /// Edges entered, held against `V2_MAX_EDGES`.
    pub edge_count: usize,
    /// Sources on the route from the root to the current edge.
    pub active: Vec<String>,
    /// Each verified logical source with its canonical digest, in the order
    /// they were admitted.
    pub nodes: Vec<(String, String)>,
    /// Physical captures (materialisation root, corpus) whose declarations
    /// were walked.
    pub expanded: Vec<(String, String)>,
    pub logical_files: usize,
    pub logical_bytes: usize,
    /// Every accepted edge, in walk order.
    pub edges: Vec<VerifiedFederationEdge>,
    /// Distinct materialisation roots, in first-seen order.
    pub materialisation_roots: Vec<String>,
    /// Distinct corpus roots, in first-seen order.
    pub corpus_roots: Vec<String>,
}

pub type EdgeView = (Seq<char>, Seq<char>, Seq<char>, Seq<char>, Seq<char>, Seq<char>, Seq<char>, Seq<char>, Seq<char>);

pub open spec fn edge_view(e: VerifiedFederationEdge) -> EdgeView {
    (e.owner_source@, e.alias@, e.target_source@, e.declared_digest@, e.canonical_digest@, e.root@, e.corpus@,
        e.materialisation_root@, e.corpus_root@)
}

pub open spec fn edge_views(v: Seq<VerifiedFederationEdge>) -> Seq<EdgeView> {
    Seq::new(v.len(), |i: int| edge_view(v[i]))
}

pub open spec fn pair_views(v: Seq<(String, String)>) -> Seq<(Seq<char>, Seq<char>)> {
    Seq::new(v.len(), |i: int| (v[i].0@, v[i].1@))
}

/// The walk as plain values.
pub struct WalkView {
    pub edge_count: nat,
    pub active: Seq<Seq<char>>,
    pub nodes: Seq<(Seq<char>, Seq<char>)>,
    pub expanded: Seq<(Seq<char>, Seq<char>)>,
    pub logical_files: nat,
    pub logical_bytes: nat,
    pub edges: Seq<EdgeView>,
    pub materialisation_roots: Seq<Seq<char>>,
    pub corpus_roots: Seq<Seq<char>>,
}

impl WalkState {
    pub open spec fn view_of(self) -> WalkView {
        WalkView {
            edge_count: self.edge_count as nat,
            active: views(self.active@),
            nodes: pair_views(self.nodes@),
            expanded: pair_views(self.expanded@),
            logical_files: self.logical_files as nat,
            logical_bytes: self.logical_bytes as nat,
            edges: edge_views(self.edges@),
            materialisation_roots: views(self.materialisation_roots@),
            corpus_roots: views(self.corpus_roots@),
        }
    }

    /// An empty walk.
    pub fn new() -> (r: Self)
        ensures
            r.view_of() == (WalkView {
                edge_count: 0, active: Seq::empty(), nodes: Seq::empty(), expanded: Seq::empty(),
                logical_files: 0, logical_bytes: 0, edges: Seq::empty(),
                materialisation_roots: Seq::empty(), corpus_roots: Seq::empty(),
            }),
    {
        let r = WalkState {
            edge_count: 0,
            active: Vec::new(),
            nodes: Vec::new(),
            expanded: Vec::new(),
            logical_files: 0,
            logical_bytes: 0,
            edges: Vec::new(),
            materialisation_roots: Vec::new(),
            corpus_roots: Vec::new(),
        };
        assert(r.view_of().active =~= Seq::<Seq<char>>::empty());
        assert(r.view_of().nodes =~= Seq::<(Seq<char>, Seq<char>)>::empty());
        assert(r.view_of().expanded =~= Seq::<(Seq<char>, Seq<char>)>::empty());
        assert(r.view_of().edges =~= Seq::<EdgeView>::empty());
        assert(r.view_of().materialisation_roots =~= Seq::<Seq<char>>::empty());
        assert(r.view_of().corpus_roots =~= Seq::<Seq<char>>::empty());
        r
    }
}

/// The digest a source was first verified with, if it was.
pub open spec fn node_pin(nodes: Seq<(Seq<char>, Seq<char>)>, s: Seq<char>) -> Option<Seq<char>>
    decreases nodes.len(),
{
    if nodes.len() == 0 {
        None
    } else if nodes[0].0 == s {
        Some(nodes[0].1)
    } else {
        node_pin(nodes.drop_first(), s)
    }
}

fn find_pin(nodes: &Vec<(String, String)>, s: &str) -> (r: Option<usize>)
    ensures
        match r {
            Some(i) => i < nodes@.len() && node_pin(pair_views(nodes@), s@) == Some(nodes@[i as int].1@),
            None => node_pin(pair_views(nodes@), s@) is None,
        },
{
    let mut i: usize = 0;
    assert(pair_views(nodes@).skip(0) =~= pair_views(nodes@));
    while i < nodes.len()
        invariant
            i <= nodes@.len(),
            node_pin(pair_views(nodes@), s@) == node_pin(pair_views(nodes@).skip(i as int), s@),
        decreases nodes@.len() - i,
    {
        let ghost rest = pair_views(nodes@).skip(i as int);
        assert(rest[0] == (nodes@[i as int].0@, nodes@[i as int].1@));
        if str_eq(nodes[i].0.as_str(), s) {
            return Some(i);
        }
        assert(rest.drop_first() =~= pair_views(nodes@).skip(i as int + 1));
        i += 1;
    }
    assert(pair_views(nodes@).skip(i as int).len() == 0);
    None
}

fn contains_pair(v: &Vec<(String, String)>, a: &str, b: &str) -> (r: bool)
    ensures
        r == pair_views(v@).contains((a@, b@)),
{
    let mut i: usize = 0;
    while i < v.len()
        invariant
            i <= v@.len(),
            forall|k: int| 0 <= k < i ==> pair_views(v@)[k] != (a@, b@),
        decreases v@.len() - i,
    {
        assert(pair_views(v@)[i as int] == (v@[i as int].0@, v@[i as int].1@));
        if str_eq(v[i].0.as_str(), a) && str_eq(v[i].1.as_str(), b) {
            return true;
        }
        i += 1;
    }
    false
}

/// `v` with `s` added at the end unless it holds it already.
pub open spec fn insert_distinct(v: Seq<Seq<char>>, s: Seq<char>) -> Seq<Seq<char>> {
    if v.contains(s) { v } else { v.push(s) }
}

fn add_distinct(v: &mut Vec<String>, s: &str)
    ensures
        views(final(v)@) == insert_distinct(views(old(v)@), s@),
{
    if !contains_string(v, s) {
        let ghost before = views(v@);
        v.push(owned(s));
        assert(views(v@) =~= before.push(s@));
    }
}

/// Enters one declared edge: counts it against the edge limit (reported at
/// the owner's root), then refuses a materialisation root that overlaps a
/// sibling's. Nothing else of the walk changes.
pub fn begin_edge(state: &mut WalkState, owner_root: &str, materialisation_root: &str, declaration: &ParentDeclaration,
    siblings: &Vec<(String, ParentDeclaration)>) -> (r: Result<(), ParentCorpusError>)
    ensures
        ({
            let o = old(state).view_of();
            let f = final(state).view_of();
            let next = if o.edge_count + 1 > usize::MAX { usize::MAX as nat } else { o.edge_count + 1 };
            &&& f == (WalkView { edge_count: f.edge_count, ..o })
            &&& if next > V2_MAX_EDGES {
                &&& r matches Err(e) && e.code == ParentCorpusErrorCode::LimitExceeded
                    && e.message@ == limit_message("edges"@, V2_MAX_EDGES as nat, (V2_MAX_EDGES + 1) as nat)
                    && (e.path matches Some(p) && p@ == owner_root@)
                &&& f.edge_count == o.edge_count
            } else {
                &&& f.edge_count == next
                &&& match first_conflict(materialisation_root@, *declaration, siblings@, 0) {
                    None => r is Ok,
                    Some(i) => r matches Err(e) && e.code == ParentCorpusErrorCode::OverlappingRoots
                        && e.message@ == overlap_message(siblings@[i].1.source@, declaration.source@)
                        && opt_view(e.path) == Some(materialisation_root@),
                }
            }
        }),
{
    add_limited(&mut state.edge_count, 1, V2_MAX_EDGES, "edges", owner_root)?;
    check_siblings(materialisation_root, declaration, siblings)
}

/// The edge an accepted declaration records.
pub open spec fn accepted_edge(owner_source: Seq<char>, d: ParentDeclaration, c: CapturedNode, materialisation_root: Seq<char>,
    corpus_root: Seq<char>) -> EdgeView
{
    (owner_source, d.alias@, c.source@, d.digest@, c.digest_v2@, d.root@, d.corpus@, materialisation_root, corpus_root)
}

/// Accepts a declared edge once its parent is captured: the checks of
/// `check_captured_edge` against the active route and the pin the source
/// first verified with. On success the edge is recorded, both roots are
/// added if new, the parent's source joins the route, and the result says
/// whether the physical capture `(materialisation_root, corpus)` still needs
/// its own declarations walked. On a refusal nothing changes.
pub fn accept_edge(state: &mut WalkState, owner_source: &str, owner_manifest: &str, owner_is_v1: bool,
    declaration: &ParentDeclaration, materialisation_root: &str, captured: &CapturedNode, corpus_root: &str)
    -> (r: Result<bool, ParentCorpusError>)
    requires
        captured.digested(),
    ensures
        ({
            let o = old(state).view_of();
            let f = final(state).view_of();
            let known = node_pin(o.nodes, captured.source@);
            match r {
                Ok(expand) => {
                    &&& exists|v: Seq<char>| verified_pin(*declaration, *captured, v)
                        && #[trigger] edge_refusal(owner_manifest@, *declaration, *captured, v, owner_is_v1, o.active, known) is None
                    &&& f == (WalkView {
                        active: o.active.push(captured.source@),
                        edges: o.edges.push(accepted_edge(owner_source@, *declaration, *captured, materialisation_root@, corpus_root@)),
                        materialisation_roots: insert_distinct(o.materialisation_roots, materialisation_root@),
                        corpus_roots: insert_distinct(o.corpus_roots, corpus_root@),
                        ..o
                    })
                    &&& expand == !o.expanded.contains((materialisation_root@, declaration.corpus@))
                },
                Err(e) => {
                    &&& f == o
                    &&& e.path is Some
                    &&& exists|v: Seq<char>| verified_pin(*declaration, *captured, v)
                        && #[trigger] edge_refusal(owner_manifest@, *declaration, *captured, v, owner_is_v1, o.active, known)
                            == Some((e.code, e.path.unwrap()@, e.message@))
                },
            }
        }),
{
    let known = find_pin(&state.nodes, captured.source.as_str());
    let known_pin: Option<&str> = match known {
        Some(i) => Some(state.nodes[i].1.as_str()),
        None => None,
    };
    assert(opt_str(known_pin) == node_pin(pair_views(state.nodes@), captured.source@));
    let pin = check_captured_edge(owner_manifest, declaration, captured, owner_is_v1, &state.active, known_pin)?;
    let ghost o = state.view_of();
    add_distinct(&mut state.materialisation_roots, materialisation_root);
    add_distinct(&mut state.corpus_roots, corpus_root);
    let edge = VerifiedFederationEdge {
        owner_source: owned(owner_source),
        alias: owned(declaration.alias.as_str()),
        target_source: owned(captured.source.as_str()),
        declared_digest: owned(declaration.digest.as_str()),
        canonical_digest: owned(captured.digest_v2.as_str()),
        root: owned(declaration.root.as_str()),
        corpus: owned(declaration.corpus.as_str()),
        materialisation_root: owned(materialisation_root),
        corpus_root: owned(corpus_root),
    };
    let ghost eb = edge_views(state.edges@);
    state.edges.push(edge);
    assert(edge_views(state.edges@) =~= eb.push(edge_view(edge)));
    let ghost ab = views(state.active@);
    state.active.push(owned(captured.source.as_str()));
    assert(views(state.active@) =~= ab.push(captured.source@));
    let expand = !contains_pair(&state.expanded, materialisation_root, declaration.corpus.as_str());
    assert(state.view_of() =~= (WalkView {
        active: o.active.push(captured.source@),
        edges: o.edges.push(accepted_edge(owner_source@, *declaration, *captured, materialisation_root@, corpus_root@)),
        materialisation_roots: insert_distinct(o.materialisation_roots, materialisation_root@),
        corpus_roots: insert_distinct(o.corpus_roots, corpus_root@),
        ..o
    }));
    Ok(expand)
}

/// Leaves an accepted edge once its parent's declarations were walked (or
/// found walked before): the physical capture is marked expanded when this
/// edge walked it, the parent leaves the route, and a source not yet in the
/// closure is admitted (see `admit_logical_node`; its config path and corpus
/// root report the limits) with its canonical digest.
pub fn finish_edge(state: &mut WalkState, materialisation_root: &str, corpus: &str, walked: bool, captured: &CapturedNode,
    manifest_len: usize, corpus_root: &str) -> (r: Result<(), ParentCorpusError>)
    requires
        old(state).active@.len() > 0,
        node_bytes(*captured, manifest_len as nat) <= usize::MAX,
    ensures
        ({
            let o = old(state).view_of();
            let f = final(state).view_of();
            let exp = if walked { o.expanded.push((materialisation_root@, corpus@)) } else { o.expanded };
            let base = WalkView { expanded: exp, active: o.active.drop_last(), ..o };
            if node_pin(o.nodes, captured.source@) is Some {
                r is Ok && f == base
            } else if o.nodes.len() >= V2_MAX_INHERITED_SOURCES {
                &&& r matches Err(e) && e.code == ParentCorpusErrorCode::LimitExceeded
                    && e.message@ == limit_message("unique-inherited-sources"@, V2_MAX_INHERITED_SOURCES as nat,
                        (V2_MAX_INHERITED_SOURCES + 1) as nat)
                    && (e.path matches Some(p) && p@ == captured.config_path@)
                &&& f == base
            } else {
                match admitted(o.logical_files, captured.files@.len(), V2_MAX_INHERITED_FILES as nat) {
                    None => {
                        &&& r matches Err(e) && e.code == ParentCorpusErrorCode::LimitExceeded
                            && e.message@ == limit_message("inherited-files"@, V2_MAX_INHERITED_FILES as nat,
                                (V2_MAX_INHERITED_FILES + 1) as nat)
                            && (e.path matches Some(p) && p@ == corpus_root@)
                        &&& f == base
                    },
                    Some(files) => match admitted(o.logical_bytes, node_bytes(*captured, manifest_len as nat), V2_MAX_LOGICAL_BYTES as nat) {
                        None => {
                            &&& r matches Err(e) && e.code == ParentCorpusErrorCode::LimitExceeded
                                && e.message@ == limit_message("logical-bytes"@, V2_MAX_LOGICAL_BYTES as nat,
                                    (V2_MAX_LOGICAL_BYTES + 1) as nat)
                                && (e.path matches Some(p) && p@ == corpus_root@)
                            &&& f == (WalkView { logical_files: files, ..base })
                        },
                        Some(bytes) => {
                            &&& r is Ok
                            &&& f == (WalkView {
                                logical_files: files,
                                logical_bytes: bytes,
                                nodes: o.nodes.push((captured.source@, captured.digest_v2@)),
                                ..base
                            })
                        },
                    },
                }
            }
        }),
{
    let ghost o = state.view_of();
    if walked {
        let ghost xb = pair_views(state.expanded@);
        state.expanded.push((owned(materialisation_root), owned(corpus)));
        assert(pair_views(state.expanded@) =~= xb.push((materialisation_root@, corpus@)));
    }
    let ghost ab = state.active@;
    state.active.pop();
    assert(views(state.active@) =~= views(ab).drop_last());
    let known = find_pin(&state.nodes, captured.source.as_str());
    if known.is_some() {
        return Ok(());
    }
    admit_logical_node(state.nodes.len(), &mut state.logical_files, &mut state.logical_bytes, captured, manifest_len, corpus_root)?;
    let ghost nb = pair_views(state.nodes@);
    state.nodes.push((owned(captured.source.as_str()), owned(captured.digest_v2.as_str())));
    assert(pair_views(state.nodes@) =~= nb.push((captured.source@, captured.digest_v2@)));
    Ok(())
}

/// The order of verified edges: owner source, target source, declared
/// digest, alias, root, corpus, then materialisation root.
pub open spec fn federation_edge_key(e: VerifiedFederationEdge) -> Seq<Seq<char>> {
    seq![e.owner_source@, e.target_source@, e.declared_digest@, e.alias@, e.root@, e.corpus@, e.materialisation_root@]
}

fn federation_edge_sort_key(e: &VerifiedFederationEdge) -> (r: Vec<String>)
    ensures
        strings_view(r@) == federation_edge_key(*e),
{
    let mut key: Vec<String> = Vec::new();
    key.push(owned(e.owner_source.as_str()));
    key.push(owned(e.target_source.as_str()));
    key.push(owned(e.declared_digest.as_str()));
    key.push(owned(e.alias.as_str()));
    key.push(owned(e.root.as_str()));
    key.push(owned(e.corpus.as_str()));
    key.push(owned(e.materialisation_root.as_str()));
    assert(strings_view(key@) =~= federation_edge_key(*e));
    key
}

/// Verified edges in their reported order: the same edges, ordered by key.
fn sort_federation_edges(edges: Vec<VerifiedFederationEdge>) -> (r: Vec<VerifiedFederationEdge>)
    ensures
        r@.to_multiset() == edges@.to_multiset(),
        forall|i: int, j: int| 0 <= i < j < r@.len() ==> !keys_lt(federation_edge_key(#[trigger] r@[j]), federation_edge_key(#[trigger] r@[i])),
{
    broadcast use vstd::seq_lib::group_to_multiset_ensures;
    let ghost orig = edges@;
    let mut keyed: Vec<Keyed<VerifiedFederationEdge>> = Vec::new();
    let mut rest = edges;
    while rest.len() > 0
        invariant
            rest@.to_multiset().add(keyed_values(keyed@).to_multiset()) == orig.to_multiset(),
            forall|k: int| 0 <= k < keyed@.len() ==> (#[trigger] keyed@[k]).sort_key() == federation_edge_key(keyed@[k].value),
        decreases rest@.len(),
    {
        let ghost before_rest = rest@;
        let ghost before_keyed = keyed@;
        let e = rest.pop().unwrap();
        let key = federation_edge_sort_key(&e);
        keyed.push(Keyed { key, value: e });
        proof {
            assert(before_rest =~= rest@.push(e));
            assert(keyed_values(keyed@) =~= keyed_values(before_keyed).push(e));
            vstd::seq_lib::to_multiset_build(rest@, e);
            vstd::seq_lib::to_multiset_build(keyed_values(before_keyed), e);
            assert(rest@.to_multiset().add(keyed_values(keyed@).to_multiset()) =~= orig.to_multiset());
        }
    }
    let ghost pre = keyed@;
    proof {
        vstd::seq_lib::to_multiset_len(rest@);
        assert(rest@.to_multiset() =~= Multiset::empty());
        assert(keyed_values(pre).to_multiset() =~= orig.to_multiset());
    }
    let sorted = sort_by_key(keyed);
    proof {
        lemma_values_multiset(sorted@, pre);
        assert forall|k: int| 0 <= k < sorted@.len() implies (#[trigger] sorted@[k]).sort_key() == federation_edge_key(sorted@[k].value) by {
            assert(sorted@.contains(sorted@[k]));
            vstd::seq_lib::to_multiset_contains(sorted@, sorted@[k]);
            vstd::seq_lib::to_multiset_contains(pre, sorted@[k]);
            let m = choose|m: int| 0 <= m < pre.len() && pre[m] == sorted@[k];
        }
    }
    let r = unkey(sorted);
    proof {
        assert forall|i: int, j: int| 0 <= i < j < r@.len() implies !keys_lt(federation_edge_key(#[trigger] r@[j]), federation_edge_key(#[trigger] r@[i])) by {
            assert(r@[i] == sorted@[i].value && r@[j] == sorted@[j].value);
            assert(!keys_lt(sorted@[j].sort_key(), sorted@[i].sort_key()));
        }
    }
    r
}

/// What a finished walk reports: its edges in key order, the closure's
/// sources ascending, and its distinct materialisation and corpus roots
/// ascending.
pub struct WalkOutcome {
    pub edges: Vec<VerifiedFederationEdge>,
    pub node_sources: Vec<String>,
    pub materialisation_roots: Vec<String>,
    pub corpus_roots: Vec<String>,
}

/// Ends the walk: the accepted edges ordered by their key, the admitted
/// sources, materialisation roots and corpus roots each ascending and
/// without repeats.
pub fn finish_walk(state: WalkState) -> (r: WalkOutcome)
    ensures
        r.edges@.to_multiset() == state.edges@.to_multiset(),
        forall|i: int, j: int| 0 <= i < j < r.edges@.len() ==> !keys_lt(federation_edge_key(#[trigger] r.edges@[j]), federation_edge_key(#[trigger] r.edges@[i])),
        strictly_ascending(views(r.node_sources@)),
        forall|x: Seq<char>| views(r.node_sources@).contains(x) <==> exists|i: int| 0 <= i < state.nodes@.len() && #[trigger] state.nodes@[i].0@ == x,
        strictly_ascending(views(r.materialisation_roots@)),
        forall|x: Seq<char>| views(r.materialisation_roots@).contains(x) <==> views(state.materialisation_roots@).contains(x),
        strictly_ascending(views(r.corpus_roots@)),
        forall|x: Seq<char>| views(r.corpus_roots@).contains(x) <==> views(state.corpus_roots@).contains(x),
{
    let mut sources: Vec<String> = Vec::new();
    let mut i: usize = 0;
    while i < state.nodes.len()
        invariant
            i <= state.nodes@.len(),
            sources@.len() == i,
            forall|k: int| 0 <= k < i ==> (#[trigger] sources@[k])@ == state.nodes@[k].0@,
        decreases state.nodes@.len() - i,
    {
        sources.push(owned(state.nodes[i].0.as_str()));
        i += 1;
    }
    let node_sources = sorted_unique(&sources);
    proof {
        assert forall|x: Seq<char>| views(sources@).contains(x) <==> exists|i: int| 0 <= i < state.nodes@.len() && #[trigger] state.nodes@[i].0@ == x by {
            if views(sources@).contains(x) {
                let k = choose|k: int| 0 <= k < views(sources@).len() && views(sources@)[k] == x;
                assert(state.nodes@[k].0@ == x);
            }
            if exists|i: int| 0 <= i < state.nodes@.len() && #[trigger] state.nodes@[i].0@ == x {
                let k = choose|k: int| 0 <= k < state.nodes@.len() && #[trigger] state.nodes@[k].0@ == x;
                assert(views(sources@)[k] == x);
            }
        }
    }
    let materialisation_roots = sorted_unique(&state.materialisation_roots);
    let corpus_roots = sorted_unique(&state.corpus_roots);
    let edges = sort_federation_edges(state.edges);
    WalkOutcome { edges, node_sources, materialisation_roots, corpus_roots }
}

/// Whether an accepted edge's parent has declarations of its own to walk
/// now: this edge expands its capture and the capture carries a manifest.
pub fn walks_declarations(expand: bool, captured: &CapturedNode) -> (r: bool)
    ensures
        r == (expand && captured.manifest != CapturedManifestKind::Absent),
{
    expand && captured.manifest != CapturedManifestKind::Absent
}

} // verus!
