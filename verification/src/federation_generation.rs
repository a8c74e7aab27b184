//! Canonical closure-generation hashing for graph federation.
//!
//! Filesystem-free: the verified loader owns capture and validation; this
//! module turns an already-verified logical closure into the portable
//! `sha256-v3:` generation. Every semantic table is independently sorted, so
//! discovery, traversal and manifest parent-list order cannot become
//! precedence.
use vstd::prelude::*;

use crate::corpus::ArtifactKey;
use crate::hashing::{lower_hex_char, bytes_of, frame, hex, push_frame, push_bytes, sha256_digest, utf8, prefixed_digest};
use crate::order::{orders_keys, sort_indices, keys_views, strings_view, keys_by, distinct_keys, visit, lemma_sorted_permutations_agree, lemma_sorted_keys_agree};
use crate::text::{chars_of, decimal, push_char, usize_to_string};

verus! {

pub const GENERATION_DOMAIN: &'static str = "asdecided-federation-generation-v3\0";
pub const GRAPH_CONTRACT: &'static str = "corpus-federation-graph/v2";
pub const ARTIFACT_SPEC_FINGERPRINT: &'static str = "artifact-spec-registry/v1";
pub const RELATIONSHIP_DESCRIPTION_FINGERPRINT: &'static str = "relationship-description-registry/v1";
pub const TOKENIZER_RANKING_FINGERPRINT: &'static str = "tokenizer-ranking-graph-floor/v1";
pub const DERIVED_SCHEMA_FINGERPRINT: &'static str = "federation-derived/v3";
pub const STORE_LAYOUT_FINGERPRINT: &'static str = "store/v3";

/// The limit block committed into every version-3 generation.
pub const LIMIT_BLOCK: &'static str = "manifest-bytes=1048576\nconfig-bytes=1048576\nalias-bytes=64\nsource-bytes=255\npath-bytes=4096\npath-components=64\npath-component-bytes=255\nyaml-depth=32\nyaml-nodes=16384\ndirect-parents=32\ndepth=16\nunique-inherited-sources=256\nedges=1024\noverrides=4096\ninherited-files=50000\nfile-bytes=16777216\nlogical-bytes=268435456\nphysical-bytes=536870912\nvisited-entries=200000\n";

#[derive(Debug, Clone, PartialEq, Eq)]
pub struct GenerationFile {
    pub relative_path: String,
    pub bytes: Vec<u8>,
}

#[derive(Debug, Clone, PartialEq, Eq)]
pub struct GenerationNode {
    pub source: String,
    /// Canonical `sha256-v2:` digest, independent of the declared edge pin.
    pub canonical_digest: String,
    pub config_bytes: Vec<u8>,
    pub manifest_bytes: Option<Vec<u8>>,
    pub files: Vec<GenerationFile>,
}

#[derive(Debug, Clone, PartialEq, Eq)]
pub struct GenerationEdge {
    pub owner_source: String,
    pub target_source: String,
    /// Exact declared `sha256:` or `sha256-v2:` pin text.
    pub declared_pin: String,
    pub alias: String,
    pub root: String,
    pub corpus: String,
}

#[derive(Debug, Clone, PartialEq, Eq)]
pub struct GenerationMapping {
    /// Parents-before-child Kahn rank. It selects the total order but is not
    /// itself framed into the generation.
    pub owner_rank: usize,
    pub owner_source: String,
    pub target: ArtifactKey,
    pub replacement: ArtifactKey,
    pub rationale: ArtifactKey,
}

#[derive(Debug, Clone, PartialEq, Eq)]
pub struct GenerationRedirect {
    pub target: ArtifactKey,
    pub terminal: ArtifactKey,
}

#[derive(Debug, Clone, PartialEq, Eq)]
pub struct GraphGenerationInput {
    pub recursive: bool,
    pub root_source: String,
    /// Stable POSIX path relative to the root repository.
    pub root_corpus_path: String,
    pub root_config_bytes: Vec<u8>,
    pub root_manifest_bytes: Option<Vec<u8>>,
    pub root_files: Vec<GenerationFile>,
    pub inherited_nodes: Vec<GenerationNode>,
    pub edges: Vec<GenerationEdge>,
    pub mappings: Vec<GenerationMapping>,
    pub terminal_redirects: Vec<GenerationRedirect>,
}

// ---------------------------------------------------------------- keys

pub open spec fn file_key(f: GenerationFile) -> Seq<Seq<char>> {
    seq![f.relative_path@]
}

pub open spec fn node_key(n: GenerationNode) -> Seq<Seq<char>> {
    seq![n.source@, n.canonical_digest@]
}

pub open spec fn edge_key(e: GenerationEdge) -> Seq<Seq<char>> {
    seq![e.owner_source@, e.target_source@, e.declared_pin@, e.alias@, e.root@, e.corpus@]
}

/// A rank as twenty decimal digits, so string order is numeric order.
pub open spec fn padded_rank(n: nat) -> Seq<char> {
    let d = decimal(n);
    if d.len() >= 20 { d } else { Seq::new((20 - d.len()) as nat, |i: int| '0') + d }
}

pub open spec fn mapping_key(m: GenerationMapping) -> Seq<Seq<char>> {
    seq![padded_rank(m.owner_rank as nat), m.owner_source@, m.target.source@, m.target.canonical_id@,
        m.replacement.source@, m.replacement.canonical_id@, m.rationale.source@, m.rationale.canonical_id@]
}

pub open spec fn redirect_key(r: GenerationRedirect) -> Seq<Seq<char>> {
    seq![r.target.source@, r.target.canonical_id@]
}

pub open spec fn file_keys(v: Seq<GenerationFile>) -> Seq<Seq<Seq<char>>> {
    Seq::new(v.len(), |i: int| file_key(v[i]))
}

pub open spec fn node_keys(v: Seq<GenerationNode>) -> Seq<Seq<Seq<char>>> {
    Seq::new(v.len(), |i: int| node_key(v[i]))
}

pub open spec fn edge_keys(v: Seq<GenerationEdge>) -> Seq<Seq<Seq<char>>> {
    Seq::new(v.len(), |i: int| edge_key(v[i]))
}

pub open spec fn mapping_keys(v: Seq<GenerationMapping>) -> Seq<Seq<Seq<char>>> {
    Seq::new(v.len(), |i: int| mapping_key(v[i]))
}

pub open spec fn redirect_keys(v: Seq<GenerationRedirect>) -> Seq<Seq<Seq<char>>> {
    Seq::new(v.len(), |i: int| redirect_key(v[i]))
}

fn padded_rank_exec(n: usize) -> (r: String)
    ensures
        r@ == padded_rank(n as nat),
{
    let d = usize_to_string(n);
    let len = chars_of(d.as_str()).len();
    if len >= 20 {
        return d;
    }
    let mut r = String::new();
    let mut i: usize = 0;
    while i < 20 - len
        invariant
            i <= 20 - len,
            r@ == Seq::new(i as nat, |k: int| '0'),
        decreases 20 - len - i,
    {
        push_char(&mut r, '0');
        i += 1;
        assert(r@ =~= Seq::new(i as nat, |k: int| '0'));
    }
    crate::text::push_str(&mut r, d.as_str());
    r
}

fn file_order(files: &Vec<GenerationFile>) -> (ord: Vec<usize>)
    ensures
        orders_keys(file_keys(files@), ord@),
{
    let mut keys: Vec<Vec<String>> = Vec::new();
    let mut i: usize = 0;
    while i < files.len()
        invariant
            i <= files@.len(),
            keys@.len() == i,
            forall|k: int| 0 <= k < i ==> strings_view(#[trigger] keys@[k]@) == file_key(files@[k]),
        decreases files@.len() - i,
    {
        let mut key: Vec<String> = Vec::new();
        key.push(files[i].relative_path.clone());
        assert(strings_view(key@) =~= file_key(files@[i as int]));
        keys.push(key);
        i += 1;
    }
    assert(keys_views(keys@) =~= file_keys(files@));
    sort_indices(keys)
}

fn node_order(nodes: &Vec<GenerationNode>) -> (ord: Vec<usize>)
    ensures
        orders_keys(node_keys(nodes@), ord@),
{
    let mut keys: Vec<Vec<String>> = Vec::new();
    let mut i: usize = 0;
    while i < nodes.len()
        invariant
            i <= nodes@.len(),
            keys@.len() == i,
            forall|k: int| 0 <= k < i ==> strings_view(#[trigger] keys@[k]@) == node_key(nodes@[k]),
        decreases nodes@.len() - i,
    {
        let mut key: Vec<String> = Vec::new();
        key.push(nodes[i].source.clone());
        key.push(nodes[i].canonical_digest.clone());
        assert(strings_view(key@) =~= node_key(nodes@[i as int]));
        keys.push(key);
        i += 1;
    }
    assert(keys_views(keys@) =~= node_keys(nodes@));
    sort_indices(keys)
}

fn edge_order(edges: &Vec<GenerationEdge>) -> (ord: Vec<usize>)
    ensures
        orders_keys(edge_keys(edges@), ord@),
{
    let mut keys: Vec<Vec<String>> = Vec::new();
    let mut i: usize = 0;
    while i < edges.len()
        invariant
            i <= edges@.len(),
            keys@.len() == i,
            forall|k: int| 0 <= k < i ==> strings_view(#[trigger] keys@[k]@) == edge_key(edges@[k]),
        decreases edges@.len() - i,
    {
        let e = &edges[i];
        let mut key: Vec<String> = Vec::new();
        key.push(e.owner_source.clone());
        key.push(e.target_source.clone());
        key.push(e.declared_pin.clone());
        key.push(e.alias.clone());
        key.push(e.root.clone());
        key.push(e.corpus.clone());
        assert(strings_view(key@) =~= edge_key(edges@[i as int]));
        keys.push(key);
        i += 1;
    }
    assert(keys_views(keys@) =~= edge_keys(edges@));
    sort_indices(keys)
}

fn mapping_order(mappings: &Vec<GenerationMapping>) -> (ord: Vec<usize>)
    ensures
        orders_keys(mapping_keys(mappings@), ord@),
{
    let mut keys: Vec<Vec<String>> = Vec::new();
    let mut i: usize = 0;
    while i < mappings.len()
        invariant
            i <= mappings@.len(),
            keys@.len() == i,
            forall|k: int| 0 <= k < i ==> strings_view(#[trigger] keys@[k]@) == mapping_key(mappings@[k]),
        decreases mappings@.len() - i,
    {
        let m = &mappings[i];
        let mut key: Vec<String> = Vec::new();
        key.push(padded_rank_exec(m.owner_rank));
        key.push(m.owner_source.clone());
        key.push(m.target.source.clone());
        key.push(m.target.canonical_id.clone());
        key.push(m.replacement.source.clone());
        key.push(m.replacement.canonical_id.clone());
        key.push(m.rationale.source.clone());
        key.push(m.rationale.canonical_id.clone());
        assert(strings_view(key@) =~= mapping_key(mappings@[i as int]));
        keys.push(key);
        i += 1;
    }
    assert(keys_views(keys@) =~= mapping_keys(mappings@));
    sort_indices(keys)
}

fn redirect_order(redirects: &Vec<GenerationRedirect>) -> (ord: Vec<usize>)
    ensures
        orders_keys(redirect_keys(redirects@), ord@),
{
    let mut keys: Vec<Vec<String>> = Vec::new();
    let mut i: usize = 0;
    while i < redirects.len()
        invariant
            i <= redirects@.len(),
            keys@.len() == i,
            forall|k: int| 0 <= k < i ==> strings_view(#[trigger] keys@[k]@) == redirect_key(redirects@[k]),
        decreases redirects@.len() - i,
    {
        let r = &redirects[i];
        let mut key: Vec<String> = Vec::new();
        key.push(r.target.source.clone());
        key.push(r.target.canonical_id.clone());
        assert(strings_view(key@) =~= redirect_key(redirects@[i as int]));
        keys.push(key);
        i += 1;
    }
    assert(keys_views(keys@) =~= redirect_keys(redirects@));
    sort_indices(keys)
}

// ---------------------------------------------------------------- frames

pub open spec fn opt_bytes(o: Option<Vec<u8>>) -> Option<Seq<u8>> {
    match o {
        Some(v) => Some(v@),
        None => None,
    }
}

/// Presence frame, then the bytes when present.
pub open spec fn manifest_frames(presence_tag: u8, bytes_tag: u8, manifest: Option<Seq<u8>>) -> Seq<u8> {
    match manifest {
        Some(b) => frame(presence_tag, seq![1u8]) + frame(bytes_tag, b),
        None => frame(presence_tag, seq![0u8]),
    }
}

/// Path and byte frames of the first `upto` files in order `ord`.
pub open spec fn files_frames(files: Seq<GenerationFile>, ord: Seq<usize>, path_tag: u8, bytes_tag: u8, upto: int) -> Seq<u8>
    decreases upto,
{
    if upto <= 0 {
        Seq::empty()
    } else {
        let f = files[ord[upto - 1] as int];
        files_frames(files, ord, path_tag, bytes_tag, upto - 1) + frame(path_tag, utf8(f.relative_path@)) + frame(bytes_tag, f.bytes@)
    }
}

pub open spec fn node_frames(n: GenerationNode, ford: Seq<usize>) -> Seq<u8> {
    frame(0x10, utf8(n.source@)) + frame(0x11, utf8(n.canonical_digest@)) + frame(0x12, n.config_bytes@)
        + manifest_frames(0x13, 0x14, opt_bytes(n.manifest_bytes))
        + files_frames(n.files@, ford, 0x15, 0x16, n.files@.len() as int) + frame(0x17, Seq::empty())
}

pub open spec fn nodes_frames(nodes: Seq<GenerationNode>, ord: Seq<usize>, fords: Seq<Seq<usize>>, upto: int) -> Seq<u8>
    decreases upto,
{
    if upto <= 0 {
        Seq::empty()
    } else {
        nodes_frames(nodes, ord, fords, upto - 1) + node_frames(nodes[ord[upto - 1] as int], fords[upto - 1])
    }
}

pub open spec fn edge_frames(e: GenerationEdge) -> Seq<u8> {
    frame(0x20, utf8(e.owner_source@)) + frame(0x21, utf8(e.target_source@)) + frame(0x22, utf8(e.declared_pin@))
        + frame(0x23, utf8(e.alias@)) + frame(0x24, utf8(e.root@)) + frame(0x25, utf8(e.corpus@)) + frame(0x26, Seq::empty())
}

pub open spec fn edges_frames(edges: Seq<GenerationEdge>, ord: Seq<usize>, upto: int) -> Seq<u8>
    decreases upto,
{
    if upto <= 0 { Seq::empty() } else { edges_frames(edges, ord, upto - 1) + edge_frames(edges[ord[upto - 1] as int]) }
}

pub open spec fn key_frames(source_tag: u8, id_tag: u8, k: ArtifactKey) -> Seq<u8> {
    frame(source_tag, utf8(k.source@)) + frame(id_tag, utf8(k.canonical_id@))
}

pub open spec fn mapping_frames(m: GenerationMapping) -> Seq<u8> {
    frame(0x30, utf8(m.owner_source@)) + key_frames(0x31, 0x32, m.target) + key_frames(0x33, 0x34, m.replacement)
        + key_frames(0x35, 0x36, m.rationale) + frame(0x37, Seq::empty())
}

pub open spec fn mappings_frames(ms: Seq<GenerationMapping>, ord: Seq<usize>, upto: int) -> Seq<u8>
    decreases upto,
{
    if upto <= 0 { Seq::empty() } else { mappings_frames(ms, ord, upto - 1) + mapping_frames(ms[ord[upto - 1] as int]) }
}

pub open spec fn redirect_frames(r: GenerationRedirect) -> Seq<u8> {
    key_frames(0x38, 0x39, r.target) + key_frames(0x3a, 0x3b, r.terminal) + frame(0x3c, Seq::empty())
}

pub open spec fn redirects_frames(rs: Seq<GenerationRedirect>, ord: Seq<usize>, upto: int) -> Seq<u8>
    decreases upto,
{
    if upto <= 0 { Seq::empty() } else { redirects_frames(rs, ord, upto - 1) + redirect_frames(rs[ord[upto - 1] as int]) }
}

/// The orders in which the generation visits each table: root files, nodes,
/// each visited node's files, edges, mappings, redirects.
pub type GenerationOrder = (Seq<usize>, Seq<usize>, Seq<Seq<usize>>, Seq<usize>, Seq<usize>, Seq<usize>);

/// Every table visited in non-decreasing key order, each element once.
pub open spec fn generation_order_valid(input: GraphGenerationInput, o: GenerationOrder) -> bool {
    &&& orders_keys(file_keys(input.root_files@), o.0)
    &&& orders_keys(node_keys(input.inherited_nodes@), o.1)
    &&& o.2.len() == o.1.len()
    &&& forall|k: int| 0 <= k < o.1.len() ==> orders_keys(file_keys(input.inherited_nodes@[o.1[k] as int].files@), #[trigger] o.2[k])
    &&& orders_keys(edge_keys(input.edges@), o.3)
    &&& orders_keys(mapping_keys(input.mappings@), o.4)
    &&& orders_keys(redirect_keys(input.terminal_redirects@), o.5)
}

/// The exact byte preimage of the generation under a visiting order.
pub open spec fn generation_preimage(input: GraphGenerationInput, o: GenerationOrder) -> Seq<u8> {
    header_frames(input)
        + files_frames(input.root_files@, o.0, 0x09, 0x0a, input.root_files@.len() as int)
        + nodes_frames(input.inherited_nodes@, o.1, o.2, input.inherited_nodes@.len() as int)
        + edges_frames(input.edges@, o.3, input.edges@.len() as int)
        + mappings_frames(input.mappings@, o.4, input.mappings@.len() as int)
        + redirects_frames(input.terminal_redirects@, o.5, input.terminal_redirects@.len() as int)
        + trailer_frames()
}

fn push_manifest(out: &mut Vec<u8>, presence_tag: u8, bytes_tag: u8, manifest: &Option<Vec<u8>>)
    ensures
        final(out)@ == old(out)@ + manifest_frames(presence_tag, bytes_tag, opt_bytes(*manifest)),
{
    match manifest {
        Some(bytes) => {
            let one: [u8; 1] = [1u8];
            push_frame(out, presence_tag, &one);
            push_frame(out, bytes_tag, bytes.as_slice());
            assert(one@ =~= seq![1u8]);
        },
        None => {
            let zero: [u8; 1] = [0u8];
            push_frame(out, presence_tag, &zero);
            assert(zero@ =~= seq![0u8]);
        },
    }
}

fn push_files(out: &mut Vec<u8>, files: &Vec<GenerationFile>, ord: &Vec<usize>, path_tag: u8, bytes_tag: u8)
    requires
        ord@.len() == files@.len(),
        forall|k: int| 0 <= k < ord@.len() ==> ord@[k] < files@.len(),
    ensures
        final(out)@ == old(out)@ + files_frames(files@, ord@, path_tag, bytes_tag, files@.len() as int),
{
    let ghost start = out@;
    let mut i: usize = 0;
    while i < ord.len()
        invariant
            i <= ord@.len(),
            ord@.len() == files@.len(),
            forall|k: int| 0 <= k < ord@.len() ==> ord@[k] < files@.len(),
            out@ == start + files_frames(files@, ord@, path_tag, bytes_tag, i as int),
        decreases ord@.len() - i,
    {
        let f = &files[ord[i]];
        push_frame(out, path_tag, bytes_of(f.relative_path.as_str()));
        push_frame(out, bytes_tag, f.bytes.as_slice());
        i += 1;
        assert(out@ =~= start + files_frames(files@, ord@, path_tag, bytes_tag, i as int));
    }
}

fn empty_frame(out: &mut Vec<u8>, tag: u8)
    ensures
        final(out)@ == old(out)@ + frame(tag, Seq::empty()),
{
    let none: [u8; 0] = [];
    assert(none@ =~= Seq::<u8>::empty());
    push_frame(out, tag, &none);
}

fn push_str_frame(out: &mut Vec<u8>, tag: u8, s: &str)
    ensures
        final(out)@ == old(out)@ + frame(tag, utf8(s@)),
{
    push_frame(out, tag, bytes_of(s));
}

fn push_key_frames(out: &mut Vec<u8>, source_tag: u8, id_tag: u8, k: &ArtifactKey)
    ensures
        final(out)@ == old(out)@ + key_frames(source_tag, id_tag, *k),
{
    push_str_frame(out, source_tag, k.source.as_str());
    push_str_frame(out, id_tag, k.canonical_id.as_str());
}

pub open spec fn header_frames(input: GraphGenerationInput) -> Seq<u8> {
    utf8(GENERATION_DOMAIN@)
        + frame(0x01, utf8(GRAPH_CONTRACT@))
        + frame(0x02, utf8(LIMIT_BLOCK@))
        + frame(0x03, seq![if input.recursive { 1u8 } else { 0u8 }])
        + frame(0x04, utf8(input.root_source@))
        + frame(0x05, utf8(input.root_corpus_path@))
        + frame(0x06, input.root_config_bytes@)
        + manifest_frames(0x07, 0x08, opt_bytes(input.root_manifest_bytes))
}

pub open spec fn trailer_frames() -> Seq<u8> {
    frame(0x40, utf8(ARTIFACT_SPEC_FINGERPRINT@))
        + frame(0x41, utf8(RELATIONSHIP_DESCRIPTION_FINGERPRINT@))
        + frame(0x42, utf8(TOKENIZER_RANKING_FINGERPRINT@))
        + frame(0x43, utf8(DERIVED_SCHEMA_FINGERPRINT@))
        + frame(0x44, utf8(STORE_LAYOUT_FINGERPRINT@))
}

fn push_header(out: &mut Vec<u8>, input: &GraphGenerationInput)
    ensures
        final(out)@ == old(out)@ + header_frames(*input),
{
    let ghost start = out@;
    push_bytes(out, bytes_of(GENERATION_DOMAIN));
    push_str_frame(out, 0x01, GRAPH_CONTRACT);
    push_str_frame(out, 0x02, LIMIT_BLOCK);
    let flag: [u8; 1] = [if input.recursive { 1u8 } else { 0u8 }];
    assert(flag@ =~= seq![if input.recursive { 1u8 } else { 0u8 }]);
    push_frame(out, 0x03, &flag);
    push_str_frame(out, 0x04, input.root_source.as_str());
    push_str_frame(out, 0x05, input.root_corpus_path.as_str());
    push_frame(out, 0x06, input.root_config_bytes.as_slice());
    push_manifest(out, 0x07, 0x08, &input.root_manifest_bytes);
    assert(out@ =~= start + header_frames(*input));
}

fn push_trailer(out: &mut Vec<u8>)
    ensures
        final(out)@ == old(out)@ + trailer_frames(),
{
    let ghost start = out@;
    push_str_frame(out, 0x40, ARTIFACT_SPEC_FINGERPRINT);
    push_str_frame(out, 0x41, RELATIONSHIP_DESCRIPTION_FINGERPRINT);
    push_str_frame(out, 0x42, TOKENIZER_RANKING_FINGERPRINT);
    push_str_frame(out, 0x43, DERIVED_SCHEMA_FINGERPRINT);
    push_str_frame(out, 0x44, STORE_LAYOUT_FINGERPRINT);
    assert(out@ =~= start + trailer_frames());
}

fn push_node(out: &mut Vec<u8>, n: &GenerationNode) -> (ford: Vec<usize>)
    ensures
        orders_keys(file_keys(n.files@), ford@),
        final(out)@ == old(out)@ + node_frames(*n, ford@),
{
    let ghost start = out@;
    push_str_frame(out, 0x10, n.source.as_str());
    push_str_frame(out, 0x11, n.canonical_digest.as_str());
    push_frame(out, 0x12, n.config_bytes.as_slice());
    push_manifest(out, 0x13, 0x14, &n.manifest_bytes);
    let ford = file_order(&n.files);
    push_files(out, &n.files, &ford, 0x15, 0x16);
    empty_frame(out, 0x17);
    assert(out@ =~= start + node_frames(*n, ford@));
    ford
}

fn push_nodes(out: &mut Vec<u8>, nodes: &Vec<GenerationNode>) -> (r: (Vec<usize>, Ghost<Seq<Seq<usize>>>))
    ensures
        orders_keys(node_keys(nodes@), r.0@),
        r.1@.len() == r.0@.len(),
        forall|k: int| 0 <= k < r.0@.len() ==> orders_keys(file_keys(nodes@[r.0@[k] as int].files@), #[trigger] r.1@[k]),
        final(out)@ == old(out)@ + nodes_frames(nodes@, r.0@, r.1@, nodes@.len() as int),
{
    let ghost head = out@;
    let node_ord = node_order(nodes);
    let ghost mut fords: Seq<Seq<usize>> = Seq::empty();
    let mut i: usize = 0;
    while i < node_ord.len()
        invariant
            i <= node_ord@.len(),
            orders_keys(node_keys(nodes@), node_ord@),
            fords.len() == i,
            forall|k: int| 0 <= k < i ==> orders_keys(file_keys(nodes@[node_ord@[k] as int].files@), #[trigger] fords[k]),
            out@ == head + nodes_frames(nodes@, node_ord@, fords, i as int),
        decreases node_ord@.len() - i,
    {
        let ghost before = out@;
        let ford = push_node(out, &nodes[node_ord[i]]);
        proof {
            let old_fords = fords;
            fords = fords.push(ford@);
            assert forall|k: int| 0 <= k < i + 1 implies orders_keys(file_keys(nodes@[node_ord@[k] as int].files@), #[trigger] fords[k]) by {
                if k < i {
                    assert(fords[k] == old_fords[k]);
                }
            }
            lemma_nodes_frames_prefix(nodes@, node_ord@, old_fords, fords, i as int);
        }
        i += 1;
    }
    (node_ord, Ghost(fords))
}

fn push_edges(out: &mut Vec<u8>, edges: &Vec<GenerationEdge>) -> (ord: Vec<usize>)
    ensures
        orders_keys(edge_keys(edges@), ord@),
        final(out)@ == old(out)@ + edges_frames(edges@, ord@, edges@.len() as int),
{
    let ghost head = out@;
    let edge_ord = edge_order(edges);
    let mut e: usize = 0;
    while e < edge_ord.len()
        invariant
            e <= edge_ord@.len(),
            orders_keys(edge_keys(edges@), edge_ord@),
            out@ == head + edges_frames(edges@, edge_ord@, e as int),
        decreases edge_ord@.len() - e,
    {
        let ghost before = out@;
        let ed = &edges[edge_ord[e]];
        push_str_frame(out, 0x20, ed.owner_source.as_str());
        push_str_frame(out, 0x21, ed.target_source.as_str());
        push_str_frame(out, 0x22, ed.declared_pin.as_str());
        push_str_frame(out, 0x23, ed.alias.as_str());
        push_str_frame(out, 0x24, ed.root.as_str());
        push_str_frame(out, 0x25, ed.corpus.as_str());
        empty_frame(out, 0x26);
        assert(out@ =~= before + edge_frames(*ed));
        e += 1;
    }
    edge_ord
}

fn push_mappings(out: &mut Vec<u8>, mappings: &Vec<GenerationMapping>) -> (ord: Vec<usize>)
    ensures
        orders_keys(mapping_keys(mappings@), ord@),
        final(out)@ == old(out)@ + mappings_frames(mappings@, ord@, mappings@.len() as int),
{
    let ghost head = out@;
    let map_ord = mapping_order(mappings);
    let mut m: usize = 0;
    while m < map_ord.len()
        invariant
            m <= map_ord@.len(),
            orders_keys(mapping_keys(mappings@), map_ord@),
            out@ == head + mappings_frames(mappings@, map_ord@, m as int),
        decreases map_ord@.len() - m,
    {
        let ghost before = out@;
        let mp = &mappings[map_ord[m]];
        push_str_frame(out, 0x30, mp.owner_source.as_str());
        push_key_frames(out, 0x31, 0x32, &mp.target);
        push_key_frames(out, 0x33, 0x34, &mp.replacement);
        push_key_frames(out, 0x35, 0x36, &mp.rationale);
        empty_frame(out, 0x37);
        assert(out@ =~= before + mapping_frames(*mp));
        m += 1;
    }
    map_ord
}

fn push_redirects(out: &mut Vec<u8>, redirects: &Vec<GenerationRedirect>) -> (ord: Vec<usize>)
    ensures
        orders_keys(redirect_keys(redirects@), ord@),
        final(out)@ == old(out)@ + redirects_frames(redirects@, ord@, redirects@.len() as int),
{
    let ghost head = out@;
    let red_ord = redirect_order(redirects);
    let mut t: usize = 0;
    while t < red_ord.len()
        invariant
            t <= red_ord@.len(),
            orders_keys(redirect_keys(redirects@), red_ord@),
            out@ == head + redirects_frames(redirects@, red_ord@, t as int),
        decreases red_ord@.len() - t,
    {
        let ghost before = out@;
        let rd = &redirects[red_ord[t]];
        push_key_frames(out, 0x38, 0x39, &rd.target);
        push_key_frames(out, 0x3a, 0x3b, &rd.terminal);
        empty_frame(out, 0x3c);
        assert(out@ =~= before + redirect_frames(*rd));
        t += 1;
    }
    red_ord
}

/// The generation preimage bytes and the visiting order that produced them.
fn generation_bytes(input: &GraphGenerationInput) -> (r: (Vec<u8>, Ghost<GenerationOrder>))
    ensures
        generation_order_valid(*input, r.1@),
        r.0@ == generation_preimage(*input, r.1@),
{
    let mut out: Vec<u8> = Vec::new();
    push_header(&mut out, input);
    let root_order = file_order(&input.root_files);
    push_files(&mut out, &input.root_files, &root_order, 0x09, 0x0a);
    let (node_ord, fords) = push_nodes(&mut out, &input.inherited_nodes);
    let edge_ord = push_edges(&mut out, &input.edges);
    let map_ord = push_mappings(&mut out, &input.mappings);
    let red_ord = push_redirects(&mut out, &input.terminal_redirects);
    push_trailer(&mut out);
    let ghost o: GenerationOrder = (root_order@, node_ord@, fords@, edge_ord@, map_ord@, red_ord@);
    assert(out@ =~= generation_preimage(*input, o));
    (out, Ghost(o))
}

proof fn lemma_nodes_frames_prefix(nodes: Seq<GenerationNode>, ord: Seq<usize>, a: Seq<Seq<usize>>, b: Seq<Seq<usize>>, upto: int)
    requires
        upto <= a.len(),
        upto <= b.len(),
        forall|k: int| 0 <= k < upto ==> a[k] == b[k],
    ensures
        nodes_frames(nodes, ord, a, upto) == nodes_frames(nodes, ord, b, upto),
    decreases upto,
{
    if upto > 0 {
        lemma_nodes_frames_prefix(nodes, ord, a, b, upto - 1);
    }
}

/// The canonical closure generation: `sha256-v3:` and the hexadecimal
/// SHA-256 of the framed preimage, every table in key order.
pub fn closure_generation(input: &GraphGenerationInput) -> (r: String)
    ensures
        exists|o: GenerationOrder| generation_order_valid(*input, o)
            && r@ == "sha256-v3:"@ + hex(sha256_digest(#[trigger] generation_preimage(*input, o))),
        r@.len() == "sha256-v3:"@.len() + 64,
        forall|i: int| "sha256-v3:"@.len() <= i < r@.len() ==> lower_hex_char(#[trigger] r@[i]),
{
    let (bytes, o) = generation_bytes(input);
    let r = prefixed_digest("sha256-v3:", bytes.as_slice());
    assert(generation_order_valid(*input, o@) && r@ == "sha256-v3:"@ + hex(sha256_digest(generation_preimage(*input, o@))));
    r
}


/// The two inputs agree on everything but the order of their tables.
pub open spec fn same_scalars(a: GraphGenerationInput, b: GraphGenerationInput) -> bool {
    &&& a.recursive == b.recursive
    &&& a.root_source@ == b.root_source@
    &&& a.root_corpus_path@ == b.root_corpus_path@
    &&& a.root_config_bytes@ == b.root_config_bytes@
    &&& opt_bytes(a.root_manifest_bytes) == opt_bytes(b.root_manifest_bytes)
}

/// Each table of `b` holds the same rows as that of `a`.
pub open spec fn same_tables(a: GraphGenerationInput, b: GraphGenerationInput) -> bool {
    &&& a.root_files@.to_multiset() == b.root_files@.to_multiset()
    &&& a.inherited_nodes@.to_multiset() == b.inherited_nodes@.to_multiset()
    &&& a.edges@.to_multiset() == b.edges@.to_multiset()
    &&& a.mappings@.to_multiset() == b.mappings@.to_multiset()
    &&& a.terminal_redirects@.to_multiset() == b.terminal_redirects@.to_multiset()
}

/// No two files, nodes or redirects share their key (their frames hold more
/// than the key), and every table fits in memory. Edges and mappings are
/// framed from their key alone, so they may repeat.
pub open spec fn tables_keyed(a: GraphGenerationInput) -> bool {
    &&& a.root_files@.len() <= usize::MAX && distinct_keys(a.root_files@, |f: GenerationFile| file_key(f))
    &&& a.inherited_nodes@.len() <= usize::MAX && distinct_keys(a.inherited_nodes@, |n: GenerationNode| node_key(n))
    &&& forall|i: int| 0 <= i < a.inherited_nodes@.len() ==> (#[trigger] a.inherited_nodes@[i]).files@.len() <= usize::MAX
        && distinct_keys(a.inherited_nodes@[i].files@, |f: GenerationFile| file_key(f))
    &&& a.edges@.len() <= usize::MAX
    &&& a.mappings@.len() <= usize::MAX
    &&& a.terminal_redirects@.len() <= usize::MAX && distinct_keys(a.terminal_redirects@, |r: GenerationRedirect| redirect_key(r))
}

proof fn lemma_files_frames_agree(s: Seq<GenerationFile>, os: Seq<usize>, t: Seq<GenerationFile>, ot: Seq<usize>, pt: u8, bt: u8, upto: int)
    requires
        0 <= upto <= os.len(),
        os.len() == ot.len(),
        forall|k: int| 0 <= k < os.len() ==> s[os[k] as int] == t[ot[k] as int],
    ensures
        files_frames(s, os, pt, bt, upto) == files_frames(t, ot, pt, bt, upto),
    decreases upto,
{
    if upto > 0 {
        lemma_files_frames_agree(s, os, t, ot, pt, bt, upto - 1);
        assert(s[os[upto - 1] as int] == t[ot[upto - 1] as int]);
    }
}

proof fn lemma_edges_frames_agree(s: Seq<GenerationEdge>, os: Seq<usize>, t: Seq<GenerationEdge>, ot: Seq<usize>, upto: int)
    requires
        0 <= upto <= os.len(),
        os.len() == ot.len(),
        forall|k: int| 0 <= k < os.len() ==> edge_key(#[trigger] s[os[k] as int]) == edge_key(t[ot[k] as int]),
    ensures
        edges_frames(s, os, upto) == edges_frames(t, ot, upto),
    decreases upto,
{
    if upto > 0 {
        lemma_edges_frames_agree(s, os, t, ot, upto - 1);
        let a = s[os[upto - 1] as int];
        let b = t[ot[upto - 1] as int];
        assert(edge_key(a) == edge_key(b));
        assert(edge_key(a)[0] == a.owner_source@ && edge_key(b)[0] == b.owner_source@);
        assert(edge_key(a)[1] == a.target_source@ && edge_key(b)[1] == b.target_source@);
        assert(edge_key(a)[2] == a.declared_pin@ && edge_key(b)[2] == b.declared_pin@);
        assert(edge_key(a)[3] == a.alias@ && edge_key(b)[3] == b.alias@);
        assert(edge_key(a)[4] == a.root@ && edge_key(b)[4] == b.root@);
        assert(edge_key(a)[5] == a.corpus@ && edge_key(b)[5] == b.corpus@);
        assert(edge_frames(a) == edge_frames(b));
    }
}

proof fn lemma_mappings_frames_agree(s: Seq<GenerationMapping>, os: Seq<usize>, t: Seq<GenerationMapping>, ot: Seq<usize>, upto: int)
    requires
        0 <= upto <= os.len(),
        os.len() == ot.len(),
        forall|k: int| 0 <= k < os.len() ==> mapping_key(#[trigger] s[os[k] as int]) == mapping_key(t[ot[k] as int]),
    ensures
        mappings_frames(s, os, upto) == mappings_frames(t, ot, upto),
    decreases upto,
{
    if upto > 0 {
        lemma_mappings_frames_agree(s, os, t, ot, upto - 1);
        let a = s[os[upto - 1] as int];
        let b = t[ot[upto - 1] as int];
        assert(mapping_key(a) == mapping_key(b));
        assert(mapping_key(a)[1] == a.owner_source@ && mapping_key(b)[1] == b.owner_source@);
        assert(mapping_key(a)[2] == a.target.source@ && mapping_key(b)[2] == b.target.source@);
        assert(mapping_key(a)[3] == a.target.canonical_id@ && mapping_key(b)[3] == b.target.canonical_id@);
        assert(mapping_key(a)[4] == a.replacement.source@ && mapping_key(b)[4] == b.replacement.source@);
        assert(mapping_key(a)[5] == a.replacement.canonical_id@ && mapping_key(b)[5] == b.replacement.canonical_id@);
        assert(mapping_key(a)[6] == a.rationale.source@ && mapping_key(b)[6] == b.rationale.source@);
        assert(mapping_key(a)[7] == a.rationale.canonical_id@ && mapping_key(b)[7] == b.rationale.canonical_id@);
        assert(mapping_frames(a) == mapping_frames(b));
    }
}

proof fn lemma_redirects_frames_agree(s: Seq<GenerationRedirect>, os: Seq<usize>, t: Seq<GenerationRedirect>, ot: Seq<usize>, upto: int)
    requires
        0 <= upto <= os.len(),
        os.len() == ot.len(),
        forall|k: int| 0 <= k < os.len() ==> s[os[k] as int] == t[ot[k] as int],
    ensures
        redirects_frames(s, os, upto) == redirects_frames(t, ot, upto),
    decreases upto,
{
    if upto > 0 {
        lemma_redirects_frames_agree(s, os, t, ot, upto - 1);
        assert(s[os[upto - 1] as int] == t[ot[upto - 1] as int]);
    }
}

/// Visiting permutations of one keyed table in key order visits the same
/// rows.
proof fn lemma_same_visit<T>(s: Seq<T>, t: Seq<T>, os: Seq<usize>, ot: Seq<usize>, f: spec_fn(T) -> Seq<Seq<char>>)
    requires
        s.len() <= usize::MAX,
        s.to_multiset() == t.to_multiset(),
        distinct_keys(s, f),
        orders_keys(keys_by(s, f), os),
        orders_keys(keys_by(t, f), ot),
    ensures
        os.len() == ot.len(),
        forall|k: int| 0 <= k < os.len() ==> s[os[k] as int] == t[ot[k] as int],
{
    broadcast use vstd::seq_lib::group_to_multiset_ensures;
    lemma_sorted_permutations_agree(s, t, os, ot, f);
    let u = visit(s, os);
    let v = visit(t, ot);
    assert(u.len() == os.len());
    assert(v.len() == ot.len());
    assert forall|k: int| 0 <= k < os.len() implies s[os[k] as int] == t[ot[k] as int] by {
        assert(u[k] == s[os[k] as int]);
        assert(v[k] == t[ot[k] as int]);
    }
}

proof fn lemma_nodes_frames_agree(s: Seq<GenerationNode>, os: Seq<usize>, fs: Seq<Seq<usize>>, t: Seq<GenerationNode>, ot: Seq<usize>, ft: Seq<Seq<usize>>, upto: int)
    requires
        0 <= upto <= os.len(),
        os.len() == ot.len(),
        fs.len() == os.len(),
        ft.len() == ot.len(),
        forall|k: int| 0 <= k < os.len() ==> s[os[k] as int] == t[ot[k] as int],
        forall|k: int| 0 <= k < os.len() ==> (#[trigger] s[os[k] as int]).files@.len() <= usize::MAX
            && distinct_keys(s[os[k] as int].files@, |f: GenerationFile| file_key(f)),
        forall|k: int| 0 <= k < os.len() ==> orders_keys(file_keys(s[os[k] as int].files@), #[trigger] fs[k]),
        forall|k: int| 0 <= k < ot.len() ==> orders_keys(file_keys(t[ot[k] as int].files@), #[trigger] ft[k]),
    ensures
        nodes_frames(s, os, fs, upto) == nodes_frames(t, ot, ft, upto),
    decreases upto,
{
    if upto > 0 {
        lemma_nodes_frames_agree(s, os, fs, t, ot, ft, upto - 1);
        let k = upto - 1;
        let n = s[os[k] as int];
        assert(n == t[ot[k] as int]);
        let f = |x: GenerationFile| file_key(x);
        assert(keys_by(n.files@, f) =~= file_keys(n.files@));
        assert(orders_keys(file_keys(n.files@), fs[k]));
        assert(orders_keys(file_keys(n.files@), ft[k]));
        lemma_same_visit(n.files@, n.files@, fs[k], ft[k], f);
        lemma_files_frames_agree(n.files@, fs[k], n.files@, ft[k], 0x15, 0x16, n.files@.len() as int);
        assert(node_frames(n, fs[k]) == node_frames(n, ft[k]));
    }
}

/// Reordering the rows of any table leaves the closure generation as it
/// was: two inputs that differ only in the order of their tables frame the
/// same preimage under every valid visit, provided the files, nodes and
/// redirects are distinct by key.
pub proof fn law_table_order_does_not_change_generation(a: GraphGenerationInput, b: GraphGenerationInput)
    requires
        same_scalars(a, b),
        same_tables(a, b),
        tables_keyed(a),
    ensures
        forall|oa: GenerationOrder, ob: GenerationOrder| generation_order_valid(a, oa) && generation_order_valid(b, ob)
            ==> #[trigger] generation_preimage(a, oa) == #[trigger] generation_preimage(b, ob),
{
    assert forall|oa: GenerationOrder, ob: GenerationOrder| generation_order_valid(a, oa) && generation_order_valid(b, ob)
        implies #[trigger] generation_preimage(a, oa) == #[trigger] generation_preimage(b, ob) by {
        let ff = |x: GenerationFile| file_key(x);
        let nf = |x: GenerationNode| node_key(x);
        let ef = |x: GenerationEdge| edge_key(x);
        let mf = |x: GenerationMapping| mapping_key(x);
        let rf = |x: GenerationRedirect| redirect_key(x);
        assert(keys_by(a.root_files@, ff) =~= file_keys(a.root_files@));
        assert(keys_by(b.root_files@, ff) =~= file_keys(b.root_files@));
        assert(keys_by(a.inherited_nodes@, nf) =~= node_keys(a.inherited_nodes@));
        assert(keys_by(b.inherited_nodes@, nf) =~= node_keys(b.inherited_nodes@));
        assert(keys_by(a.edges@, ef) =~= edge_keys(a.edges@));
        assert(keys_by(b.edges@, ef) =~= edge_keys(b.edges@));
        assert(keys_by(a.mappings@, mf) =~= mapping_keys(a.mappings@));
        assert(keys_by(b.mappings@, mf) =~= mapping_keys(b.mappings@));
        assert(keys_by(a.terminal_redirects@, rf) =~= redirect_keys(a.terminal_redirects@));
        assert(keys_by(b.terminal_redirects@, rf) =~= redirect_keys(b.terminal_redirects@));

        lemma_same_visit(a.root_files@, b.root_files@, oa.0, ob.0, ff);
        lemma_files_frames_agree(a.root_files@, oa.0, b.root_files@, ob.0, 0x09, 0x0a, a.root_files@.len() as int);
        lemma_same_visit(a.inherited_nodes@, b.inherited_nodes@, oa.1, ob.1, nf);
        assert forall|k: int| 0 <= k < oa.1.len() implies (#[trigger] a.inherited_nodes@[oa.1[k] as int]).files@.len() <= usize::MAX
            && distinct_keys(a.inherited_nodes@[oa.1[k] as int].files@, |f: GenerationFile| file_key(f)) by {
            assert(oa.1[k] < a.inherited_nodes@.len());
        }
        lemma_nodes_frames_agree(a.inherited_nodes@, oa.1, oa.2, b.inherited_nodes@, ob.1, ob.2, a.inherited_nodes@.len() as int);
        lemma_sorted_keys_agree(a.edges@, b.edges@, oa.3, ob.3, ef);
        lemma_edges_frames_agree(a.edges@, oa.3, b.edges@, ob.3, a.edges@.len() as int);
        lemma_sorted_keys_agree(a.mappings@, b.mappings@, oa.4, ob.4, mf);
        lemma_mappings_frames_agree(a.mappings@, oa.4, b.mappings@, ob.4, a.mappings@.len() as int);
        lemma_same_visit(a.terminal_redirects@, b.terminal_redirects@, oa.5, ob.5, rf);
        lemma_redirects_frames_agree(a.terminal_redirects@, oa.5, b.terminal_redirects@, ob.5, a.terminal_redirects@.len() as int);
        assert(header_frames(a) == header_frames(b));
    }
}


fn copy_bytes(b: &Vec<u8>) -> (r: Vec<u8>)
    ensures
        r@ == b@,
{
    let mut r: Vec<u8> = Vec::new();
    let mut i: usize = 0;
    while i < b.len()
        invariant
            i <= b@.len(),
            r@ == b@.take(i as int),
        decreases b@.len() - i,
    {
        r.push(b[i]);
        i += 1;
        assert(r@ =~= b@.take(i as int));
    }
    assert(b@.take(b@.len() as int) =~= b@);
    r
}

fn copy_opt_bytes(b: &Option<Vec<u8>>) -> (r: Option<Vec<u8>>)
    ensures
        opt_bytes(r) == opt_bytes(*b),
{
    match b {
        Some(v) => Some(copy_bytes(v)),
        None => None,
    }
}

/// `g` is the generation row of snapshot file `f`.
pub open spec fn file_of(g: GenerationFile, f: crate::federation::SnapshotFile) -> bool {
    g.relative_path@ == f.relative_path@ && g.bytes@ == f.bytes@
}

pub open spec fn files_of(g: Seq<GenerationFile>, f: Seq<crate::federation::SnapshotFile>) -> bool {
    g.len() == f.len() && forall|i: int| 0 <= i < g.len() ==> file_of(#[trigger] g[i], f[i])
}

fn generation_files(files: &Vec<crate::federation::SnapshotFile>) -> (r: Vec<GenerationFile>)
    ensures
        files_of(r@, files@),
{
    let mut r: Vec<GenerationFile> = Vec::new();
    let mut i: usize = 0;
    while i < files.len()
        invariant
            i <= files@.len(),
            r@.len() == i,
            forall|k: int| 0 <= k < i ==> file_of(#[trigger] r@[k], files@[k]),
        decreases files@.len() - i,
    {
        r.push(GenerationFile { relative_path: files[i].relative_path.clone(), bytes: copy_bytes(&files[i].bytes) });
        i += 1;
    }
    r
}

/// `g` is the generation row of inherited node `n`.
pub open spec fn node_of(g: GenerationNode, n: crate::federation::VerifiedFederationNode) -> bool {
    &&& g.source@ == n.source@
    &&& g.canonical_digest@ == n.digest@
    &&& g.config_bytes@ == n.config_bytes@
    &&& opt_bytes(g.manifest_bytes) == opt_bytes(n.manifest_bytes)
    &&& files_of(g.files@, n.files@)
}

/// `g` is the generation row of verified edge `e`.
pub open spec fn edge_of(g: GenerationEdge, e: crate::federation::VerifiedFederationEdge) -> bool {
    &&& g.owner_source@ == e.owner_source@
    &&& g.target_source@ == e.target_source@
    &&& g.declared_pin@ == e.declared_digest@
    &&& g.alias@ == e.alias@
    &&& g.root@ == e.root@
    &&& g.corpus@ == e.corpus@
}

/// `g` is the generation row of compiled override `m`.
pub open spec fn mapping_of(g: GenerationMapping, m: crate::graph_composition::CompiledOverride) -> bool {
    g.owner_rank == m.owner_rank && g.owner_source@ == m.owner_source@ && g.target@ == m.target@
        && g.replacement@ == m.replacement@ && g.rationale@ == m.rationale@
}

pub open spec fn redirect_views(v: Seq<GenerationRedirect>) -> Seq<((Seq<char>, Seq<char>), (Seq<char>, Seq<char>))> {
    Seq::new(v.len(), |i: int| (v[i].target@, v[i].terminal@))
}

/// The generation input of a verified closure and its compiled graph: the
/// root's records as verified, one row per node, edge and compiled
/// override, and the root's terminal redirects.
pub open spec fn input_of(g: GraphGenerationInput, v: crate::federation::VerifiedFederation, recursive: bool, c: crate::graph_composed::GraphComposition) -> bool {
    &&& g.recursive == recursive
    &&& g.root_source@ == v.root_source@
    &&& g.root_corpus_path@ == v.root_corpus_path@
    &&& g.root_config_bytes@ == v.root_config_bytes@
    &&& opt_bytes(g.root_manifest_bytes) == Some(v.manifest.bytes@)
    &&& files_of(g.root_files@, v.root_files@)
    &&& g.inherited_nodes@.len() == v.nodes@.len()
    &&& forall|i: int| 0 <= i < v.nodes@.len() ==> node_of(#[trigger] g.inherited_nodes@[i], v.nodes@[i])
    &&& g.edges@.len() == v.edges@.len()
    &&& forall|i: int| 0 <= i < v.edges@.len() ==> edge_of(#[trigger] g.edges@[i], v.edges@[i])
    &&& g.mappings@.len() == c.ordered_view().len()
    &&& forall|i: int| 0 <= i < g.mappings@.len() ==> mapping_of(#[trigger] g.mappings@[i], c.ordered_view()[i])
    &&& forall|x| #[trigger] redirect_views(g.terminal_redirects@).contains(x)
        <==> crate::graph_composed::redirect_pairs(c.catalog_view(), c.projections_view()[c.root_pos()]).contains(x)
}

/// The generation input of a verified closure and its compiled graph.
pub fn generation_input_from_verified(verified: &crate::federation::VerifiedFederation, recursive: bool,
    composition: &crate::graph_composed::GraphComposition) -> (r: GraphGenerationInput)
    ensures
        input_of(r, *verified, recursive, *composition),
{
    let mut nodes: Vec<GenerationNode> = Vec::new();
    let mut i: usize = 0;
    while i < verified.nodes.len()
        invariant
            i <= verified.nodes@.len(),
            nodes@.len() == i,
            forall|k: int| 0 <= k < i ==> node_of(#[trigger] nodes@[k], verified.nodes@[k]),
        decreases verified.nodes@.len() - i,
    {
        let n = &verified.nodes[i];
        nodes.push(GenerationNode {
            source: n.source.clone(),
            canonical_digest: n.digest.clone(),
            config_bytes: copy_bytes(&n.config_bytes),
            manifest_bytes: copy_opt_bytes(&n.manifest_bytes),
            files: generation_files(&n.files),
        });
        i += 1;
    }
    let mut edges: Vec<GenerationEdge> = Vec::new();
    let mut i: usize = 0;
    while i < verified.edges.len()
        invariant
            i <= verified.edges@.len(),
            edges@.len() == i,
            forall|k: int| 0 <= k < i ==> edge_of(#[trigger] edges@[k], verified.edges@[k]),
        decreases verified.edges@.len() - i,
    {
        let e = &verified.edges[i];
        edges.push(GenerationEdge {
            owner_source: e.owner_source.clone(),
            target_source: e.target_source.clone(),
            declared_pin: e.declared_digest.clone(),
            alias: e.alias.clone(),
            root: e.root.clone(),
            corpus: e.corpus.clone(),
        });
        i += 1;
    }
    let ordered = composition.ordered_overrides();
    let mut mappings: Vec<GenerationMapping> = Vec::new();
    let mut i: usize = 0;
    while i < ordered.len()
        invariant
            i <= ordered@.len(),
            ordered@ == composition.ordered_view(),
            mappings@.len() == i,
            forall|k: int| 0 <= k < i ==> mapping_of(#[trigger] mappings@[k], ordered@[k]),
        decreases ordered@.len() - i,
    {
        let m = &ordered[i];
        mappings.push(GenerationMapping {
            owner_rank: m.owner_rank,
            owner_source: m.owner_source.clone(),
            target: m.target.dup(),
            replacement: m.replacement.dup(),
            rationale: m.rationale.dup(),
        });
        i += 1;
    }
    let pairs = composition.terminal_redirects();
    let mut redirects: Vec<GenerationRedirect> = Vec::new();
    let mut i: usize = 0;
    while i < pairs.len()
        invariant
            i <= pairs@.len(),
            redirect_views(redirects@) == crate::graph_composed::pair_views(pairs@).take(i as int),
        decreases pairs@.len() - i,
    {
        let row = GenerationRedirect { target: pairs[i].0.dup(), terminal: pairs[i].1.dup() };
        let ghost before = redirects@;
        redirects.push(row);
        assert(redirect_views(redirects@) =~= redirect_views(before).push((pairs@[i as int].0@, pairs@[i as int].1@)));
        assert(crate::graph_composed::pair_views(pairs@).take(i as int + 1)
            =~= crate::graph_composed::pair_views(pairs@).take(i as int).push((pairs@[i as int].0@, pairs@[i as int].1@)));
        i += 1;
    }
    assert(crate::graph_composed::pair_views(pairs@).take(pairs@.len() as int) =~= crate::graph_composed::pair_views(pairs@));
    GraphGenerationInput {
        recursive,
        root_source: verified.root_source.clone(),
        root_corpus_path: verified.root_corpus_path.clone(),
        root_config_bytes: copy_bytes(&verified.root_config_bytes),
        root_manifest_bytes: Some(copy_bytes(&verified.manifest.bytes)),
        root_files: generation_files(&verified.root_files),
        inherited_nodes: nodes,
        edges,
        mappings,
        terminal_redirects: redirects,
    }
}

/// The closure generation of a verified closure and its compiled graph.
pub fn closure_generation_from_verified(verified: &crate::federation::VerifiedFederation, recursive: bool,
    composition: &crate::graph_composed::GraphComposition) -> (r: String)
    ensures
        exists|g: GraphGenerationInput, o: GenerationOrder| input_of(g, *verified, recursive, *composition)
            && generation_order_valid(g, o) && r@ == "sha256-v3:"@ + hex(sha256_digest(#[trigger] generation_preimage(g, o))),
{
    let g = generation_input_from_verified(verified, recursive, composition);
    let r = closure_generation(&g);
    proof {
        let o = choose|o: GenerationOrder| generation_order_valid(g, o)
            && r@ == "sha256-v3:"@ + hex(sha256_digest(#[trigger] generation_preimage(g, o)));
        assert(input_of(g, *verified, recursive, *composition) && generation_order_valid(g, o)
            && r@ == "sha256-v3:"@ + hex(sha256_digest(generation_preimage(g, o))));
    }
    r
}


pub open spec fn header_prefix(input: GraphGenerationInput) -> Seq<u8> {
    utf8(GENERATION_DOMAIN@)
        + frame(0x01, utf8(GRAPH_CONTRACT@))
        + frame(0x02, utf8(LIMIT_BLOCK@))
        + frame(0x03, seq![if input.recursive { 1u8 } else { 0u8 }])
        + frame(0x04, utf8(input.root_source@))
        + frame(0x05, utf8(input.root_corpus_path@))
        + frame(0x06, input.root_config_bytes@)
}

proof fn lemma_preimage_keeps_header(input: GraphGenerationInput, o: GenerationOrder, i: int)
    requires
        0 <= i < header_frames(input).len(),
    ensures
        generation_preimage(input, o)[i] == header_frames(input)[i],
{
    let h = header_frames(input);
    let s1 = h + files_frames(input.root_files@, o.0, 0x09, 0x0a, input.root_files@.len() as int);
    let s2 = s1 + nodes_frames(input.inherited_nodes@, o.1, o.2, input.inherited_nodes@.len() as int);
    let s3 = s2 + edges_frames(input.edges@, o.3, input.edges@.len() as int);
    let s4 = s3 + mappings_frames(input.mappings@, o.4, input.mappings@.len() as int);
    let s5 = s4 + redirects_frames(input.terminal_redirects@, o.5, input.terminal_redirects@.len() as int);
    assert(generation_preimage(input, o) == s5 + trailer_frames());
    assert(s1[i] == h[i]);
    assert(s2[i] == s1[i]);
    assert(s3[i] == s2[i]);
    assert(s4[i] == s3[i]);
    assert(s5[i] == s4[i]);
    assert((s5 + trailer_frames())[i] == s5[i]);
}

proof fn lemma_presence_byte(input: GraphGenerationInput)
    ensures
        header_prefix(input).len() + 9 < header_frames(input).len(),
        header_frames(input)[header_prefix(input).len() as int + 9] == (if input.root_manifest_bytes is None { 0u8 } else { 1u8 }),
{
    crate::hashing::lemma_be_bytes_len(1, 8);
    let p = header_prefix(input);
    let m = manifest_frames(0x07, 0x08, opt_bytes(input.root_manifest_bytes));
    assert(header_frames(input) == p + m);
    let f = frame(0x07, seq![if input.root_manifest_bytes is None { 0u8 } else { 1u8 }]);
    assert(f.len() == 10);
    assert(f[9] == (if input.root_manifest_bytes is None { 0u8 } else { 1u8 }));
    assert(m.len() >= 10 && m[9] == f[9]) by {
        match opt_bytes(input.root_manifest_bytes) {
            Some(b) => {
                assert((f + frame(0x08, b))[9] == f[9]);
            },
            None => {},
        }
    }
    assert((p + m)[p.len() as int + 9] == m[9]);
}

/// Whether the root manifest is absent or present but empty is part of what
/// the generation hashes: the two inputs, equal otherwise in their header,
/// never give the same preimage, whatever the orders of their tables.
pub proof fn law_manifest_absence_differs_from_empty(a: GraphGenerationInput, b: GraphGenerationInput)
    requires
        a.recursive == b.recursive,
        a.root_source@ == b.root_source@,
        a.root_corpus_path@ == b.root_corpus_path@,
        a.root_config_bytes@ == b.root_config_bytes@,
        a.root_manifest_bytes is None,
        opt_bytes(b.root_manifest_bytes) == Some(Seq::<u8>::empty()),
    ensures
        forall|oa: GenerationOrder, ob: GenerationOrder| #[trigger] generation_preimage(a, oa) != #[trigger] generation_preimage(b, ob),
{
    lemma_presence_byte(a);
    lemma_presence_byte(b);
    assert(header_prefix(a) == header_prefix(b));
    let i: int = header_prefix(a).len() as int + 9;
    assert forall|oa: GenerationOrder, ob: GenerationOrder| #[trigger] generation_preimage(a, oa) != #[trigger] generation_preimage(b, ob) by {
        lemma_preimage_keeps_header(a, oa, i);
        lemma_preimage_keeps_header(b, ob, i);
    }
}

/// Big-endian byte strings of one width name one number below its range.
proof fn lemma_be_bytes_injective(n: nat, m: nat, k: nat)
    requires
        n < vstd::arithmetic::power::pow(256, k),
        m < vstd::arithmetic::power::pow(256, k),
        crate::hashing::be_bytes(n, k) == crate::hashing::be_bytes(m, k),
    ensures
        n == m,
    decreases k,
{
    if k == 0 {
        vstd::arithmetic::power::lemma_pow0(256);
    } else {
        let bn = crate::hashing::be_bytes(n / 256, (k - 1) as nat);
        let bm = crate::hashing::be_bytes(m / 256, (k - 1) as nat);
        crate::hashing::lemma_be_bytes_len(n / 256, (k - 1) as nat);
        crate::hashing::lemma_be_bytes_len(m / 256, (k - 1) as nat);
        let xn = crate::hashing::be_bytes(n, k);
        let xm = crate::hashing::be_bytes(m, k);
        assert(xn == bn.push((n % 256) as u8));
        assert(xm == bm.push((m % 256) as u8));
        assert(bn =~= xn.drop_last());
        assert(bm =~= xm.drop_last());
        assert(xn.last() == xm.last());
        assert(n % 256 < 256 && m % 256 < 256);
        assert(n % 256 == m % 256);
        vstd::arithmetic::power::lemma_pow_adds(256, 1, (k - 1) as nat);
        vstd::arithmetic::power::lemma_pow1(256);
        let p = vstd::arithmetic::power::pow(256, (k - 1) as nat);
        assert(vstd::arithmetic::power::pow(256, k) == 256 * p);
        assert(n / 256 < p) by (nonlinear_arith)
            requires n < 256 * p;
        assert(m / 256 < p) by (nonlinear_arith)
            requires m < 256 * p;
        lemma_be_bytes_injective(n / 256, m / 256, (k - 1) as nat);
        assert(n == 256 * (n / 256) + n % 256) by (nonlinear_arith);
        assert(m == 256 * (m / 256) + m % 256) by (nonlinear_arith);
    }
}

/// Two frames of one tag after one prefix differ at some byte within both
/// frames when their payloads differ.
pub proof fn lemma_frames_apart(prefix: Seq<u8>, tag: u8, x: Seq<u8>, y: Seq<u8>) -> (i: int)
    requires
        x != y,
        x.len() < 0x1_0000_0000_0000_0000,
        y.len() < 0x1_0000_0000_0000_0000,
    ensures
        prefix.len() <= i < (prefix + frame(tag, x)).len(),
        i < (prefix + frame(tag, y)).len(),
        (prefix + frame(tag, x))[i] != (prefix + frame(tag, y))[i],
{
    let a = prefix + frame(tag, x);
    let b = prefix + frame(tag, y);
    let p = prefix.len() as int;
    crate::hashing::lemma_be_bytes_len(x.len(), 8);
    crate::hashing::lemma_be_bytes_len(y.len(), 8);
    let lx = crate::hashing::be_bytes(x.len(), 8);
    let ly = crate::hashing::be_bytes(y.len(), 8);
    let fx = frame(tag, x);
    let fy = frame(tag, y);
    assert(fx == seq![tag] + lx + x);
    assert(fy == seq![tag] + ly + y);
    if lx != ly {
        if forall|k: int| 0 <= k < 8 ==> lx[k] == ly[k] {
            assert(lx =~= ly);
        }
        let k = choose|k: int| 0 <= k < 8 && lx[k] != ly[k];
        assert(fx[1 + k] == lx[k]);
        assert(fy[1 + k] == ly[k]);
        assert(a[p + 1 + k] == fx[1 + k]);
        assert(b[p + 1 + k] == fy[1 + k]);
        p + 1 + k
    } else {
        vstd::arithmetic::power::lemma_pow_positive(256, 8);
        assert(vstd::arithmetic::power::pow(256, 8) == 0x1_0000_0000_0000_0000) by {
            reveal_with_fuel(vstd::arithmetic::power::pow, 9);
        }
        lemma_be_bytes_injective(x.len(), y.len(), 8);
        if forall|j: int| 0 <= j < x.len() ==> x[j] == y[j] {
            assert(x =~= y);
        }
        let j = choose|j: int| 0 <= j < x.len() && x[j] != y[j];
        assert(fx[9 + j] == x[j]);
        assert(fy[9 + j] == y[j]);
        assert(a[p + 9 + j] == fx[9 + j]);
        assert(b[p + 9 + j] == fy[9 + j]);
        p + 9 + j
    }
}

/// `utf8` keeps distinct texts distinct.
proof fn lemma_utf8_injective(a: Seq<char>, b: Seq<char>)
    requires
        a != b,
    ensures
        utf8(a) != utf8(b),
{
    vstd::utf8::encode_utf8_decode_utf8(a);
    vstd::utf8::encode_utf8_decode_utf8(b);
}

/// The header's fields are all a preimage answers to before its tables:
/// two inputs whose flag, root source, root corpus path, root config or root
/// manifest (absent, or its bytes) differ never give the same preimage,
/// whatever the orders of their tables. Lengths are those a machine holds.
pub proof fn law_header_change_changes_preimage(a: GraphGenerationInput, b: GraphGenerationInput)
    requires
        a.recursive != b.recursive || a.root_source@ != b.root_source@ || a.root_corpus_path@ != b.root_corpus_path@
            || a.root_config_bytes@ != b.root_config_bytes@ || opt_bytes(a.root_manifest_bytes) != opt_bytes(b.root_manifest_bytes),
        utf8(a.root_source@).len() < 0x1_0000_0000_0000_0000,
        utf8(b.root_source@).len() < 0x1_0000_0000_0000_0000,
        utf8(a.root_corpus_path@).len() < 0x1_0000_0000_0000_0000,
        utf8(b.root_corpus_path@).len() < 0x1_0000_0000_0000_0000,
        a.root_config_bytes@.len() < 0x1_0000_0000_0000_0000,
        b.root_config_bytes@.len() < 0x1_0000_0000_0000_0000,
        a.root_manifest_bytes matches Some(m) ==> m@.len() < 0x1_0000_0000_0000_0000,
        b.root_manifest_bytes matches Some(m) ==> m@.len() < 0x1_0000_0000_0000_0000,
    ensures
        forall|oa: GenerationOrder, ob: GenerationOrder| #[trigger] generation_preimage(a, oa) != #[trigger] generation_preimage(b, ob),
{
    let i = lemma_headers_apart(a, b);
    assert forall|oa: GenerationOrder, ob: GenerationOrder| #[trigger] generation_preimage(a, oa) != #[trigger] generation_preimage(b, ob) by {
        lemma_preimage_keeps_header(a, oa, i);
        lemma_preimage_keeps_header(b, ob, i);
    }
}

/// Where two headers with a differing field differ.
#[verifier::spinoff_prover]
proof fn lemma_headers_apart(a: GraphGenerationInput, b: GraphGenerationInput) -> (i: int)
    requires
        a.recursive != b.recursive || a.root_source@ != b.root_source@ || a.root_corpus_path@ != b.root_corpus_path@
            || a.root_config_bytes@ != b.root_config_bytes@ || opt_bytes(a.root_manifest_bytes) != opt_bytes(b.root_manifest_bytes),
        utf8(a.root_source@).len() < 0x1_0000_0000_0000_0000,
        utf8(b.root_source@).len() < 0x1_0000_0000_0000_0000,
        utf8(a.root_corpus_path@).len() < 0x1_0000_0000_0000_0000,
        utf8(b.root_corpus_path@).len() < 0x1_0000_0000_0000_0000,
        a.root_config_bytes@.len() < 0x1_0000_0000_0000_0000,
        b.root_config_bytes@.len() < 0x1_0000_0000_0000_0000,
        a.root_manifest_bytes matches Some(m) ==> m@.len() < 0x1_0000_0000_0000_0000,
        b.root_manifest_bytes matches Some(m) ==> m@.len() < 0x1_0000_0000_0000_0000,
    ensures
        0 <= i < header_frames(a).len(),
        i < header_frames(b).len(),
        header_frames(a)[i] != header_frames(b)[i],
{
    let d = utf8(GENERATION_DOMAIN@) + frame(0x01, utf8(GRAPH_CONTRACT@)) + frame(0x02, utf8(LIMIT_BLOCK@));
    let ra = seq![if a.recursive { 1u8 } else { 0u8 }];
    let rb = seq![if b.recursive { 1u8 } else { 0u8 }];
    let sa = utf8(a.root_source@);
    let sb = utf8(b.root_source@);
    let ca = utf8(a.root_corpus_path@);
    let cb = utf8(b.root_corpus_path@);
    let ma = manifest_frames(0x07, 0x08, opt_bytes(a.root_manifest_bytes));
    let mb = manifest_frames(0x07, 0x08, opt_bytes(b.root_manifest_bytes));
    let ha = header_frames(a);
    let hb = header_frames(b);
    let d3a = d + frame(0x03, ra);
    let d4a = d3a + frame(0x04, sa);
    let d5a = d4a + frame(0x05, ca);
    let d6a = d5a + frame(0x06, a.root_config_bytes@);
    let d3b = d + frame(0x03, rb);
    let d4b = d3b + frame(0x04, sb);
    let d5b = d4b + frame(0x05, cb);
    let d6b = d5b + frame(0x06, b.root_config_bytes@);
    assert(ha == d6a + ma);
    assert(hb == d6b + mb);
    if a.recursive != b.recursive {
        assert(ra != rb) by { assert(ra[0] != rb[0]); }
        let i = lemma_frames_apart(d, 0x03, ra, rb);
        assert(ha[i] == d3a[i]);
        assert(hb[i] == d3b[i]);
        i
    } else if a.root_source@ != b.root_source@ {
        assert(ra == rb);
        lemma_utf8_injective(a.root_source@, b.root_source@);
        let i = lemma_frames_apart(d3a, 0x04, sa, sb);
        assert(ha[i] == d4a[i]);
        assert(hb[i] == d4b[i]);
        i
    } else if a.root_corpus_path@ != b.root_corpus_path@ {
        assert(ra == rb);
        assert(d4a == d4b);
        lemma_utf8_injective(a.root_corpus_path@, b.root_corpus_path@);
        let i = lemma_frames_apart(d4a, 0x05, ca, cb);
        assert(ha[i] == d5a[i]);
        assert(hb[i] == d5b[i]);
        i
    } else if a.root_config_bytes@ != b.root_config_bytes@ {
        assert(ra == rb);
        assert(d5a == d5b);
        let i = lemma_frames_apart(d5a, 0x06, a.root_config_bytes@, b.root_config_bytes@);
        assert(ha[i] == d6a[i]);
        assert(hb[i] == d6b[i]);
        i
    } else {
        assert(ra == rb);
        assert(d6a == d6b);
        let pa = seq![if a.root_manifest_bytes is None { 0u8 } else { 1u8 }];
        let pb = seq![if b.root_manifest_bytes is None { 0u8 } else { 1u8 }];
        if (a.root_manifest_bytes is None) != (b.root_manifest_bytes is None) {
            assert(pa != pb) by { assert(pa[0] != pb[0]); }
            let i = lemma_frames_apart(d6a, 0x07, pa, pb);
            let xa = match opt_bytes(a.root_manifest_bytes) { Some(m) => frame(0x08, m), None => Seq::empty() };
            let xb = match opt_bytes(b.root_manifest_bytes) { Some(m) => frame(0x08, m), None => Seq::empty() };
            assert(ma == frame(0x07, pa) + xa);
            assert(mb == frame(0x07, pb) + xb);
            assert(ha =~= (d6a + frame(0x07, pa)) + xa);
            assert(hb =~= (d6b + frame(0x07, pb)) + xb);
            assert(ha[i] == (d6a + frame(0x07, pa))[i]);
            assert(hb[i] == (d6b + frame(0x07, pb))[i]);
            i
        } else {
            let m1 = opt_bytes(a.root_manifest_bytes)->Some_0;
            let m2 = opt_bytes(b.root_manifest_bytes)->Some_0;
            assert(m1 != m2);
            assert(pa == pb);
            let d7 = d6a + frame(0x07, pa);
            assert(ma == frame(0x07, pa) + frame(0x08, m1));
            assert(mb == frame(0x07, pb) + frame(0x08, m2));
            assert(ha =~= d7 + frame(0x08, m1));
            assert(hb =~= d7 + frame(0x08, m2));
            let i = lemma_frames_apart(d7, 0x08, m1, m2);
            i
        }
    }
}

proof fn lemma_rank_free_frames(a: Seq<GenerationMapping>, b: Seq<GenerationMapping>, ord: Seq<usize>, upto: int)
    requires
        a.len() == b.len(),
        forall|i: int| 0 <= i < a.len() ==> mapping_frames(#[trigger] a[i]) == mapping_frames(b[i]),
        forall|k: int| 0 <= k < upto ==> 0 <= #[trigger] ord[k] < a.len(),
    ensures
        mappings_frames(a, ord, upto) == mappings_frames(b, ord, upto),
    decreases upto,
{
    if upto > 0 {
        lemma_rank_free_frames(a, b, ord, upto - 1);
        assert(mapping_frames(a[ord[upto - 1] as int]) == mapping_frames(b[ord[upto - 1] as int]));
    }
}

/// A mapping's owner rank is never framed itself: two inputs that differ
/// only in their mappings' ranks give the same preimage under the same
/// visiting order. A rank reaches the generation only through the order in
/// which the mappings are visited.
pub proof fn law_owner_rank_only_orders(a: GraphGenerationInput, b: GraphGenerationInput, o: GenerationOrder)
    requires
        header_frames(a) == header_frames(b),
        a.root_files@ == b.root_files@,
        a.inherited_nodes@ == b.inherited_nodes@,
        a.edges@ == b.edges@,
        a.terminal_redirects@ == b.terminal_redirects@,
        a.mappings@.len() == b.mappings@.len(),
        forall|i: int| 0 <= i < a.mappings@.len() ==> {
            let (x, y) = (#[trigger] a.mappings@[i], b.mappings@[i]);
            &&& x.owner_source@ == y.owner_source@
            &&& x.target@ == y.target@
            &&& x.replacement@ == y.replacement@
            &&& x.rationale@ == y.rationale@
        },
        forall|k: int| 0 <= k < a.mappings@.len() ==> 0 <= #[trigger] o.4[k] < a.mappings@.len(),
    ensures
        generation_preimage(a, o) == generation_preimage(b, o),
{
    assert forall|i: int| 0 <= i < a.mappings@.len() implies mapping_frames(#[trigger] a.mappings@[i]) == mapping_frames(b.mappings@[i]) by {
        let (x, y) = (a.mappings@[i], b.mappings@[i]);
        assert(key_frames(0x31, 0x32, x.target) == key_frames(0x31, 0x32, y.target));
        assert(key_frames(0x33, 0x34, x.replacement) == key_frames(0x33, 0x34, y.replacement));
        assert(key_frames(0x35, 0x36, x.rationale) == key_frames(0x35, 0x36, y.rationale));
    }
    lemma_rank_free_frames(a.mappings@, b.mappings@, o.4, a.mappings@.len() as int);
}

} // verus!
