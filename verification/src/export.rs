//! Export projections of a composed corpus: the pins an export accepts, the
//! public source-aware identity of an endpoint, and the edges of the graph
//! export of a graph composition.
use vstd::prelude::*;
use vstd::multiset::Multiset;

use crate::corpus::{opt_view, copy_opt, ArtifactKey, ArtifactOrigin};
use crate::derived_model::{origin_view, LayerView};
use crate::graph_composed::{provenance_upto, provenance_view, relationship_view, GraphComposition, RelationshipView};
use crate::graph_composed::{pair_views, redirect_pairs};
use crate::graph_composition::{keys_view, GraphOverrideProvenance, GraphOverrideState, GraphRelationship};
use crate::graph_overrides::key_pos;
use crate::graph_overrides::find_key;
use crate::item::CorpusItem;
use crate::composition::ComposedCorpus;
use crate::hashing::{hex, sha256_digest, utf8};
use vstd::utf8::{decode_utf8, valid_utf8};
use crate::order::{keyed_values, lemma_values_multiset, sort_by_key, strings_view, unkey, Keyed, SortKey};
use crate::text::{chars_of, concat2, keys_lt, owned, push_char, str_eq};

verus! {

pub const ERROR_SNAPSHOT_MISSING: &'static str = "federated-export-snapshot-missing";
pub const ERROR_MISSING_PROVENANCE: &'static str = "federated-export-missing-provenance";
pub const ERROR_RECORD_CONFLICT: &'static str = "federated-export-record-conflict";
pub const ERROR_INVALID_UTF8: &'static str = "federated-export-invalid-utf8";
pub const ERROR_MISSING_PIN: &'static str = "federated-export-missing-pin";

/// Why a federated export could not be built.
#[derive(Debug)]
pub struct FederatedExportError {
    message: String,
}

impl FederatedExportError {
    pub closed spec fn message_view(&self) -> Seq<char> {
        self.message@
    }

    fn new(message: String) -> (r: Self)
        ensures
            r.message_view() == message@,
    {
        FederatedExportError { message }
    }

    /// The error's text.
    pub fn message(&self) -> (r: &str)
        ensures
            r@ == self.message_view(),
    {
        self.message.as_str()
    }
}

/// Public source-aware endpoint identity: a key's source and canonical id.
#[derive(Debug, Clone, PartialEq, Eq, PartialOrd, Ord)]
pub struct ExportIdentity {
    pub source: String,
    pub id: String,
}

impl View for ExportIdentity {
    type V = (Seq<char>, Seq<char>);

    open spec fn view(&self) -> (Seq<char>, Seq<char>) {
        (self.source@, self.id@)
    }
}

impl ExportIdentity {
    /// The identity of an artifact key.
    pub fn from_key(key: &ArtifactKey) -> (r: Self)
        ensures
            r@ == key@,
    {
        ExportIdentity { source: owned(key.source.as_str()), id: owned(key.canonical_id.as_str()) }
    }
}

/// `c` is a lower-case hexadecimal digit.
pub open spec fn is_lower_hex(c: char) -> bool {
    ('0' <= c && c <= '9') || ('a' <= c && c <= 'f')
}

/// `pin` is `prefix` followed by exactly 64 lower-case hexadecimal digits.
pub open spec fn full_pin(pin: Seq<char>, prefix: Seq<char>) -> bool {
    &&& prefix.len() <= pin.len()
    &&& pin.take(prefix.len() as int) == prefix
    &&& pin.len() - prefix.len() == 64
    &&& forall|i: int| prefix.len() <= i < pin.len() ==> is_lower_hex(#[trigger] pin[i])
}

/// Whether `pin` is `prefix` and a complete lower-case SHA-256 hex digest.
pub fn full_pin_with_prefix(pin: &str, prefix: &str) -> (r: bool)
    ensures
        r == full_pin(pin@, prefix@),
{
    let p = chars_of(pin);
    let q = chars_of(prefix);
    if q.len() > p.len() {
        return false;
    }
    let mut i: usize = 0;
    while i < q.len()
        invariant
            i <= q@.len() <= p@.len(),
            p@ == pin@,
            q@ == prefix@,
            forall|k: int| 0 <= k < i ==> p@[k] == q@[k],
        decreases q@.len() - i,
    {
        if p[i] != q[i] {
            assert(p@.take(q@.len() as int)[i as int] != q@[i as int]);
            return false;
        }
        i += 1;
    }
    assert(p@.take(q@.len() as int) =~= q@);
    if p.len() - q.len() != 64 {
        return false;
    }
    let mut j: usize = q.len();
    while j < p.len()
        invariant
            q@.len() <= j <= p@.len(),
            p@ == pin@,
            q@ == prefix@,
            forall|k: int| q@.len() <= k < j ==> is_lower_hex(#[trigger] p@[k]),
        decreases p@.len() - j,
    {
        let c = p[j];
        if !(('0' <= c && c <= '9') || ('a' <= c && c <= 'f')) {
            assert(!is_lower_hex(p@[j as int]));
            return false;
        }
        j += 1;
    }
    true
}

/// A complete version-1 parent digest pin.
pub fn full_sha256_pin(pin: &str) -> (r: bool)
    ensures
        r == full_pin(pin@, "sha256:"@),
{
    full_pin_with_prefix(pin, "sha256:")
}

/// A complete graph corpus pin: a version-1 or version-2 digest.
pub fn full_graph_corpus_pin(pin: &str) -> (r: bool)
    ensures
        r == (full_pin(pin@, "sha256:"@) || full_pin(pin@, "sha256-v2:"@)),
{
    full_sha256_pin(pin) || full_pin_with_prefix(pin, "sha256-v2:")
}

/// `s` with every `\r\n`, then every remaining `\r`, turned into `\n`.
pub open spec fn normalized(s: Seq<char>) -> Seq<char>
    decreases s.len(),
{
    if s.len() == 0 {
        s
    } else if s[0] == '\r' && s.len() > 1 && s[1] == '\n' {
        seq!['\n'] + normalized(s.skip(2))
    } else if s[0] == '\r' {
        seq!['\n'] + normalized(s.skip(1))
    } else {
        seq![s[0]] + normalized(s.skip(1))
    }
}

/// Universal newlines: `\r\n` and a lone `\r` become `\n`.
pub fn normalize_newlines(text: &str) -> (r: String)
    ensures
        r@ == normalized(text@),
{
    let cs = chars_of(text);
    let mut out = String::new();
    let mut i: usize = 0;
    assert(cs@.skip(0) =~= cs@);
    while i < cs.len()
        invariant
            i <= cs@.len(),
            cs@ == text@,
            out@ + normalized(cs@.skip(i as int)) == normalized(text@),
        decreases cs@.len() - i,
    {
        let ghost rest = cs@.skip(i as int);
        let ghost before = out@;
        if cs[i] == '\r' && i + 1 < cs.len() && cs[i + 1] == '\n' {
            assert(rest.skip(2) =~= cs@.skip(i as int + 2));
            push_char(&mut out, '\n');
            i += 2;
            assert(before + normalized(rest) == out@ + normalized(cs@.skip(i as int)));
        } else {
            assert(rest.skip(1) =~= cs@.skip(i as int + 1));
            let c = if cs[i] == '\r' { '\n' } else { cs[i] };
            push_char(&mut out, c);
            i += 1;
            assert(before + normalized(rest) =~= out@ + normalized(cs@.skip(i as int)));
        }
    }
    assert(normalized(cs@.skip(i as int)) =~= Seq::<char>::empty());
    assert(out@ + Seq::<char>::empty() =~= out@);
    out
}

/// What the relationship vocabulary says of one edge type.
#[derive(Debug, Clone, PartialEq, Eq)]
pub struct EdgeKind {
    pub name: String,
    pub directional: bool,
    pub external_provider: bool,
}

/// The first kind named `name`.
pub open spec fn kind_of(kinds: Seq<EdgeKind>, name: Seq<char>) -> Option<EdgeKind>
    decreases kinds.len(),
{
    if kinds.len() == 0 {
        None
    } else if kinds[0].name@ == name {
        Some(kinds[0])
    } else {
        kind_of(kinds.drop_first(), name)
    }
}

pub open spec fn kind_directed(kinds: Seq<EdgeKind>, name: Seq<char>) -> bool {
    match kind_of(kinds, name) {
        Some(k) => k.directional,
        None => false,
    }
}

pub open spec fn kind_has_provider(kinds: Seq<EdgeKind>, name: Seq<char>) -> bool {
    match kind_of(kinds, name) {
        Some(k) => k.external_provider,
        None => false,
    }
}

fn find_kind<'a>(kinds: &'a Vec<EdgeKind>, name: &str) -> (r: Option<&'a EdgeKind>)
    ensures
        match r {
            Some(k) => kind_of(kinds@, name@) == Some(*k),
            None => kind_of(kinds@, name@) is None,
        },
{
    let mut i: usize = 0;
    assert(kinds@.skip(0) =~= kinds@);
    while i < kinds.len()
        invariant
            i <= kinds@.len(),
            kind_of(kinds@, name@) == kind_of(kinds@.skip(i as int), name@),
        decreases kinds@.len() - i,
    {
        assert(kinds@.skip(i as int).drop_first() =~= kinds@.skip(i as int + 1));
        if str_eq(kinds[i].name.as_str(), name) {
            return Some(&kinds[i]);
        }
        i += 1;
    }
    None
}

/// Where a redirect table sends key `k`: the terminal of the first entry
/// for `k`, or `k` itself.
pub open spec fn redirect_of(redirects: Seq<(ArtifactKey, ArtifactKey)>, k: (Seq<char>, Seq<char>)) -> (Seq<char>, Seq<char>)
    decreases redirects.len(),
{
    if redirects.len() == 0 {
        k
    } else if redirects[0].0@ == k {
        redirects[0].1@
    } else {
        redirect_of(redirects.drop_first(), k)
    }
}

fn redirect_target(redirects: &Vec<(ArtifactKey, ArtifactKey)>, k: &ArtifactKey) -> (r: ArtifactKey)
    ensures
        r@ == redirect_of(redirects@, k@),
{
    let mut i: usize = 0;
    assert(redirects@.skip(0) =~= redirects@);
    while i < redirects.len()
        invariant
            i <= redirects@.len(),
            redirect_of(redirects@, k@) == redirect_of(redirects@.skip(i as int), k@),
        decreases redirects@.len() - i,
    {
        assert(redirects@.skip(i as int).drop_first() =~= redirects@.skip(i as int + 1));
        if redirects[i].0.same(k) {
            return redirects[i].1.dup();
        }
        i += 1;
    }
    k.dup()
}

/// Complete ordered graph provenance of an exported record.
#[derive(Debug, Clone, PartialEq, Eq)]
pub struct GraphComposedProvenance {
    pub origin: ArtifactOrigin,
    pub overrides: Vec<GraphOverrideProvenance>,
}

/// One edge of the graph export.
#[derive(Debug, Clone, PartialEq, Eq)]
pub struct GraphEdge {
    pub source: String,
    pub target: String,
    pub edge_type: String,
    pub directed: bool,
    pub resolved: bool,
    pub external: bool,
    pub provider: Option<String>,
    pub source_identity: Option<ExportIdentity>,
    pub target_identity: Option<ExportIdentity>,
    pub graph_provenance: Option<GraphComposedProvenance>,
    pub authored_token: Option<String>,
    pub historical_candidates: Vec<ExportIdentity>,
    pub effective_terminal: Option<ExportIdentity>,
}

pub type ProvenanceView = (GraphOverrideState, Seq<char>, (Seq<char>, Seq<char>), (Seq<char>, Seq<char>), (Seq<char>, Seq<char>));

pub open spec fn provenance_views(v: Seq<GraphOverrideProvenance>) -> Seq<ProvenanceView> {
    Seq::new(v.len(), |i: int| provenance_view(v[i]))
}

pub open spec fn opt_identity(o: Option<ExportIdentity>) -> Option<(Seq<char>, Seq<char>)> {
    match o {
        Some(x) => Some(x@),
        None => None,
    }
}

pub open spec fn identities_view(v: Seq<ExportIdentity>) -> Seq<(Seq<char>, Seq<char>)> {
    Seq::new(v.len(), |i: int| v[i]@)
}

/// The terminal an endpoint resolves to after the redirects, if it resolved.
pub open spec fn effective_of(rv: RelationshipView, redirects: Seq<(ArtifactKey, ArtifactKey)>) -> Option<(Seq<char>, Seq<char>)> {
    match rv.4 {
        Some(t) => Some(redirect_of(redirects, t)),
        None => None,
    }
}

pub open spec fn provenance_is(p: Option<GraphComposedProvenance>, origin: LayerView, overrides: Seq<ProvenanceView>) -> bool {
    match p {
        Some(g) => origin_view(g.origin) == origin && provenance_views(g.overrides@) == overrides,
        None => false,
    }
}

/// `e` is the graph export edge of endpoint `rv`, authored by `source`,
/// whose overrides are `overrides`.
pub open spec fn edge_is(
    e: GraphEdge,
    rv: RelationshipView,
    source: CorpusItem,
    overrides: Seq<ProvenanceView>,
    redirects: Seq<(ArtifactKey, ArtifactKey)>,
    kinds: Seq<EdgeKind>,
    provider: Option<Seq<char>>,
) -> bool {
    let eff = effective_of(rv, redirects);
    &&& e.source@ == source.key.canonical_id@
    &&& e.target@ == (match eff {
        Some(k) => k.1,
        None => rv.2,
    })
    &&& e.edge_type@ == rv.1
    &&& e.directed == kind_directed(kinds, rv.1)
    &&& e.resolved == eff is Some
    &&& e.external == rv.6
    &&& opt_view(e.provider) == (if kind_has_provider(kinds, rv.1) { provider } else { None })
    &&& opt_identity(e.source_identity) == Some(source.key@)
    &&& opt_identity(e.target_identity) == eff
    &&& opt_identity(e.effective_terminal) == eff
    &&& provenance_is(e.graph_provenance, origin_view(source.origin), overrides)
    &&& opt_view(e.authored_token) == Some(rv.2)
    &&& identities_view(e.historical_candidates@) == rv.3
}

fn copy_origin(o: &ArtifactOrigin) -> (r: ArtifactOrigin)
    ensures
        origin_view(r) == origin_view(*o),
{
    ArtifactOrigin { source: owned(o.source.as_str()), layer: o.layer, pin: copy_opt(&o.pin), alias: copy_opt(&o.alias) }
}

/// The export edge of one relationship authored by `source`.
fn graph_edge(
    rel: &GraphRelationship,
    source: &CorpusItem,
    overrides: Vec<GraphOverrideProvenance>,
    redirects: &Vec<(ArtifactKey, ArtifactKey)>,
    kinds: &Vec<EdgeKind>,
    provider: &Option<String>,
) -> (e: GraphEdge)
    requires
        source.key@ == rel.source@,
    ensures
        edge_is(e, relationship_view(*rel), *source, provenance_views(overrides@), redirects@, kinds@, opt_view(*provider)),
{
    let kind = find_kind(kinds, rel.relationship.as_str());
    let (directed, with_provider) = match kind {
        Some(k) => (k.directional, k.external_provider),
        None => (false, false),
    };
    let effective: Option<ArtifactKey> = match &rel.effective_terminal {
        Some(t) => Some(redirect_target(redirects, t)),
        None => None,
    };
    let target = match &effective {
        Some(k) => owned(k.canonical_id.as_str()),
        None => owned(rel.authored_token.as_str()),
    };
    let target_identity = match &effective {
        Some(k) => Some(ExportIdentity::from_key(k)),
        None => None,
    };
    let effective_terminal = match &effective {
        Some(k) => Some(ExportIdentity::from_key(k)),
        None => None,
    };
    let mut historical: Vec<ExportIdentity> = Vec::new();
    let mut i: usize = 0;
    while i < rel.historical_candidates.len()
        invariant
            i <= rel.historical_candidates@.len(),
            historical@.len() == i,
            forall|k: int| 0 <= k < i ==> (#[trigger] historical@[k])@ == rel.historical_candidates@[k]@,
        decreases rel.historical_candidates@.len() - i,
    {
        historical.push(ExportIdentity::from_key(&rel.historical_candidates[i]));
        i += 1;
    }
    assert(identities_view(historical@) =~= crate::graph_composition::keys_view(rel.historical_candidates@));
    let e = GraphEdge {
        source: owned(source.key.canonical_id.as_str()),
        target,
        edge_type: owned(rel.relationship.as_str()),
        directed,
        resolved: effective.is_some(),
        external: rel.external,
        provider: if with_provider { copy_opt(provider) } else { None },
        source_identity: Some(ExportIdentity::from_key(&source.key)),
        target_identity,
        graph_provenance: Some(GraphComposedProvenance { origin: copy_origin(&source.origin), overrides }),
        authored_token: Some(owned(rel.authored_token.as_str())),
        historical_candidates: historical,
        effective_terminal,
    };
    e
}

/// The order key parts of an optional identity: absent first.
pub open spec fn identity_parts(o: Option<ExportIdentity>) -> Seq<Seq<char>> {
    match o {
        None => seq![""@],
        Some(x) => seq!["\u{1}"@, x.source@, x.id@],
    }
}

/// The order key parts of a list of identities, element by element, a
/// shorter prefix first.
pub open spec fn identity_list_parts(v: Seq<ExportIdentity>, upto: int) -> Seq<Seq<char>>
    decreases upto,
{
    if upto <= 0 {
        Seq::empty()
    } else {
        identity_list_parts(v, upto - 1) + seq!["\u{1}"@, v[upto - 1].source@, v[upto - 1].id@]
    }
}

pub open spec fn token_part(o: Option<String>) -> Seq<char> {
    match o {
        None => ""@,
        Some(t) => "\u{1}"@ + t@,
    }
}

/// The order of graph export edges: source identity, edge type, authored
/// token, historical candidates, then effective terminal.
pub open spec fn edge_sort_key(e: GraphEdge) -> Seq<Seq<char>> {
    identity_parts(e.source_identity) + seq![e.edge_type@, token_part(e.authored_token)]
        + identity_list_parts(e.historical_candidates@, e.historical_candidates@.len() as int) + seq![""@]
        + identity_parts(e.effective_terminal)
}

fn push_identity_parts(key: &mut Vec<String>, o: &Option<ExportIdentity>)
    ensures
        strings_view(final(key)@) == strings_view(old(key)@) + identity_parts(*o),
{
    let ghost before = strings_view(key@);
    match o {
        None => {
            key.push(owned(""));
        },
        Some(x) => {
            key.push(owned("\u{1}"));
            key.push(owned(x.source.as_str()));
            key.push(owned(x.id.as_str()));
        },
    }
    assert(strings_view(key@) =~= before + identity_parts(*o));
}

fn edge_key(e: &GraphEdge) -> (r: Vec<String>)
    ensures
        strings_view(r@) == edge_sort_key(*e),
{
    let mut key: Vec<String> = Vec::new();
    assert(strings_view(key@) =~= Seq::<Seq<char>>::empty());
    push_identity_parts(&mut key, &e.source_identity);
    let ghost b0 = strings_view(key@);
    key.push(owned(e.edge_type.as_str()));
    match &e.authored_token {
        None => key.push(owned("")),
        Some(t) => key.push(concat2("\u{1}", t.as_str())),
    }
    assert(strings_view(key@) =~= b0 + seq![e.edge_type@, token_part(e.authored_token)]);
    let ghost b1 = strings_view(key@);
    let mut i: usize = 0;
    while i < e.historical_candidates.len()
        invariant
            i <= e.historical_candidates@.len(),
            strings_view(key@) == b1 + identity_list_parts(e.historical_candidates@, i as int),
        decreases e.historical_candidates@.len() - i,
    {
        let ghost before = strings_view(key@);
        key.push(owned("\u{1}"));
        key.push(owned(e.historical_candidates[i].source.as_str()));
        key.push(owned(e.historical_candidates[i].id.as_str()));
        assert(strings_view(key@) =~= before + seq!["\u{1}"@, e.historical_candidates@[i as int].source@, e.historical_candidates@[i as int].id@]);
        i += 1;
        assert(strings_view(key@) =~= b1 + identity_list_parts(e.historical_candidates@, i as int));
    }
    let ghost b2 = strings_view(key@);
    key.push(owned(""));
    assert(strings_view(key@) =~= b2 + seq![""@]);
    push_identity_parts(&mut key, &e.effective_terminal);
    assert(strings_view(key@) =~= edge_sort_key(*e));
    key
}

/// Where a key sits in the catalog.
proof fn lemma_key_pos(items: Seq<CorpusItem>, k: (Seq<char>, Seq<char>), upto: int)
    requires
        upto <= items.len(),
    ensures
        key_pos(items, k, upto) matches Some(i) ==> 0 <= i < upto && items[i].key@ == k,
    decreases upto,
{
    if upto > 0 {
        lemma_key_pos(items, k, upto - 1);
    }
}

/// The endpoints of every catalog item, item by item, resolved in the
/// authoring source.
pub open spec fn catalog_endpoints(g: GraphComposition) -> Seq<RelationshipView> {
    Seq::new(g.catalog_view().len(), |i: int| g.item_endpoints(g.catalog_view()[i], false)).flatten_alt()
}

/// The overrides catalog artifact `a` takes part in, at the root.
pub open spec fn root_overrides(g: GraphComposition, a: int) -> Seq<ProvenanceView> {
    provenance_upto(g.projections_view()[g.root_pos()], g.reps_view(), g.catalog_view(), g.ordered_view(), a,
        g.ordered_view().len() as int)
}

/// The endpoint's authoring artifact is not in the catalog.
pub open spec fn source_missing(g: GraphComposition, rv: RelationshipView) -> bool {
    find_key(g.catalog_view(), rv.0) is None
}

/// The positions, among the first `upto` endpoints, whose authoring artifact
/// the export includes.
pub open spec fn exported_positions(rels: Seq<RelationshipView>, included: Seq<ArtifactKey>, upto: int) -> Seq<int>
    decreases upto,
{
    if upto <= 0 {
        Seq::empty()
    } else {
        let p = exported_positions(rels, included, upto - 1);
        if keys_view(included).contains(rels[upto - 1].0) { p.push(upto - 1) } else { p }
    }
}

/// `e` is the export edge of endpoint `rv`, whose author is in the catalog.
pub open spec fn edge_at(
    e: GraphEdge,
    g: GraphComposition,
    rv: RelationshipView,
    redirects: Seq<(ArtifactKey, ArtifactKey)>,
    kinds: Seq<EdgeKind>,
    provider: Option<Seq<char>>,
) -> bool {
    match find_key(g.catalog_view(), rv.0) {
        Some(a) => edge_is(e, rv, g.catalog_view()[a], root_overrides(g, a), redirects, kinds, provider),
        None => false,
    }
}

/// `pre` holds, in endpoint order, the export edge of each included endpoint.
pub open spec fn edges_in_order(
    pre: Seq<GraphEdge>,
    g: GraphComposition,
    included: Seq<ArtifactKey>,
    redirects: Seq<(ArtifactKey, ArtifactKey)>,
    kinds: Seq<EdgeKind>,
    provider: Option<Seq<char>>,
    upto: int,
) -> bool {
    let rels = catalog_endpoints(g);
    let pos = exported_positions(rels, included, upto);
    &&& pre.len() == pos.len()
    &&& forall|j: int| 0 <= j < pre.len() ==> edge_at(#[trigger] pre[j], g, rels[pos[j]], redirects, kinds, provider)
}

proof fn lemma_same_positions(
    pre: Seq<GraphEdge>,
    g: GraphComposition,
    included: Seq<ArtifactKey>,
    redirects: Seq<(ArtifactKey, ArtifactKey)>,
    kinds: Seq<EdgeKind>,
    provider: Option<Seq<char>>,
    a: int,
    b: int,
)
    requires
        edges_in_order(pre, g, included, redirects, kinds, provider, a),
        exported_positions(catalog_endpoints(g), included, a) == exported_positions(catalog_endpoints(g), included, b),
    ensures
        edges_in_order(pre, g, included, redirects, kinds, provider, b),
{
}

/// The text of the error for an endpoint whose author is not in the catalog.
pub open spec fn missing_source_message(rv: RelationshipView) -> Seq<char> {
    ERROR_SNAPSHOT_MISSING@ + ": relationship source has no graph artifact identity: "@ + rv.0.0 + "::"@ + rv.0.1
}

fn missing_source_error(key: &ArtifactKey) -> (e: FederatedExportError)
    ensures
        e.message_view() == ERROR_SNAPSHOT_MISSING@ + ": relationship source has no graph artifact identity: "@ + key.source@
            + "::"@ + key.canonical_id@,
{
    let a = concat2(ERROR_SNAPSHOT_MISSING, ": relationship source has no graph artifact identity: ");
    let b = concat2(a.as_str(), key.source.as_str());
    let c = concat2(b.as_str(), "::");
    let d = concat2(c.as_str(), key.canonical_id.as_str());
    FederatedExportError::new(d)
}

fn contains_key(v: &Vec<ArtifactKey>, k: &ArtifactKey) -> (r: bool)
    ensures
        r == keys_view(v@).contains(k@),
{
    let mut i: usize = 0;
    while i < v.len()
        invariant
            i <= v@.len(),
            forall|m: int| 0 <= m < i ==> v@[m]@ != k@,
        decreases v@.len() - i,
    {
        if v[i].same(k) {
            assert(keys_view(v@)[i as int] == k@);
            return true;
        }
        i += 1;
    }
    proof {
        if keys_view(v@).contains(k@) {
            let m = choose|m: int| 0 <= m < keys_view(v@).len() && keys_view(v@)[m] == k@;
            assert(v@[m]@ == k@);
        }
    }
    false
}

/// Edges in their export order: the same edges, ordered by their keys.
fn sort_edges(edges: Vec<GraphEdge>) -> (r: Vec<GraphEdge>)
    ensures
        r@.to_multiset() == edges@.to_multiset(),
        forall|i: int, j: int| 0 <= i < j < r@.len() ==> !keys_lt(edge_sort_key(#[trigger] r@[j]), edge_sort_key(#[trigger] r@[i])),
{
    broadcast use vstd::seq_lib::group_to_multiset_ensures;
    let ghost orig = edges@;
    let mut keyed: Vec<Keyed<GraphEdge>> = Vec::new();
    let mut rest = edges;
    while rest.len() > 0
        invariant
            rest@.to_multiset().add(keyed_values(keyed@).to_multiset()) == orig.to_multiset(),
            forall|k: int| 0 <= k < keyed@.len() ==> (#[trigger] keyed@[k]).sort_key() == edge_sort_key(keyed@[k].value),
        decreases rest@.len(),
    {
        let ghost before_rest = rest@;
        let ghost before_keyed = keyed@;
        let e = rest.pop().unwrap();
        let key = edge_key(&e);
        keyed.push(Keyed { key, value: e });
        proof {
            assert(before_rest =~= rest@.push(e));
            assert(keyed_values(keyed@) =~= keyed_values(before_keyed).push(e));
            vstd::seq_lib::to_multiset_build(rest@, e);
            vstd::seq_lib::to_multiset_build(keyed_values(before_keyed), e);
            assert(rest@.to_multiset().add(keyed_values(keyed@).to_multiset()) =~= orig.to_multiset());
        }
    }
    let ghost pre = keyed@;
    proof {
        vstd::seq_lib::to_multiset_len(rest@);
        assert(rest@.to_multiset() =~= Multiset::empty());
        assert(keyed_values(pre).to_multiset() =~= orig.to_multiset());
    }
    let sorted = sort_by_key(keyed);
    proof {
        lemma_values_multiset(sorted@, pre);
        assert forall|k: int| 0 <= k < sorted@.len() implies (#[trigger] sorted@[k]).sort_key() == edge_sort_key(sorted@[k].value) by {
            assert(sorted@.contains(sorted@[k]));
            vstd::seq_lib::to_multiset_contains(sorted@, sorted@[k]);
            vstd::seq_lib::to_multiset_contains(pre, sorted@[k]);
            let m = choose|m: int| 0 <= m < pre.len() && pre[m] == sorted@[k];
        }
    }
    let r = unkey(sorted);
    proof {
        assert forall|i: int, j: int| 0 <= i < j < r@.len() implies !keys_lt(edge_sort_key(#[trigger] r@[j]), edge_sort_key(#[trigger] r@[i])) by {
            assert(r@[i] == sorted@[i].value && r@[j] == sorted@[j].value);
            assert(!keys_lt(sorted@[j].sort_key(), sorted@[i].sort_key()));
        }
    }
    r
}

/// The edges of the graph export: every relationship endpoint of the
/// catalog whose authoring artifact is included, with its target redirected
/// to the root's terminal, in export order. `redirects` is the root's
/// redirect table, `kinds` the relationship vocabulary, and `provider` the
/// ticketing provider named on edges whose kind takes one.
pub fn graph_export_edges(
    graph: &GraphComposition,
    included: &Vec<ArtifactKey>,
    redirects: &Vec<(ArtifactKey, ArtifactKey)>,
    kinds: &Vec<EdgeKind>,
    provider: &Option<String>,
) -> (r: Result<Vec<GraphEdge>, FederatedExportError>)
    requires
        forall|x| #[trigger] pair_views(redirects@).contains(x)
            <==> redirect_pairs(graph.catalog_view(), graph.projections_view()[graph.root_pos()]).contains(x),
    ensures
        (r is Ok) == (forall|i: int| 0 <= i < catalog_endpoints(*graph).len() ==> !source_missing(*graph, #[trigger] catalog_endpoints(*graph)[i])),
        match r {
            Ok(edges) => (exists|pre: Seq<GraphEdge>| #[trigger] pre.to_multiset() == edges@.to_multiset()
                && edges_in_order(pre, *graph, included@, redirects@, kinds@, opt_view(*provider), catalog_endpoints(*graph).len() as int))
                && forall|i: int, j: int| 0 <= i < j < edges@.len() ==> !keys_lt(edge_sort_key(#[trigger] edges@[j]), edge_sort_key(#[trigger] edges@[i])),
            Err(e) => exists|i: int| 0 <= i < catalog_endpoints(*graph).len()
                && source_missing(*graph, #[trigger] catalog_endpoints(*graph)[i])
                && (forall|k: int| 0 <= k < i ==> !source_missing(*graph, #[trigger] catalog_endpoints(*graph)[k]))
                && e.message_view() == missing_source_message(catalog_endpoints(*graph)[i]),
        },
{
    let rels = graph.catalog_relationships();
    let ghost rv = catalog_endpoints(*graph);
    let ghost cat = graph.catalog_view();
    assert(crate::graph_composed::relationship_views(rels@) == rv);
    let mut out: Vec<GraphEdge> = Vec::new();
    let mut i: usize = 0;
    while i < rels.len()
        invariant
            i <= rels@.len(),
            rv == catalog_endpoints(*graph),
            cat == graph.catalog_view(),
            crate::graph_composed::relationship_views(rels@) == rv,
            forall|k: int| 0 <= k < i ==> !source_missing(*graph, #[trigger] rv[k]),
            edges_in_order(out@, *graph, included@, redirects@, kinds@, opt_view(*provider), i as int),
        decreases rels@.len() - i,
    {
        let rel = &rels[i];
        assert(rv[i as int] == relationship_view(*rel));
        let ghost before = out@;
        match graph.item(&rel.source) {
            None => {
                proof {
                    assert(source_missing(*graph, rv[i as int]));
                }
                return Err(missing_source_error(&rel.source));
            },
            Some(source) => {
                let ghost a = find_key(cat, rel.source@)->Some_0;
                let ghost pos_old = exported_positions(rv, included@, i as int);
                proof {
                    lemma_key_pos(cat, rel.source@, cat.len() as int);
                    assert(source.key@ == rel.source@);
                }
                if contains_key(included, &source.key) {
                    match graph.provenance_for(&source.key) {
                        None => {
                            return Err(FederatedExportError::new(owned(ERROR_MISSING_PROVENANCE)));
                        },
                        Some(overrides) => {
                            proof {
                                assert(provenance_views(overrides@) =~= root_overrides(*graph, a));
                            }
                            let e = graph_edge(rel, source, overrides, redirects, kinds, provider);
                            out.push(e);
                            proof {
                                assert(exported_positions(rv, included@, i as int + 1) == pos_old.push(i as int));
                                let pos = exported_positions(rv, included@, i as int + 1);
                                assert forall|j: int| 0 <= j < out@.len() implies edge_at(#[trigger] out@[j], *graph, rv[pos[j]], redirects@, kinds@, opt_view(*provider)) by {
                                    if j < before.len() {
                                        assert(out@[j] == before[j]);
                                        assert(pos[j] == pos_old[j]);
                                    } else {
                                        assert(j == before.len());
                                        assert(pos[j] == i as int);
                                        assert(out@[j] == e);
                                    }
                                }
                                assert(out@.len() == pos.len());
                                assert(edges_in_order(out@, *graph, included@, redirects@, kinds@, opt_view(*provider), i as int + 1));
                            }
                        },
                    }
                } else {
                    proof {
                        assert(exported_positions(rv, included@, i as int + 1) == pos_old);
                        assert(edges_in_order(out@, *graph, included@, redirects@, kinds@, opt_view(*provider), i as int));
                        assert(rv == catalog_endpoints(*graph));
                        lemma_same_positions(out@, *graph, included@, redirects@, kinds@, opt_view(*provider), i as int, i as int + 1);
                    }
                }
            },
        }
        i += 1;
    }
    let sorted = sort_edges(out);
    proof {
        assert(rv.len() == rels@.len());
    }
    Ok(sorted)
}

/// One record an export projects: its identity, its verified pin, and its
/// text as captured, with universal newlines, and that text's SHA-256.
#[derive(Debug)]
pub struct ExportRecord {
    pub key: ArtifactKey,
    pub artifact_path: crate::corpus::ArtifactPath,
    pub pin: Option<String>,
    pub text: String,
    pub content_digest: String,
}

/// The capture a composition serves for a key: its last capture of it.
pub open spec fn last_capture(cv: Seq<(ArtifactKey, Vec<u8>)>, k: (Seq<char>, Seq<char>)) -> Option<Seq<u8>> {
    if exists|i: int| 0 <= i < cv.len() && #[trigger] cv[i].0@ == k && forall|m: int| i < m < cv.len() ==> cv[m].0@ != k {
        let i = choose|i: int| 0 <= i < cv.len() && #[trigger] cv[i].0@ == k && forall|m: int| i < m < cv.len() ==> cv[m].0@ != k;
        Some(cv[i].1@)
    } else {
        None
    }
}

pub open spec fn key_text(k: ArtifactKey) -> Seq<char> {
    k.source@ + "::"@ + k.canonical_id@
}

pub open spec fn record_view(r: ExportRecord) -> ((Seq<char>, Seq<char>), (Seq<char>, Seq<char>), Option<Seq<char>>, Seq<char>, Seq<char>) {
    (r.key@, r.artifact_path@, opt_view(r.pin), r.text@, r.content_digest@)
}

pub type RecordView = ((Seq<char>, Seq<char>), (Seq<char>, Seq<char>), Option<Seq<char>>, Seq<char>, Seq<char>);

/// The record a candidate projects to once its pin and content pass, or
/// why it cannot be projected.
pub open spec fn candidate_record(it: CorpusItem, cv: Seq<(ArtifactKey, Vec<u8>)>, graph: bool) -> Result<RecordView, Seq<char>> {
    if it.origin.layer == crate::corpus::Layer::Inherited && it.origin.pin is None {
        Err(ERROR_MISSING_PIN@ + ": inherited record "@ + key_text(it.key) + " has no verified pin"@)
    } else if it.origin.layer == crate::corpus::Layer::Inherited && !(if graph {
        full_pin(opt_view(it.origin.pin)->Some_0, "sha256:"@) || full_pin(opt_view(it.origin.pin)->Some_0, "sha256-v2:"@)
    } else {
        full_pin(opt_view(it.origin.pin)->Some_0, "sha256:"@)
    }) {
        Err(ERROR_MISSING_PIN@ + ": inherited record "@ + key_text(it.key) + " does not carry a full lowercase SHA-256 pin"@)
    } else {
        match last_capture(cv, it.key@) {
            None => Err(ERROR_SNAPSHOT_MISSING@ + ": verified content is unavailable for "@ + key_text(it.key)),
            Some(bytes) => if !valid_utf8(bytes) {
                Err(ERROR_INVALID_UTF8@ + ": content for "@ + key_text(it.key) + " is not valid UTF-8"@)
            } else {
                let text = normalized(decode_utf8(bytes));
                Ok((it.key@, it.artifact_path@, opt_view(it.origin.pin), text, hex(sha256_digest(utf8(text)))))
            },
        }
    }
}

/// The position of the record keyed `k`, if one was projected.
pub open spec fn record_pos(recs: Seq<RecordView>, k: (Seq<char>, Seq<char>)) -> Option<int> {
    if exists|i: int| 0 <= i < recs.len() && #[trigger] recs[i].0 == k {
        Some(choose|i: int| 0 <= i < recs.len() && #[trigger] recs[i].0 == k)
    } else {
        None
    }
}

/// The records the first `upto` candidates project to, each key once, or
/// the first refusal: a candidate that cannot be projected, or one whose
/// key was projected with another path, text or pin.
pub open spec fn projection(cands: Seq<CorpusItem>, cv: Seq<(ArtifactKey, Vec<u8>)>, graph: bool, upto: int) -> Result<Seq<RecordView>, Seq<char>>
    decreases upto,
{
    if upto <= 0 {
        Ok(Seq::empty())
    } else {
        match projection(cands, cv, graph, upto - 1) {
            Err(m) => Err(m),
            Ok(recs) => match candidate_record(cands[upto - 1], cv, graph) {
                Err(m) => Err(m),
                Ok(r) => match record_pos(recs, r.0) {
                    None => Ok(recs.push(r)),
                    Some(i) => if recs[i].1 != r.1 || recs[i].4 != r.4 || recs[i].2 != r.2 {
                        Err(ERROR_RECORD_CONFLICT@ + ": "@ + r.0.0 + "::"@ + r.0.1 + " has disagreeing path, body, or pin"@)
                    } else {
                        Ok(recs)
                    },
                },
            },
        }
    }
}

pub open spec fn records_view(v: Seq<ExportRecord>) -> Seq<RecordView> {
    Seq::new(v.len(), |i: int| record_view(v[i]))
}

fn find_record(out: &Vec<ExportRecord>, key: &ArtifactKey) -> (r: Option<usize>)
    ensures
        match r {
            Some(p) => p < out@.len() && records_view(out@)[p as int].0 == key@
                && forall|m: int| 0 <= m < p ==> records_view(out@)[m].0 != key@,
            None => forall|m: int| 0 <= m < out@.len() ==> records_view(out@)[m].0 != key@,
        },
{
    let mut j: usize = 0;
    while j < out.len()
        invariant
            j <= out@.len(),
            forall|m: int| 0 <= m < j ==> records_view(out@)[m].0 != key@,
        decreases out@.len() - j,
    {
        assert(records_view(out@)[j as int] == record_view(out@[j as int]));
        if out[j].key.same(key) {
            return Some(j);
        }
        j += 1;
    }
    None
}

/// Once the projection is refused, later candidates keep its refusal.
proof fn lemma_projection_refusal_stays(cands: Seq<CorpusItem>, cv: Seq<(ArtifactKey, Vec<u8>)>, graph: bool, a: int, b: int)
    requires
        0 <= a <= b,
        projection(cands, cv, graph, a) is Err,
    ensures
        projection(cands, cv, graph, b) == projection(cands, cv, graph, a),
    decreases b - a,
{
    if b > a {
        lemma_projection_refusal_stays(cands, cv, graph, a, b - 1);
    }
}

/// The key of a record, where records keep each key once.
proof fn lemma_record_pos(recs: Seq<RecordView>, k: (Seq<char>, Seq<char>), p: int)
    requires
        0 <= p < recs.len(),
        recs[p].0 == k,
        forall|a: int, b: int| 0 <= a < b < recs.len() ==> recs[a].0 != recs[b].0,
    ensures
        record_pos(recs, k) == Some(p),
{
    let c = choose|i: int| 0 <= i < recs.len() && #[trigger] recs[i].0 == k;
    assert(c == p);
}

/// Projected records keep each key once.
proof fn lemma_projection_keys_distinct(cands: Seq<CorpusItem>, cv: Seq<(ArtifactKey, Vec<u8>)>, graph: bool, upto: int)
    requires
        projection(cands, cv, graph, upto) is Ok,
    ensures
        forall|a: int, b: int| 0 <= a < b < projection(cands, cv, graph, upto)->Ok_0.len()
            ==> projection(cands, cv, graph, upto)->Ok_0[a].0 != projection(cands, cv, graph, upto)->Ok_0[b].0,
    decreases upto,
{
    if upto > 0 {
        lemma_projection_keys_distinct(cands, cv, graph, upto - 1);
    }
}

fn key_message(prefix: &str, key: &ArtifactKey, suffix: &str) -> (r: FederatedExportError)
    ensures
        r.message_view() == prefix@ + key_text(*key) + suffix@,
{
    let a = concat2(prefix, key.source.as_str());
    let b = concat2(a.as_str(), "::");
    let c = concat2(b.as_str(), key.canonical_id.as_str());
    let d = concat2(c.as_str(), suffix);
    FederatedExportError::new(d)
}

fn same_opt(a: &Option<String>, b: &Option<String>) -> (r: bool)
    ensures
        r == (opt_view(*a) == opt_view(*b)),
{
    match (a, b) {
        (Some(x), Some(y)) => str_eq(x.as_str(), y.as_str()),
        (None, None) => true,
        _ => false,
    }
}

/// The content a composition serves for a key, in the terms of its
/// captures.
fn served_content<'a>(corpus: &'a ComposedCorpus, key: &ArtifactKey) -> (r: Option<&'a Vec<u8>>)
    ensures
        match r {
            Some(b) => last_capture(corpus.content_view(), key@) == Some(b@),
            None => last_capture(corpus.content_view(), key@) is None,
        },
{
    let r = corpus.content(key);
    proof {
        let cv = corpus.content_view();
        let k = key@;
        match r {
            Some(b) => {
                let w = choose|i: int| 0 <= i < cv.len() && #[trigger] cv[i].0@ == k && cv[i].1 == *b
                    && forall|m: int| i < m < cv.len() ==> (#[trigger] cv[m]).0@ != k;
                assert(cv[w].0@ == k && forall|m: int| w < m < cv.len() ==> cv[m].0@ != k);
                let c = choose|i: int| 0 <= i < cv.len() && #[trigger] cv[i].0@ == k && forall|m: int| i < m < cv.len() ==> cv[m].0@ != k;
                if c < w {
                    assert(cv[w].0@ != k);
                }
                if w < c {
                    assert(cv[c].0@ != k);
                }
                assert(c == w);
            },
            None => {},
        }
    }
    r
}

fn candidate(it: &CorpusItem, corpus: &ComposedCorpus, graph: bool) -> (r: Result<ExportRecord, FederatedExportError>)
    ensures
        match candidate_record(*it, corpus.content_view(), graph) {
            Ok(v) => r matches Ok(rec) && record_view(rec) == v,
            Err(m) => r matches Err(e) && e.message_view() == m,
        },
{
    if it.origin.layer == crate::corpus::Layer::Inherited {
        match &it.origin.pin {
            None => {
                let m = concat2(ERROR_MISSING_PIN, ": inherited record ");
                return Err(key_message(m.as_str(), &it.key, " has no verified pin"));
            },
            Some(pin) => {
                let valid = if graph { full_graph_corpus_pin(pin.as_str()) } else { full_sha256_pin(pin.as_str()) };
                if !valid {
                    let m = concat2(ERROR_MISSING_PIN, ": inherited record ");
                    return Err(key_message(m.as_str(), &it.key, " does not carry a full lowercase SHA-256 pin"));
                }
            },
        }
    }
    let bytes = match served_content(corpus, &it.key) {
        None => {
            let m = concat2(ERROR_SNAPSHOT_MISSING, ": verified content is unavailable for ");
            let e = key_message(m.as_str(), &it.key, "");
            proof {
                reveal_strlit("");
                assert(e.message_view() =~= m@ + key_text(it.key));
            }
            return Err(e);
        },
        Some(b) => b,
    };
    let raw = match crate::federation_capture::decode_utf8_text(bytes.as_slice()) {
        None => {
            let m = concat2(ERROR_INVALID_UTF8, ": content for ");
            return Err(key_message(m.as_str(), &it.key, " is not valid UTF-8"));
        },
        Some(t) => t,
    };
    proof {
        vstd::utf8::encode_utf8_decode_utf8(raw@);
    }
    let text = normalize_newlines(raw.as_str());
    let content_digest = crate::hashing::prefixed_digest("", crate::hashing::bytes_of(text.as_str()));
    let rec = ExportRecord {
        key: it.key.dup(),
        artifact_path: it.artifact_path.dup(),
        pin: copy_opt(&it.origin.pin),
        text,
        content_digest,
    };
    proof {
        reveal_strlit("");
        assert(""@ + hex(sha256_digest(utf8(rec.text@))) =~= hex(sha256_digest(utf8(rec.text@))));
    }
    Ok(rec)
}

/// The records an export projects from a composition: its local items or
/// its whole catalog, in catalog order, each key once. A composition with
/// any finding is refused with its first finding; inherited records must
/// carry a complete pin (a version-1 digest, or for a graph also a
/// version-2 one); every record's content must have been captured and be
/// UTF-8; a key projected twice must agree on its path, text and pin.
pub fn export_projection(corpus: &ComposedCorpus, local_only: bool, graph: bool) -> (r: Result<Vec<ExportRecord>, FederatedExportError>)
    ensures
        corpus.findings_view().len() > 0 ==> (r matches Err(e) && e.message_view()
            == corpus.findings_view()[0].code@ + ": "@ + corpus.findings_view()[0].message@),
        corpus.findings_view().len() == 0 ==> ({
            let cands = if local_only {
                Seq::new(corpus.local_view().len(), |k: int| corpus.catalog_view()[corpus.local_view()[k]])
            } else {
                corpus.catalog_view()
            };
            match projection(cands, corpus.content_view(), graph, cands.len() as int) {
                Ok(recs) => r matches Ok(v) && records_view(v@) == recs,
                Err(m) => r matches Err(e) && e.message_view() == m,
            }
        }),
{
    let findings = corpus.findings();
    if findings.len() > 0 {
        let m = crate::text::concat3(findings[0].code.as_str(), ": ", findings[0].message.as_str());
        return Err(FederatedExportError::new(m));
    }
    let cands: Vec<&CorpusItem> = if local_only {
        corpus.local_items()
    } else {
        let all = corpus.catalog();
        let mut v: Vec<&CorpusItem> = Vec::new();
        let mut i: usize = 0;
        while i < all.len()
            invariant
                i <= all@.len(),
                v@.len() == i,
                forall|k: int| 0 <= k < i ==> *v@[k] == all@[k],
            decreases all@.len() - i,
        {
            v.push(&all[i]);
            i += 1;
        }
        v
    };
    let ghost cs = if local_only {
        Seq::new(corpus.local_view().len(), |k: int| corpus.catalog_view()[corpus.local_view()[k]])
    } else {
        corpus.catalog_view()
    };
    assert(cands@.len() == cs.len());
    assert(forall|k: int| 0 <= k < cands@.len() ==> *cands@[k] == cs[k]);
    let ghost cv = corpus.content_view();
    let mut out: Vec<ExportRecord> = Vec::new();
    assert(records_view(out@) =~= Seq::<RecordView>::empty());
    let mut i: usize = 0;
    while i < cands.len()
        invariant
            i <= cands@.len(),
            cands@.len() == cs.len(),
            forall|k: int| 0 <= k < cands@.len() ==> *cands@[k] == cs[k],
            cv == corpus.content_view(),
            cs == (if local_only {
                Seq::new(corpus.local_view().len(), |k: int| corpus.catalog_view()[corpus.local_view()[k]])
            } else {
                corpus.catalog_view()
            }),
            corpus.findings_view().len() == 0,
            projection(cs, cv, graph, i as int) == Ok::<Seq<RecordView>, Seq<char>>(records_view(out@)),
        decreases cands@.len() - i,
    {
        let it = cands[i];
        let ghost recs = records_view(out@);
        proof {
            lemma_projection_keys_distinct(cs, cv, graph, i as int);
        }
        let rec = match candidate(it, corpus, graph) {
            Ok(rec) => rec,
            Err(e) => {
                proof {
                    assert(*it == cs[i as int]);
                    assert(projection(cs, cv, graph, i as int + 1) == Err::<Seq<RecordView>, Seq<char>>(e.message_view()));
                    lemma_projection_refusal_stays(cs, cv, graph, i as int + 1, cs.len() as int);
                }
                return Err(e);
            },
        };
        match find_record(&out, &rec.key) {
            None => {
                proof {
                    assert(!exists|m: int| 0 <= m < recs.len() && #[trigger] recs[m].0 == record_view(rec).0);
                }
                out.push(rec);
                assert(records_view(out@) =~= recs.push(record_view(rec)));
            },
            Some(p) => {
                proof {
                    lemma_record_pos(recs, record_view(rec).0, p as int);
                }
                let e = &out[p];
                assert(recs[p as int] == record_view(*e));
                if !e.artifact_path.same(&rec.artifact_path) || !str_eq(e.content_digest.as_str(), rec.content_digest.as_str())
                    || !same_opt(&e.pin, &rec.pin) {
                    let m = concat2(ERROR_RECORD_CONFLICT, ": ");
                    let err = key_message(m.as_str(), &rec.key, " has disagreeing path, body, or pin");
                    proof {
                        assert(*it == cs[i as int]);
                        let r = record_view(rec);
                        assert(candidate_record(cs[i as int], cv, graph) == Ok::<RecordView, Seq<char>>(r));
                        assert(err.message_view() =~= ERROR_RECORD_CONFLICT@ + ": "@ + r.0.0 + "::"@ + r.0.1 + " has disagreeing path, body, or pin"@);
                        assert(projection(cs, cv, graph, i as int + 1) == Err::<Seq<RecordView>, Seq<char>>(err.message_view()));
                        lemma_projection_refusal_stays(cs, cv, graph, i as int + 1, cs.len() as int);
                    }
                    return Err(err);
                }
            },
        }
        i += 1;
    }
    Ok(out)
}

} // verus!
