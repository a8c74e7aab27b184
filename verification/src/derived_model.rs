//! The check a federated derived model must pass before it is served: its
//! layers are the verified generation's, every row carries a verified
//! source and a stable, checkout-independent path, the identity projection
//! keeps every verified source, and redirects and relationships point at
//! rows the model holds.
use vstd::prelude::*;

use crate::federation::{error_code_word, ParentCorpusError};
use crate::corpus::{opt_view, ArtifactKey, ArtifactOrigin, ArtifactPath, CorpusLayer, Layer};
use crate::coverage::Relationship;
use crate::derived::{CanonicalRedirect, SourceAwareArtifact};
use crate::manifest::{split_char, split_on};
use crate::text::{chars_of, owned, seq_lt, str_eq, str_lt, views};

verus! {

/// Why a federated cache read failed.
#[derive(Debug, Clone, PartialEq, Eq)]
pub enum FederatedCacheError {
    Parent(ParentCorpusError),
    ChildSnapshot { logical_path: String, message: String },
    Composition { code: String, message: String },
    InvalidModel { message: String },
}

/// The stable code of a cache error.
pub open spec fn cache_error_code(e: FederatedCacheError) -> Seq<char> {
    match e {
        FederatedCacheError::Parent(p) => error_code_word(p.code),
        FederatedCacheError::ChildSnapshot { .. } => "federated-child-snapshot-failed"@,
        FederatedCacheError::Composition { code, .. } => code@,
        FederatedCacheError::InvalidModel { .. } => "federated-cache-invalid-model"@,
    }
}

impl FederatedCacheError {
    /// The error's stable code.
    pub fn stable_code(&self) -> (r: &str)
        ensures
            r@ == cache_error_code(*self),
    {
        match self {
            FederatedCacheError::Parent(error) => error.stable_code(),
            FederatedCacheError::ChildSnapshot { .. } => "federated-child-snapshot-failed",
            FederatedCacheError::Composition { code, .. } => code.as_str(),
            FederatedCacheError::InvalidModel { .. } => "federated-cache-invalid-model",
        }
    }

    /// A composition finding carried across the cache boundary with its code.
    pub fn composition(code: &str, message: &str) -> (r: Self)
        ensures
            r matches FederatedCacheError::Composition { code: c, message: m } && c@ == code@ && m@ == message@,
    {
        FederatedCacheError::Composition { code: owned(code), message: owned(message) }
    }
}

/// One row of a derived projection with its source provenance.
#[derive(Debug, Clone, PartialEq, Eq)]
pub struct ModelRow {
    pub key: Option<ArtifactKey>,
    pub artifact_path: Option<ArtifactPath>,
    pub origin: Option<ArtifactOrigin>,
    pub path: String,
}

/// What of a derived model the check reads.
pub struct DerivedModel {
    pub layers: Vec<CorpusLayer>,
    pub source_artifacts: Vec<SourceAwareArtifact>,
    pub index_entries: Vec<ModelRow>,
    pub resolution_entries: Vec<ModelRow>,
    pub canonical_redirects: Vec<CanonicalRedirect>,
    pub live_decision_keys: Vec<ArtifactKey>,
    pub live_decision_paths: Vec<String>,
    pub scope_rows: Vec<ModelRow>,
    pub relationships: Vec<Relationship>,
}

pub const LAYERS_MISMATCH: &'static str = "derived layers do not match the verified generation";
pub const SEARCH_ROWS: &'static str = "search rows contain missing, physical, or mismatched source identity";
pub const IDENTITY_MISSING: &'static str = "identity projection is missing source provenance";
pub const IDENTITY_PATHS: &'static str = "identity projection contains physical or mismatched paths";
pub const IDENTITY_SOURCES: &'static str = "identity projection does not retain both verified sources";
pub const SCOPE_ROWS: &'static str = "scope or liveness projection is not source-aware";
pub const REDIRECT_ENDPOINTS: &'static str = "canonical redirect endpoints are absent from the identity projection";
pub const RELATIONSHIP_ENDPOINT: &'static str = "relationship projection contains an invalid endpoint";

pub type LayerView = (Seq<char>, Layer, Option<Seq<char>>, Option<Seq<char>>);

pub open spec fn layer_view(l: CorpusLayer) -> LayerView {
    (l.source@, l.layer, opt_view(l.pin), opt_view(l.alias))
}

pub open spec fn origin_view(o: ArtifactOrigin) -> LayerView {
    (o.source@, o.layer, opt_view(o.pin), opt_view(o.alias))
}

pub open spec fn layer_views(v: Seq<CorpusLayer>) -> Seq<LayerView> {
    Seq::new(v.len(), |i: int| layer_view(v[i]))
}

/// A relative path that holds no parent component and is not absolute.
pub open spec fn stable_public_path(p: Seq<char>) -> bool {
    p.len() > 0 && p[0] != '/' && !split_on(p, '/').contains(".."@)
}

pub open spec fn known_source(layers: Seq<CorpusLayer>, s: Seq<char>) -> bool {
    exists|i: int| 0 <= i < layers.len() && (#[trigger] layers[i]).source@ == s
}

/// Optional strings in their derived order: absent first.
pub open spec fn opt_lt(a: Option<Seq<char>>, b: Option<Seq<char>>) -> bool {
    match (a, b) {
        (None, Some(_)) => true,
        (Some(x), Some(y)) => seq_lt(x, y),
        _ => false,
    }
}

/// Layer views in the derived order of layers: source, layer (local
/// first), pin, then alias.
pub open spec fn layer_lt(a: LayerView, b: LayerView) -> bool {
    ||| seq_lt(a.0, b.0)
    ||| (a.0 == b.0 && a.1 == Layer::Local && b.1 == Layer::Inherited)
    ||| (a.0 == b.0 && a.1 == b.1 && opt_lt(a.2, b.2))
    ||| (a.0 == b.0 && a.1 == b.1 && a.2 == b.2 && opt_lt(a.3, b.3))
}

/// The origin is the verified layer a source-keyed table of the layers
/// gives for its source: the greatest layer of that source, in layer order.
pub open spec fn origin_known(layers: Seq<CorpusLayer>, o: ArtifactOrigin) -> bool {
    &&& layer_views(layers).contains(origin_view(o))
    &&& forall|j: int| 0 <= j < layers.len() && (#[trigger] layers[j]).source@ == o.source@
        ==> !layer_lt(origin_view(o), layer_view(layers[j]))
}

pub open spec fn invalid_path(layers: Seq<CorpusLayer>, source: Seq<char>, relative: Seq<char>, display: Seq<char>) -> bool {
    !known_source(layers, source) || !stable_public_path(relative) || display != relative
}

pub open spec fn opt_key(o: Option<ArtifactKey>) -> Option<(Seq<char>, Seq<char>)> {
    match o { Some(k) => Some(k@), None => None }
}

pub open spec fn opt_path(o: Option<ArtifactPath>) -> Option<(Seq<char>, Seq<char>)> {
    match o { Some(p) => Some(p@), None => None }
}

pub open spec fn opt_origin(o: Option<ArtifactOrigin>) -> Option<LayerView> {
    match o { Some(x) => Some(origin_view(x)), None => None }
}

/// A search row agrees with its source-aware artifact.
pub open spec fn search_row_ok(layers: Seq<CorpusLayer>, a: SourceAwareArtifact, e: ModelRow) -> bool {
    &&& !invalid_path(layers, a.path.source@, a.path.relative_path@, a.display_path@)
    &&& a.key.source@ == a.origin.source@
    &&& a.path.source@ == a.origin.source@
    &&& origin_known(layers, a.origin)
    &&& opt_key(e.key) == Some(a.key@)
    &&& opt_path(e.artifact_path) == Some(a.path@)
    &&& opt_origin(e.origin) == Some(origin_view(a.origin))
    &&& e.path@ == a.display_path@
}

/// The refusal an identity row gives, if any.
pub open spec fn identity_row_refusal(layers: Seq<CorpusLayer>, e: ModelRow) -> Option<Seq<char>> {
    match (e.key, e.artifact_path, e.origin) {
        (Some(k), Some(p), Some(o)) => if invalid_path(layers, p.source@, p.relative_path@, e.path@)
            || k.source@ != o.source@ || p.source@ != o.source@ || !origin_known(layers, o) {
            Some(IDENTITY_PATHS@)
        } else {
            None
        },
        _ => Some(IDENTITY_MISSING@),
    }
}

/// The first refusal among the identity rows from `from` on.
pub open spec fn identity_refusal(layers: Seq<CorpusLayer>, rows: Seq<ModelRow>, from: int) -> Option<Seq<char>>
    decreases rows.len() - from,
{
    if from < 0 || from >= rows.len() {
        None
    } else if identity_row_refusal(layers, rows[from]) is Some {
        identity_row_refusal(layers, rows[from])
    } else {
        identity_refusal(layers, rows, from + 1)
    }
}

/// The row's key belongs to source `s`.
pub open spec fn row_has_source(e: ModelRow, s: Seq<char>) -> bool {
    e.key matches Some(k) && k.source@ == s
}

/// The row's key, if any, belongs to a verified source.
pub open spec fn row_source_known(layers: Seq<CorpusLayer>, e: ModelRow) -> bool {
    e.key matches Some(k) ==> known_source(layers, k.source@)
}

/// The identity rows keep exactly the verified sources.
pub open spec fn identity_sources_match(layers: Seq<CorpusLayer>, rows: Seq<ModelRow>) -> bool {
    forall|s: Seq<char>| #![trigger known_source(layers, s)]
        (exists|i: int| 0 <= i < rows.len() && #[trigger] row_has_source(rows[i], s)) <==> known_source(layers, s)
}

/// A scope row that is not source-aware: each of its key, path and origin
/// must be present and agree with the verified layers.
pub open spec fn scope_row_bad(layers: Seq<CorpusLayer>, r: ModelRow) -> bool {
    ||| !(r.key matches Some(k) && known_source(layers, k.source@))
    ||| !(r.artifact_path matches Some(p) && known_source(layers, p.source@) && stable_public_path(p.relative_path@)
        && r.path@ == p.relative_path@)
    ||| !(r.origin matches Some(o) && (r.key matches Some(k) && k.source@ == o.source@)
        && (r.artifact_path matches Some(p) && p.source@ == o.source@) && origin_known(layers, o))
}

pub open spec fn scope_ok(layers: Seq<CorpusLayer>, m: DerivedModel) -> bool {
    &&& m.live_decision_keys@.len() == m.live_decision_paths@.len()
    &&& forall|i: int| 0 <= i < m.live_decision_keys@.len() ==> known_source(layers, (#[trigger] m.live_decision_keys@[i]).source@)
    &&& forall|i: int| 0 <= i < m.scope_rows@.len() ==> !scope_row_bad(layers, #[trigger] m.scope_rows@[i])
}

/// `k` is the key of some identity row.
pub open spec fn identity_key(rows: Seq<ModelRow>, k: ArtifactKey) -> bool {
    exists|i: int| 0 <= i < rows.len() && #[trigger] opt_key(rows[i].key) == Some(k@)
}

pub open spec fn redirect_ok(rows: Seq<ModelRow>, r: CanonicalRedirect) -> bool {
    identity_key(rows, r.parent) && identity_key(rows, r.replacement) && identity_key(rows, r.rationale)
}

pub open spec fn redirects_ok(m: DerivedModel) -> bool {
    forall|i: int| 0 <= i < m.canonical_redirects@.len() ==> redirect_ok(m.resolution_entries@, #[trigger] m.canonical_redirects@[i])
}

pub open spec fn endpoint_ok(layers: Seq<CorpusLayer>, p: Option<ArtifactPath>) -> bool {
    p matches Some(x) ==> known_source(layers, x.source@) && stable_public_path(x.relative_path@)
}

pub open spec fn relationship_ok(layers: Seq<CorpusLayer>, r: Relationship) -> bool {
    endpoint_ok(layers, r.source_artifact) && endpoint_ok(layers, r.resolved_artifact)
}

pub open spec fn relationships_ok(layers: Seq<CorpusLayer>, m: DerivedModel) -> bool {
    forall|i: int| 0 <= i < m.relationships@.len() ==> relationship_ok(layers, #[trigger] m.relationships@[i])
}

/// Why a derived model does not agree with the verified layers, if it does
/// not; the checks run in this order and the first failing one is reported.
pub open spec fn model_refusal(layers: Seq<CorpusLayer>, m: DerivedModel) -> Option<Seq<char>> {
    if layer_views(m.layers@).to_multiset() != layer_views(layers).to_multiset() {
        Some(LAYERS_MISMATCH@)
    } else if !(m.source_artifacts@.len() == m.index_entries@.len()
        && forall|i: int| 0 <= i < m.index_entries@.len() ==> search_row_ok(layers, #[trigger] m.source_artifacts@[i], m.index_entries@[i])) {
        Some(SEARCH_ROWS@)
    } else if identity_refusal(layers, m.resolution_entries@, 0) is Some {
        identity_refusal(layers, m.resolution_entries@, 0)
    } else if !identity_sources_match(layers, m.resolution_entries@) {
        Some(IDENTITY_SOURCES@)
    } else if !scope_ok(layers, m) {
        Some(SCOPE_ROWS@)
    } else if !redirects_ok(m) {
        Some(REDIRECT_ENDPOINTS@)
    } else if !relationships_ok(layers, m) {
        Some(RELATIONSHIP_ENDPOINT@)
    } else {
        None
    }
}

fn refuse(message: &str) -> (r: Result<(), FederatedCacheError>)
    ensures
        r matches Err(FederatedCacheError::InvalidModel { message: m }) && m@ == message@,
{
    Err(FederatedCacheError::InvalidModel { message: owned(message) })
}

fn is_stable_public_path(p: &str) -> (r: bool)
    ensures
        r == stable_public_path(p@),
{
    let cs = chars_of(p);
    if cs.len() == 0 || cs[0] == '/' {
        return false;
    }
    let parts = split_char(p, '/');
    let mut i: usize = 0;
    while i < parts.len()
        invariant
            i <= parts@.len(),
            views(parts@) == split_on(p@, '/'),
            forall|k: int| 0 <= k < i ==> views(parts@)[k] != ".."@,
        decreases parts@.len() - i,
    {
        assert(views(parts@)[i as int] == parts@[i as int]@);
        let is_parent = str_eq(parts[i].as_str(), "..");
        if is_parent {
            assert(views(parts@)[i as int] == ".."@);
            assert(split_on(p@, '/')[i as int] == ".."@);
            assert(split_on(p@, '/').contains(".."@));
            return false;
        }
        i += 1;
    }
    proof {
        if views(parts@).contains(".."@) {
            let k = choose|k: int| 0 <= k < views(parts@).len() && views(parts@)[k] == ".."@;
            assert(views(parts@)[k] != ".."@);
        }
    }
    true
}

fn is_known_source(layers: &Vec<CorpusLayer>, s: &str) -> (r: bool)
    ensures
        r == known_source(layers@, s@),
{
    let mut i: usize = 0;
    while i < layers.len()
        invariant
            i <= layers@.len(),
            forall|k: int| 0 <= k < i ==> (#[trigger] layers@[k]).source@ != s@,
        decreases layers@.len() - i,
    {
        if str_eq(layers[i].source.as_str(), s) {
            return true;
        }
        i += 1;
    }
    false
}

fn opt_str_same(a: &Option<String>, b: &Option<String>) -> (r: bool)
    ensures
        r == (opt_view(*a) == opt_view(*b)),
{
    match (a, b) {
        (Some(x), Some(y)) => str_eq(x.as_str(), y.as_str()),
        (None, None) => true,
        _ => false,
    }
}

fn same_layer_view(a: &CorpusLayer, b: &CorpusLayer) -> (r: bool)
    ensures
        r == (layer_view(*a) == layer_view(*b)),
{
    str_eq(a.source.as_str(), b.source.as_str()) && a.layer == b.layer && opt_str_same(&a.pin, &b.pin)
        && opt_str_same(&a.alias, &b.alias)
}

fn opt_str_lt(a: &Option<String>, b: &Option<String>) -> (r: bool)
    ensures
        r == opt_lt(opt_view(*a), opt_view(*b)),
{
    match (a, b) {
        (None, Some(_)) => true,
        (Some(x), Some(y)) => str_lt(x.as_str(), y.as_str()),
        _ => false,
    }
}

fn origin_below(o: &ArtifactOrigin, l: &CorpusLayer) -> (r: bool)
    ensures
        r == layer_lt(origin_view(*o), layer_view(*l)),
{
    if str_lt(o.source.as_str(), l.source.as_str()) {
        return true;
    }
    if !str_eq(o.source.as_str(), l.source.as_str()) {
        return false;
    }
    if o.layer == Layer::Local && l.layer == Layer::Inherited {
        return true;
    }
    if o.layer != l.layer {
        return false;
    }
    if opt_str_lt(&o.pin, &l.pin) {
        return true;
    }
    if !opt_str_same(&o.pin, &l.pin) {
        return false;
    }
    opt_str_lt(&o.alias, &l.alias)
}

fn is_origin_known(layers: &Vec<CorpusLayer>, o: &ArtifactOrigin) -> (r: bool)
    ensures
        r == origin_known(layers@, *o),
{
    let mut found = false;
    let mut i: usize = 0;
    while i < layers.len()
        invariant
            i <= layers@.len(),
            found == exists|k: int| 0 <= k < i && layer_views(layers@)[k] == origin_view(*o),
            forall|j: int| 0 <= j < i && (#[trigger] layers@[j]).source@ == o.source@
                ==> !layer_lt(origin_view(*o), layer_view(layers@[j])),
        decreases layers@.len() - i,
    {
        let l = &layers[i];
        assert(layer_views(layers@)[i as int] == layer_view(*l));
        if str_eq(l.source.as_str(), o.source.as_str()) {
            if origin_below(o, l) {
                assert(!origin_known(layers@, *o));
                return false;
            }
            if l.layer == o.layer && opt_str_same(&l.pin, &o.pin) && opt_str_same(&l.alias, &o.alias) {
                found = true;
            }
        }
        i += 1;
    }
    proof {
        if layer_views(layers@).contains(origin_view(*o)) {
            let k = choose|k: int| 0 <= k < layer_views(layers@).len() && layer_views(layers@)[k] == origin_view(*o);
            assert(exists|k: int| 0 <= k < layers@.len() && layer_views(layers@)[k] == origin_view(*o));
        }
    }
    found
}

/// How many of the first `upto` layers have view `x`.
pub open spec fn count_view(v: Seq<LayerView>, x: LayerView, upto: int) -> nat
    decreases upto,
{
    if upto <= 0 { 0 } else { count_view(v, x, upto - 1) + if v[upto - 1] == x { 1nat } else { 0nat } }
}

proof fn lemma_count_view(v: Seq<LayerView>, x: LayerView, upto: int)
    requires
        0 <= upto <= v.len(),
    ensures
        count_view(v, x, upto) == v.take(upto).to_multiset().count(x),
    decreases upto,
{
    broadcast use vstd::seq_lib::group_to_multiset_ensures;
    if upto == 0 {
        assert(v.take(0) =~= Seq::<LayerView>::empty());
    } else {
        lemma_count_view(v, x, upto - 1);
        assert(v.take(upto) =~= v.take(upto - 1).push(v[upto - 1]));
    }
}

fn count_layer(v: &Vec<CorpusLayer>, x: &CorpusLayer) -> (r: usize)
    ensures
        r == layer_views(v@).to_multiset().count(layer_view(*x)),
{
    let mut n: usize = 0;
    let mut i: usize = 0;
    while i < v.len()
        invariant
            i <= v@.len(),
            n == count_view(layer_views(v@), layer_view(*x), i as int),
            n <= i,
        decreases v@.len() - i,
    {
        assert(layer_views(v@)[i as int] == layer_view(v@[i as int]));
        if same_layer_view(&v[i], x) {
            n += 1;
        }
        i += 1;
    }
    proof {
        lemma_count_view(layer_views(v@), layer_view(*x), v@.len() as int);
        assert(layer_views(v@).take(v@.len() as int) =~= layer_views(v@));
    }
    n
}

/// Whether `b` holds every element of `a` as often as `a` does.
fn counts_agree(a: &Vec<CorpusLayer>, b: &Vec<CorpusLayer>) -> (r: bool)
    ensures
        r == forall|i: int| 0 <= i < a@.len() ==> layer_views(a@).to_multiset().count(layer_view(#[trigger] a@[i]))
            == layer_views(b@).to_multiset().count(layer_view(a@[i])),
{
    let mut i: usize = 0;
    while i < a.len()
        invariant
            i <= a@.len(),
            forall|k: int| 0 <= k < i ==> layer_views(a@).to_multiset().count(layer_view(#[trigger] a@[k]))
                == layer_views(b@).to_multiset().count(layer_view(a@[k])),
        decreases a@.len() - i,
    {
        if count_layer(a, &a[i]) != count_layer(b, &a[i]) {
            return false;
        }
        i += 1;
    }
    true
}

fn same_layers(a: &Vec<CorpusLayer>, b: &Vec<CorpusLayer>) -> (r: bool)
    ensures
        r == (layer_views(a@).to_multiset() == layer_views(b@).to_multiset()),
{
    broadcast use vstd::seq_lib::group_to_multiset_ensures;
    let ab = counts_agree(a, b);
    let ba = counts_agree(b, a);
    proof {
        let ma = layer_views(a@).to_multiset();
        let mb = layer_views(b@).to_multiset();
        if ab && ba {
            assert forall|x: LayerView| ma.count(x) == mb.count(x) by {
                vstd::seq_lib::to_multiset_contains(layer_views(a@), x);
                vstd::seq_lib::to_multiset_contains(layer_views(b@), x);
                if layer_views(a@).contains(x) {
                    let i = choose|i: int| 0 <= i < layer_views(a@).len() && layer_views(a@)[i] == x;
                    assert(layer_view(a@[i]) == x);
                } else if layer_views(b@).contains(x) {
                    let i = choose|i: int| 0 <= i < layer_views(b@).len() && layer_views(b@)[i] == x;
                    assert(layer_view(b@[i]) == x);
                }
            }
            assert(ma =~= mb);
        }
        if ma == mb {
            assert(ab);
            assert(ba);
        }
    }
    ab && ba
}

fn key_same(a: &ArtifactKey, b: &ArtifactKey) -> (r: bool)
    ensures
        r == (a@ == b@),
{
    a.same(b)
}

fn path_same(a: &ArtifactPath, b: &ArtifactPath) -> (r: bool)
    ensures
        r == (a@ == b@),
{
    a.same(b)
}

fn origin_same(a: &ArtifactOrigin, b: &ArtifactOrigin) -> (r: bool)
    ensures
        r == (origin_view(*a) == origin_view(*b)),
{
    str_eq(a.source.as_str(), b.source.as_str()) && a.layer == b.layer && opt_str_same(&a.pin, &b.pin)
        && opt_str_same(&a.alias, &b.alias)
}

fn search_row_check(layers: &Vec<CorpusLayer>, a: &SourceAwareArtifact, e: &ModelRow) -> (r: bool)
    ensures
        r == search_row_ok(layers@, *a, *e),
{
    if !is_known_source(layers, a.path.source.as_str()) || !is_stable_public_path(a.path.relative_path.as_str())
        || !str_eq(a.display_path.as_str(), a.path.relative_path.as_str()) {
        return false;
    }
    if !str_eq(a.key.source.as_str(), a.origin.source.as_str()) || !str_eq(a.path.source.as_str(), a.origin.source.as_str()) {
        return false;
    }
    if !is_origin_known(layers, &a.origin) {
        return false;
    }
    let key_ok = match &e.key { Some(k) => key_same(k, &a.key), None => false };
    let path_ok = match &e.artifact_path { Some(p) => path_same(p, &a.path), None => false };
    let origin_ok = match &e.origin { Some(o) => origin_same(o, &a.origin), None => false };
    key_ok && path_ok && origin_ok && str_eq(e.path.as_str(), a.display_path.as_str())
}

fn identity_row_check(layers: &Vec<CorpusLayer>, e: &ModelRow) -> (r: Option<&'static str>)
    ensures
        match r {
            Some(m) => identity_row_refusal(layers@, *e) == Some(m@),
            None => identity_row_refusal(layers@, *e) is None,
        },
{
    match (&e.key, &e.artifact_path, &e.origin) {
        (Some(k), Some(p), Some(o)) => {
            if !is_known_source(layers, p.source.as_str()) || !is_stable_public_path(p.relative_path.as_str())
                || !str_eq(e.path.as_str(), p.relative_path.as_str())
                || !str_eq(k.source.as_str(), o.source.as_str()) || !str_eq(p.source.as_str(), o.source.as_str())
                || !is_origin_known(layers, o) {
                Some(IDENTITY_PATHS)
            } else {
                None
            }
        },
        _ => Some(IDENTITY_MISSING),
    }
}

fn scope_row_check(layers: &Vec<CorpusLayer>, r: &ModelRow) -> (bad: bool)
    ensures
        bad == scope_row_bad(layers@, *r),
{
    let key_ok = match &r.key { Some(k) => is_known_source(layers, k.source.as_str()), None => false };
    let path_ok = match &r.artifact_path {
        Some(p) => is_known_source(layers, p.source.as_str()) && is_stable_public_path(p.relative_path.as_str())
            && str_eq(r.path.as_str(), p.relative_path.as_str()),
        None => false,
    };
    let origin_bad = match &r.origin {
        Some(o) => {
            let k_ok = match &r.key { Some(k) => str_eq(k.source.as_str(), o.source.as_str()), None => false };
            let p_ok = match &r.artifact_path { Some(p) => str_eq(p.source.as_str(), o.source.as_str()), None => false };
            !k_ok || !p_ok || !is_origin_known(layers, o)
        },
        None => true,
    };
    !key_ok || !path_ok || origin_bad
}

fn is_identity_key(rows: &Vec<ModelRow>, k: &ArtifactKey) -> (r: bool)
    ensures
        r == identity_key(rows@, *k),
{
    let mut i: usize = 0;
    while i < rows.len()
        invariant
            i <= rows@.len(),
            forall|m: int| 0 <= m < i ==> opt_key((#[trigger] rows@[m]).key) != Some(k@),
        decreases rows@.len() - i,
    {
        match &rows[i].key {
            Some(x) => if key_same(x, k) {
                assert(opt_key(rows@[i as int].key) == Some(k@));
                return true;
            },
            None => {},
        }
        i += 1;
    }
    false
}

fn endpoint_check(layers: &Vec<CorpusLayer>, p: &Option<ArtifactPath>) -> (r: bool)
    ensures
        r == endpoint_ok(layers@, *p),
{
    match p {
        Some(x) => is_known_source(layers, x.source.as_str()) && is_stable_public_path(x.relative_path.as_str()),
        None => true,
    }
}

fn has_identity_source(rows: &Vec<ModelRow>, s: &str) -> (r: bool)
    ensures
        r == exists|i: int| 0 <= i < rows@.len() && #[trigger] row_has_source(rows@[i], s@),
{
    let mut i: usize = 0;
    while i < rows.len()
        invariant
            i <= rows@.len(),
            forall|m: int| 0 <= m < i ==> !#[trigger] row_has_source(rows@[m], s@),
        decreases rows@.len() - i,
    {
        match &rows[i].key {
            Some(k) => if str_eq(k.source.as_str(), s) {
                assert(row_has_source(rows@[i as int], s@));
                return true;
            },
            None => {},
        }
        i += 1;
    }
    false
}

fn search_rows_check(layers: &Vec<CorpusLayer>, derived: &DerivedModel) -> (r: bool)
    ensures
        r == (derived.source_artifacts@.len() == derived.index_entries@.len()
            && forall|i: int| 0 <= i < derived.index_entries@.len() ==> search_row_ok(layers@, #[trigger] derived.source_artifacts@[i], derived.index_entries@[i])),
{
    if derived.source_artifacts.len() != derived.index_entries.len() {
        return false;
    }
    let mut i: usize = 0;
    while i < derived.index_entries.len()
        invariant
            i <= derived.index_entries@.len(),
            derived.source_artifacts@.len() == derived.index_entries@.len(),
            forall|k: int| 0 <= k < i ==> search_row_ok(layers@, #[trigger] derived.source_artifacts@[k], derived.index_entries@[k]),
        decreases derived.index_entries@.len() - i,
    {
        if !search_row_check(layers, &derived.source_artifacts[i], &derived.index_entries[i]) {
            return false;
        }
        i += 1;
    }
    true
}

fn identity_check(layers: &Vec<CorpusLayer>, rows: &Vec<ModelRow>) -> (r: Option<&'static str>)
    ensures
        match r {
            Some(m) => identity_refusal(layers@, rows@, 0) == Some(m@),
            None => identity_refusal(layers@, rows@, 0) is None,
        },
{
    let mut j: usize = 0;
    while j < rows.len()
        invariant
            j <= rows@.len(),
            identity_refusal(layers@, rows@, 0) == identity_refusal(layers@, rows@, j as int),
        decreases rows@.len() - j,
    {
        match identity_row_check(layers, &rows[j]) {
            Some(m) => return Some(m),
            None => {},
        }
        j += 1;
    }
    None
}

fn identity_sources_check(layers: &Vec<CorpusLayer>, rows: &Vec<ModelRow>) -> (r: bool)
    ensures
        r == identity_sources_match(layers@, rows@),
{
    let mut a: usize = 0;
    while a < rows.len()
        invariant
            a <= rows@.len(),
            forall|m: int| 0 <= m < a ==> row_source_known(layers@, #[trigger] rows@[m]),
        decreases rows@.len() - a,
    {
        match &rows[a].key {
            Some(k) => if !is_known_source(layers, k.source.as_str()) {
                proof {
                    let s = k.source@;
                    assert(row_has_source(rows@[a as int], s));
                    assert(!known_source(layers@, s));
                }
                return false;
            },
            None => {},
        }
        a += 1;
    }
    let mut b: usize = 0;
    while b < layers.len()
        invariant
            b <= layers@.len(),
            forall|m: int| 0 <= m < rows@.len() ==> row_source_known(layers@, #[trigger] rows@[m]),
            forall|m: int| 0 <= m < b ==> exists|i: int| 0 <= i < rows@.len() && #[trigger] row_has_source(rows@[i], (#[trigger] layers@[m]).source@),
        decreases layers@.len() - b,
    {
        if !has_identity_source(rows, layers[b].source.as_str()) {
            proof {
                let s = layers@[b as int].source@;
                assert(known_source(layers@, s));
            }
            return false;
        }
        b += 1;
    }
    proof {
        assert forall|s: Seq<char>| #![trigger known_source(layers@, s)]
            (exists|i: int| 0 <= i < rows@.len() && #[trigger] row_has_source(rows@[i], s)) <==> known_source(layers@, s) by {
            if known_source(layers@, s) {
                let m = choose|m: int| 0 <= m < layers@.len() && (#[trigger] layers@[m]).source@ == s;
                assert(layers@[m].source@ == s);
            }
            if exists|i: int| 0 <= i < rows@.len() && #[trigger] row_has_source(rows@[i], s) {
                let i = choose|i: int| 0 <= i < rows@.len() && #[trigger] row_has_source(rows@[i], s);
                assert(row_source_known(layers@, rows@[i]));
            }
        }
    }
    true
}

fn scope_check(layers: &Vec<CorpusLayer>, derived: &DerivedModel) -> (r: bool)
    ensures
        r == scope_ok(layers@, *derived),
{
    if derived.live_decision_keys.len() != derived.live_decision_paths.len() {
        return false;
    }
    let mut c: usize = 0;
    while c < derived.live_decision_keys.len()
        invariant
            c <= derived.live_decision_keys@.len(),
            forall|k: int| 0 <= k < c ==> known_source(layers@, (#[trigger] derived.live_decision_keys@[k]).source@),
        decreases derived.live_decision_keys@.len() - c,
    {
        if !is_known_source(layers, derived.live_decision_keys[c].source.as_str()) {
            return false;
        }
        c += 1;
    }
    let mut d: usize = 0;
    while d < derived.scope_rows.len()
        invariant
            d <= derived.scope_rows@.len(),
            forall|k: int| 0 <= k < derived.live_decision_keys@.len() ==> known_source(layers@, (#[trigger] derived.live_decision_keys@[k]).source@),
            forall|k: int| 0 <= k < d ==> !scope_row_bad(layers@, #[trigger] derived.scope_rows@[k]),
        decreases derived.scope_rows@.len() - d,
    {
        if scope_row_check(layers, &derived.scope_rows[d]) {
            return false;
        }
        d += 1;
    }
    true
}

fn redirects_check(derived: &DerivedModel) -> (r: bool)
    ensures
        r == redirects_ok(*derived),
{
    let mut e: usize = 0;
    while e < derived.canonical_redirects.len()
        invariant
            e <= derived.canonical_redirects@.len(),
            forall|k: int| 0 <= k < e ==> redirect_ok(derived.resolution_entries@, #[trigger] derived.canonical_redirects@[k]),
        decreases derived.canonical_redirects@.len() - e,
    {
        let red = &derived.canonical_redirects[e];
        let ok = is_identity_key(&derived.resolution_entries, &red.parent)
            && is_identity_key(&derived.resolution_entries, &red.replacement)
            && is_identity_key(&derived.resolution_entries, &red.rationale);
        assert(ok == redirect_ok(derived.resolution_entries@, derived.canonical_redirects@[e as int]));
        if !ok {
            return false;
        }
        e += 1;
    }
    true
}

fn relationships_check(layers: &Vec<CorpusLayer>, derived: &DerivedModel) -> (r: bool)
    ensures
        r == relationships_ok(layers@, *derived),
{
    let mut f: usize = 0;
    while f < derived.relationships.len()
        invariant
            f <= derived.relationships@.len(),
            forall|k: int| 0 <= k < f ==> relationship_ok(layers@, #[trigger] derived.relationships@[k]),
        decreases derived.relationships@.len() - f,
    {
        let rel = &derived.relationships[f];
        if !endpoint_check(layers, &rel.source_artifact) || !endpoint_check(layers, &rel.resolved_artifact) {
            return false;
        }
        f += 1;
    }
    true
}

/// Whether a federated derived model agrees with the verified generation's
/// layers; otherwise the first disagreement, in the order the checks run.
pub fn validate_federated_model(layers: &Vec<CorpusLayer>, derived: &DerivedModel) -> (r: Result<(), FederatedCacheError>)
    ensures
        match model_refusal(layers@, *derived) {
            None => r is Ok,
            Some(m) => r matches Err(FederatedCacheError::InvalidModel { message: x }) && x@ == m,
        },
{
    if !same_layers(&derived.layers, layers) {
        return refuse(LAYERS_MISMATCH);
    }
    if !search_rows_check(layers, derived) {
        return refuse(SEARCH_ROWS);
    }
    match identity_check(layers, &derived.resolution_entries) {
        Some(m) => return refuse(m),
        None => {},
    }
    if !identity_sources_check(layers, &derived.resolution_entries) {
        return refuse(IDENTITY_SOURCES);
    }
    if !scope_check(layers, derived) {
        return refuse(SCOPE_ROWS);
    }
    if !redirects_check(derived) {
        return refuse(REDIRECT_ENDPOINTS);
    }
    if !relationships_check(layers, derived) {
        return refuse(RELATIONSHIP_ENDPOINT);
    }
    Ok(())
}

} // verus!
