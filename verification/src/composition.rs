//! Central source-aware corpus composition: one writable child over one
//! verified read-only parent, with canonical-only override declarations.
//! Composition performs no filesystem or network work.
use vstd::prelude::*;

use crate::corpus::{opt_view, ArtifactKey, ArtifactPath, Layer, copy_keys, copy_paths};
use crate::item::{CorpusItem, layer_indices, layer_positions};
use crate::order::{key_filter, lemma_values_multiset, sort_by_key, sorted_by_key, strings_view, SortKey, Keyed, keyed_values, unkey, sort_dedup_indices};
use vstd::multiset::Multiset;
use crate::text::{fold_case, lowercase, concat2, push_str, chars_of, concat3, contains_seq, has_dcolon, lemma_keys_lt_cons, lemma_seq_lt_irreflexive, owned, split_dcolon, split_once_dcolon, str_eq, str_lt, keys_lt};

verus! {

broadcast use vstd::seq_lib::group_to_multiset_ensures;

/// Unicode `White_Space`, the set `str::trim` removes.
pub open spec fn is_white(c: char) -> bool {
    ('\u{9}' <= c && c <= '\u{d}') || c == ' ' || c == '\u{85}' || c == '\u{a0}' || c == '\u{1680}'
        || ('\u{2000}' <= c && c <= '\u{200a}') || c == '\u{2028}' || c == '\u{2029}'
        || c == '\u{202f}' || c == '\u{205f}' || c == '\u{3000}'
}

fn char_is_white(c: char) -> (r: bool)
    ensures
        r == is_white(c),
{
    ('\u{9}' <= c && c <= '\u{d}') || c == ' ' || c == '\u{85}' || c == '\u{a0}' || c == '\u{1680}'
        || ('\u{2000}' <= c && c <= '\u{200a}') || c == '\u{2028}' || c == '\u{2029}'
        || c == '\u{202f}' || c == '\u{205f}' || c == '\u{3000}'
}

/// A value is unpadded when trimming leaves it unchanged.
pub open spec fn is_padded(v: Seq<char>) -> bool {
    v.len() > 0 && (is_white(v[0]) || is_white(v.last()))
}

#[derive(Debug, Clone, Copy, PartialEq, Eq, Structural)]
pub enum OverrideSyntaxError {
    InvalidCanonicalId,
    QualifiedLocalId,
    ParentMustBeQualified,
    InvalidQualifiedId,
    InvalidSourceAlias,
}

impl OverrideSyntaxError {
    /// The human explanation of the error.
    pub fn message(self) -> (r: &'static str)
        ensures
            r@ == syntax_message(self),
    {
        match self {
            OverrideSyntaxError::InvalidCanonicalId => "canonical id must be non-empty and unpadded",
            OverrideSyntaxError::QualifiedLocalId => "local canonical id must not be qualified",
            OverrideSyntaxError::ParentMustBeQualified => "parent canonical id must be qualified",
            OverrideSyntaxError::InvalidQualifiedId => "qualified id must contain exactly one `::` delimiter",
            OverrideSyntaxError::InvalidSourceAlias => "source alias must be lowercase and path-free",
        }
    }
}

pub open spec fn syntax_message(e: OverrideSyntaxError) -> Seq<char> {
    match e {
        OverrideSyntaxError::InvalidCanonicalId => "canonical id must be non-empty and unpadded"@,
        OverrideSyntaxError::QualifiedLocalId => "local canonical id must not be qualified"@,
        OverrideSyntaxError::ParentMustBeQualified => "parent canonical id must be qualified"@,
        OverrideSyntaxError::InvalidQualifiedId => "qualified id must contain exactly one `::` delimiter"@,
        OverrideSyntaxError::InvalidSourceAlias => "source alias must be lowercase and path-free"@,
    }
}

/// Why a would-be canonical identifier is refused, if it is.
pub open spec fn canonical_id_error(v: Seq<char>) -> Option<OverrideSyntaxError> {
    if v.len() == 0 || is_padded(v) {
        Some(OverrideSyntaxError::InvalidCanonicalId)
    } else if contains_seq(v, "::"@) {
        Some(OverrideSyntaxError::QualifiedLocalId)
    } else {
        None
    }
}

/// Lower-case ASCII letter first; then lower-case letters, digits, `-`, `_`, `.`.
pub open spec fn valid_source_alias_spec(a: Seq<char>) -> bool {
    &&& a.len() > 0
    &&& 'a' <= a[0] && a[0] <= 'z'
    &&& forall|i: int| 1 <= i < a.len() ==> alias_char(#[trigger] a[i])
}

pub open spec fn alias_char(c: char) -> bool {
    ('a' <= c && c <= 'z') || ('0' <= c && c <= '9') || c == '-' || c == '_' || c == '.'
}

/// Whether an alias is a valid child-local source alias.
pub fn valid_source_alias(alias: &str) -> (r: bool)
    ensures
        r == valid_source_alias_spec(alias@),
{
    let cs = chars_of(alias);
    if cs.len() == 0 {
        return false;
    }
    if !('a' <= cs[0] && cs[0] <= 'z') {
        return false;
    }
    let mut i: usize = 1;
    while i < cs.len()
        invariant
            cs@ == alias@,
            1 <= i <= cs@.len(),
            forall|k: int| 1 <= k < i ==> alias_char(#[trigger] cs@[k]),
        decreases cs@.len() - i,
    {
        let c = cs[i];
        if !(('a' <= c && c <= 'z') || ('0' <= c && c <= '9') || c == '-' || c == '_' || c == '.') {
            return false;
        }
        i += 1;
    }
    true
}

/// A canonical identifier used by an override operand. It cannot contain the
/// qualified-reference delimiter.
#[derive(Debug, Clone, PartialEq, Eq, PartialOrd, Ord, Hash)]
pub struct CanonicalId(String);

impl View for CanonicalId {
    type V = Seq<char>;

    closed spec fn view(&self) -> Seq<char> {
        self.0@
    }
}

impl CanonicalId {
    pub fn new(value: &str) -> (r: Result<Self, OverrideSyntaxError>)
        ensures
            match r {
                Ok(id) => canonical_id_error(value@).is_none() && id@ == value@,
                Err(e) => canonical_id_error(value@) == Some(e),
            },
    {
        let cs = chars_of(value);
        if cs.len() == 0 || char_is_white(cs[0]) || char_is_white(cs[cs.len() - 1]) {
            return Err(OverrideSyntaxError::InvalidCanonicalId);
        }
        if has_dcolon(value) {
            return Err(OverrideSyntaxError::QualifiedLocalId);
        }
        Ok(CanonicalId(owned(value)))
    }

    pub fn as_str(&self) -> (r: &str)
        ensures
            r@ == self@,
    {
        self.0.as_str()
    }

    /// An exact copy.
    pub fn dup(&self) -> (r: Self)
        ensures
            r@ == self@,
    {
        CanonicalId(self.0.clone())
    }
}

/// A child-local parent alias plus a canonical parent identifier.
#[derive(Debug, Clone, PartialEq, Eq, PartialOrd, Ord, Hash)]
pub struct QualifiedCanonicalId {
    alias: String,
    canonical_id: CanonicalId,
}

impl View for QualifiedCanonicalId {
    type V = (Seq<char>, Seq<char>);

    closed spec fn view(&self) -> (Seq<char>, Seq<char>) {
        (self.alias@, self.canonical_id@)
    }
}

/// The outcome of parsing a qualified parent reference.
pub open spec fn qualified_parse(v: Seq<char>) -> Result<(Seq<char>, Seq<char>), OverrideSyntaxError> {
    match split_dcolon(v) {
        None => Err(OverrideSyntaxError::ParentMustBeQualified),
        Some((alias, canonical)) => if contains_seq(canonical, "::"@) {
            Err(OverrideSyntaxError::InvalidQualifiedId)
        } else if canonical_id_error(canonical).is_some() {
            Err(canonical_id_error(canonical).unwrap())
        } else if !valid_source_alias_spec(alias) {
            Err(OverrideSyntaxError::InvalidSourceAlias)
        } else {
            Ok((alias, canonical))
        },
    }
}

impl QualifiedCanonicalId {
    pub fn new(alias: &str, canonical_id: CanonicalId) -> (r: Result<Self, OverrideSyntaxError>)
        ensures
            match r {
                Ok(q) => valid_source_alias_spec(alias@) && q@ == (alias@, canonical_id@),
                Err(e) => !valid_source_alias_spec(alias@) && e == OverrideSyntaxError::InvalidSourceAlias,
            },
    {
        if !valid_source_alias(alias) {
            return Err(OverrideSyntaxError::InvalidSourceAlias);
        }
        Ok(QualifiedCanonicalId { alias: owned(alias), canonical_id })
    }

    /// Parse `alias::CANONICAL-ID`.
    pub fn parse(value: &str) -> (r: Result<Self, OverrideSyntaxError>)
        ensures
            match r {
                Ok(q) => qualified_parse(value@) == Ok::<(Seq<char>, Seq<char>), OverrideSyntaxError>(q@),
                Err(e) => qualified_parse(value@) == Err::<(Seq<char>, Seq<char>), OverrideSyntaxError>(e),
            },
    {
        match split_once_dcolon(value) {
            None => Err(OverrideSyntaxError::ParentMustBeQualified),
            Some((alias, canonical)) => {
                if has_dcolon(canonical.as_str()) {
                    return Err(OverrideSyntaxError::InvalidQualifiedId);
                }
                let id = CanonicalId::new(canonical.as_str())?;
                QualifiedCanonicalId::new(alias.as_str(), id)
            },
        }
    }

    pub fn alias(&self) -> (r: &str)
        ensures
            r@ == self@.0,
    {
        self.alias.as_str()
    }

    pub fn canonical_id(&self) -> (r: &CanonicalId)
        ensures
            r@ == self@.1,
    {
        &self.canonical_id
    }

    /// `alias::CANONICAL-ID`.
    pub fn text(&self) -> (r: String)
        ensures
            r@ == self@.0 + "::"@ + self@.1,
    {
        concat3(self.alias.as_str(), "::", self.canonical_id.as_str())
    }

    /// An exact copy.
    pub fn dup(&self) -> (r: Self)
        ensures
            r@ == self@,
    {
        QualifiedCanonicalId { alias: self.alias.clone(), canonical_id: self.canonical_id.dup() }
    }
}

/// The source identity and child-local alias of the one verified parent.
#[derive(Debug, Clone, PartialEq, Eq)]
pub struct ParentIdentity {
    pub source: String,
    pub alias: String,
}

impl ParentIdentity {
    pub fn new(source: &str, alias: &str) -> (r: Result<Self, OverrideSyntaxError>)
        ensures
            match r {
                Ok(p) => valid_source_alias_spec(alias@) && p.source@ == source@ && p.alias@ == alias@,
                Err(e) => !valid_source_alias_spec(alias@) && e == OverrideSyntaxError::InvalidSourceAlias,
            },
    {
        if !valid_source_alias(alias) {
            return Err(OverrideSyntaxError::InvalidSourceAlias);
        }
        Ok(ParentIdentity { source: owned(source), alias: owned(alias) })
    }

    /// An exact copy.
    pub fn dup(&self) -> (r: Self)
        ensures
            r == *self,
    {
        ParentIdentity { source: self.source.clone(), alias: self.alias.clone() }
    }
}

/// One typed, canonical-only override declaration.
#[derive(Debug, Clone, PartialEq, Eq, PartialOrd, Ord)]
pub struct OverrideDeclaration {
    pub parent: QualifiedCanonicalId,
    pub replacement: CanonicalId,
    pub rationale: CanonicalId,
}

/// The outcome of parsing one declaration's three operands.
pub open spec fn declaration_parse(parent: Seq<char>, replacement: Seq<char>, rationale: Seq<char>) -> Option<OverrideSyntaxError> {
    match qualified_parse(parent) {
        Err(e) => Some(e),
        Ok(_) => if canonical_id_error(replacement).is_some() {
            canonical_id_error(replacement)
        } else {
            canonical_id_error(rationale)
        },
    }
}

impl OverrideDeclaration {
    pub fn parse(parent: &str, replacement: &str, rationale: &str) -> (r: Result<Self, OverrideSyntaxError>)
        ensures
            match r {
                Ok(d) => declaration_parse(parent@, replacement@, rationale@).is_none()
                    && qualified_parse(parent@) == Ok::<(Seq<char>, Seq<char>), OverrideSyntaxError>(d.parent@)
                    && d.replacement@ == replacement@ && d.rationale@ == rationale@,
                Err(e) => declaration_parse(parent@, replacement@, rationale@) == Some(e),
            },
    {
        let parent = QualifiedCanonicalId::parse(parent)?;
        let replacement = CanonicalId::new(replacement)?;
        let rationale = CanonicalId::new(rationale)?;
        Ok(OverrideDeclaration { parent, replacement, rationale })
    }

    /// An exact copy.
    pub fn dup(&self) -> (r: Self)
        ensures
            r@ == self@,
    {
        OverrideDeclaration { parent: self.parent.dup(), replacement: self.replacement.dup(), rationale: self.rationale.dup() }
    }
}

impl View for OverrideDeclaration {
    type V = (Seq<char>, Seq<char>, Seq<char>, Seq<char>);

    open spec fn view(&self) -> (Seq<char>, Seq<char>, Seq<char>, Seq<char>) {
        (self.parent@.0, self.parent@.1, self.replacement@, self.rationale@)
    }
}

impl SortKey for OverrideDeclaration {
    open spec fn sort_key(&self) -> Seq<Seq<char>> {
        seq![self@.0, self@.1, self@.2, self@.3]
    }

    fn key_lt(&self, other: &Self) -> (r: bool) {
        let ghost a = self.sort_key();
        let ghost b = other.sort_key();
        proof {
            let e = Seq::<Seq<char>>::empty();
            assert(a =~= seq![a[0]] + (seq![a[1]] + (seq![a[2]] + (seq![a[3]] + e))));
            assert(b =~= seq![b[0]] + (seq![b[1]] + (seq![b[2]] + (seq![b[3]] + e))));
            lemma_keys_lt_cons(a[0], seq![a[1]] + (seq![a[2]] + (seq![a[3]] + e)), b[0], seq![b[1]] + (seq![b[2]] + (seq![b[3]] + e)));
            lemma_keys_lt_cons(a[1], seq![a[2]] + (seq![a[3]] + e), b[1], seq![b[2]] + (seq![b[3]] + e));
            lemma_keys_lt_cons(a[2], seq![a[3]] + e, b[2], seq![b[3]] + e);
            lemma_keys_lt_cons(a[3], e, b[3], e);
            lemma_seq_lt_irreflexive(a[3]);
        }
        if !str_eq(self.parent.alias(), other.parent.alias()) {
            return str_lt(self.parent.alias(), other.parent.alias());
        }
        if !str_eq(self.parent.canonical_id().as_str(), other.parent.canonical_id().as_str()) {
            return str_lt(self.parent.canonical_id().as_str(), other.parent.canonical_id().as_str());
        }
        if !str_eq(self.replacement.as_str(), other.replacement.as_str()) {
            return str_lt(self.replacement.as_str(), other.replacement.as_str());
        }
        str_lt(self.rationale.as_str(), other.rationale.as_str())
    }
}

/// Why an override declaration did not become effective.
#[derive(Debug, Clone, Copy, PartialEq, Eq, PartialOrd, Ord, Structural)]
pub enum InvalidOverrideReason {
    ParentAliasMismatch,
    DuplicateParent,
    ParentNotFound,
    ParentAmbiguous,
    ReplacementNotFound,
    ReplacementAmbiguous,
    ReplacementNotLocal,
    Chained,
    TypeMismatch,
    RationaleNotFound,
    RationaleAmbiguous,
    RationaleNotLocal,
    RationaleNotDecision,
    RationaleNotLive,
}

pub open spec fn reason_word(r: InvalidOverrideReason) -> Seq<char> {
    match r {
        InvalidOverrideReason::ParentAliasMismatch => "parent-alias-mismatch"@,
        InvalidOverrideReason::DuplicateParent => "duplicate-parent"@,
        InvalidOverrideReason::ParentNotFound => "parent-not-found"@,
        InvalidOverrideReason::ParentAmbiguous => "parent-ambiguous"@,
        InvalidOverrideReason::ReplacementNotFound => "replacement-not-found"@,
        InvalidOverrideReason::ReplacementAmbiguous => "replacement-ambiguous"@,
        InvalidOverrideReason::ReplacementNotLocal => "replacement-not-local"@,
        InvalidOverrideReason::Chained => "chained"@,
        InvalidOverrideReason::TypeMismatch => "type-mismatch"@,
        InvalidOverrideReason::RationaleNotFound => "rationale-not-found"@,
        InvalidOverrideReason::RationaleAmbiguous => "rationale-ambiguous"@,
        InvalidOverrideReason::RationaleNotLocal => "rationale-not-local"@,
        InvalidOverrideReason::RationaleNotDecision => "rationale-not-decision"@,
        InvalidOverrideReason::RationaleNotLive => "rationale-not-live"@,
    }
}

impl InvalidOverrideReason {
    pub fn as_str(self) -> (r: &'static str)
        ensures
            r@ == reason_word(self),
    {
        match self {
            InvalidOverrideReason::ParentAliasMismatch => "parent-alias-mismatch",
            InvalidOverrideReason::DuplicateParent => "duplicate-parent",
            InvalidOverrideReason::ParentNotFound => "parent-not-found",
            InvalidOverrideReason::ParentAmbiguous => "parent-ambiguous",
            InvalidOverrideReason::ReplacementNotFound => "replacement-not-found",
            InvalidOverrideReason::ReplacementAmbiguous => "replacement-ambiguous",
            InvalidOverrideReason::ReplacementNotLocal => "replacement-not-local",
            InvalidOverrideReason::Chained => "chained",
            InvalidOverrideReason::TypeMismatch => "type-mismatch",
            InvalidOverrideReason::RationaleNotFound => "rationale-not-found",
            InvalidOverrideReason::RationaleAmbiguous => "rationale-ambiguous",
            InvalidOverrideReason::RationaleNotLocal => "rationale-not-local",
            InvalidOverrideReason::RationaleNotDecision => "rationale-not-decision",
            InvalidOverrideReason::RationaleNotLive => "rationale-not-live",
        }
    }
}


pub const FINDING_CANONICAL_COLLISION: &'static str = "cross-corpus-canonical-id-collision";
pub const FINDING_INVALID_OVERRIDE: &'static str = "cross-corpus-invalid-override";

/// One deterministic composition finding.
#[derive(Debug, Clone, PartialEq, Eq)]
pub struct CompositionFinding {
    pub code: String,
    pub message: String,
    pub reason: Option<InvalidOverrideReason>,
    pub artifacts: Vec<ArtifactKey>,
    pub paths: Vec<ArtifactPath>,
}

/// A validated policy redirect. All three endpoints are stable artifact keys.
#[derive(Debug, Clone, PartialEq, Eq)]
pub struct ValidatedOverride {
    pub declaration: OverrideDeclaration,
    pub parent: ArtifactKey,
    pub replacement: ArtifactKey,
    pub rationale: ArtifactKey,
}

/// Exact lookup failure against the composed effective view.
#[derive(Debug, Clone, PartialEq, Eq)]
pub enum LookupError {
    NotFound,
    Ambiguous(Vec<ArtifactKey>),
    InvalidQualifiedReference,
    QualifiedCanonicalRequired,
}

/// The case-folded form of a canonical identifier.
pub open spec fn fold(s: Seq<char>) -> Seq<char> {
    lowercase(s)
}

/// Whether an item of `layer` has canonical fold `f` (and, when given, source `src`).
pub open spec fn item_matches(it: CorpusItem, layer: Layer, f: Seq<char>, src: Option<Seq<char>>) -> bool {
    &&& it.origin.layer == layer
    &&& fold(it.key.canonical_id@) == f
    &&& (src matches Some(sv) ==> it.origin.source@ == sv)
}

/// Ascending indices of the matching items among the first `upto`.
pub open spec fn match_list(items: Seq<CorpusItem>, layer: Layer, f: Seq<char>, src: Option<Seq<char>>, upto: int) -> Seq<int>
    decreases upto,
{
    if upto <= 0 {
        Seq::empty()
    } else {
        let before = match_list(items, layer, f, src, upto - 1);
        if item_matches(items[upto - 1], layer, f, src) { before.push(upto - 1) } else { before }
    }
}

pub open spec fn all_matches(items: Seq<CorpusItem>, layer: Layer, f: Seq<char>, src: Option<Seq<char>>) -> Seq<int> {
    match_list(items, layer, f, src, items.len() as int)
}

/// Number of declarations among the first `upto` with parent alias `a` and parent fold `f`.
pub open spec fn count_parent(decls: Seq<OverrideDeclaration>, a: Seq<char>, f: Seq<char>, upto: int) -> nat
    decreases upto,
{
    if upto <= 0 {
        0
    } else {
        count_parent(decls, a, f, upto - 1) + if decls[upto - 1]@.0 == a && fold(decls[upto - 1]@.1) == f { 1nat } else { 0nat }
    }
}

/// Whether some declaration's parent canonical id folds to `f`.
pub open spec fn declared_parent(decls: Seq<OverrideDeclaration>, f: Seq<char>) -> bool {
    exists|k: int| 0 <= k < decls.len() && fold(#[trigger] decls[k]@.1) == f
}

pub open spec fn spec_name_view(it: CorpusItem) -> Option<Seq<char>> {
    opt_view(it.spec_name)
}

/// The decision procedure for one override declaration: the validated
/// `(parent, replacement, rationale)` item indices, or the reason and the
/// involved items.
pub open spec fn override_outcome(
    items: Seq<CorpusItem>,
    decls: Seq<OverrideDeclaration>,
    parent: Option<(Seq<char>, Seq<char>)>,
    d: (Seq<char>, Seq<char>, Seq<char>, Seq<char>),
) -> Result<(int, int, int), (InvalidOverrideReason, Seq<int>)> {
    let pid = fold(d.1);
    let rid = fold(d.2);
    let qid = fold(d.3);
    match parent {
        None => Err((InvalidOverrideReason::ParentNotFound, Seq::empty())),
        Some((psrc, palias)) => if d.0 != palias {
            Err((InvalidOverrideReason::ParentAliasMismatch, Seq::empty()))
        } else if count_parent(decls, d.0, pid, decls.len() as int) > 1 {
            Err((InvalidOverrideReason::DuplicateParent, Seq::empty()))
        } else {
            let pm = all_matches(items, Layer::Inherited, pid, Some(psrc));
            let rm = all_matches(items, Layer::Local, rid, None);
            let rim = all_matches(items, Layer::Inherited, rid, None);
            let qm = all_matches(items, Layer::Local, qid, None);
            let qim = all_matches(items, Layer::Inherited, qid, None);
            if pm.len() == 0 {
                Err((InvalidOverrideReason::ParentNotFound, Seq::empty()))
            } else if pm.len() > 1 {
                Err((InvalidOverrideReason::ParentAmbiguous, pm))
            } else if rm.len() == 0 && rim.len() > 0 {
                Err((InvalidOverrideReason::ReplacementNotLocal, rim))
            } else if rm.len() == 0 {
                Err((InvalidOverrideReason::ReplacementNotFound, Seq::empty()))
            } else if rm.len() > 1 {
                Err((InvalidOverrideReason::ReplacementAmbiguous, rm))
            } else if rid != pid && declared_parent(decls, rid) {
                Err((InvalidOverrideReason::Chained, seq![pm[0], rm[0]]))
            } else if spec_name_view(items[pm[0]]).is_none() || spec_name_view(items[pm[0]]) != spec_name_view(items[rm[0]]) {
                Err((InvalidOverrideReason::TypeMismatch, seq![pm[0], rm[0]]))
            } else if qm.len() == 0 && qim.len() > 0 {
                Err((InvalidOverrideReason::RationaleNotLocal, qim))
            } else if qm.len() == 0 {
                Err((InvalidOverrideReason::RationaleNotFound, Seq::empty()))
            } else if qm.len() > 1 {
                Err((InvalidOverrideReason::RationaleAmbiguous, qm))
            } else if spec_name_view(items[qm[0]]) != Some("decision"@) {
                Err((InvalidOverrideReason::RationaleNotDecision, seq![qm[0]]))
            } else if !items[qm[0]].live_decision {
                Err((InvalidOverrideReason::RationaleNotLive, seq![qm[0]]))
            } else {
                Ok((pm[0], rm[0], qm[0]))
            }
        },
    }
}

pub open spec fn parent_view(p: Option<ParentIdentity>) -> Option<(Seq<char>, Seq<char>)> {
    match p {
        Some(p) => Some((p.source@, p.alias@)),
        None => None,
    }
}

pub open spec fn folds_of(items: Seq<CorpusItem>, folds: Seq<String>) -> bool {
    &&& folds.len() == items.len()
    &&& forall|i: int| 0 <= i < items.len() ==> (#[trigger] folds[i])@ == fold(items[i].key.canonical_id@)
}

/// Case-folded canonical identifiers of every item.
fn fold_all(items: &Vec<CorpusItem>) -> (r: Vec<String>)
    ensures
        folds_of(items@, r@),
{
    let mut r: Vec<String> = Vec::new();
    let mut i: usize = 0;
    while i < items.len()
        invariant
            i <= items@.len(),
            r@.len() == i,
            forall|k: int| 0 <= k < i ==> (#[trigger] r@[k])@ == fold(items@[k].key.canonical_id@),
        decreases items@.len() - i,
    {
        r.push(fold_case(items[i].key.canonical_id.as_str()));
        i += 1;
    }
    r
}

/// The ascending indices of items of `layer` whose canonical fold is `f`.
fn find_matches(items: &Vec<CorpusItem>, folds: &Vec<String>, layer: Layer, f: &String, src: Option<&String>) -> (r: Vec<usize>)
    requires
        folds_of(items@, folds@),
    ensures
        r@.map_values(|i: usize| i as int) == all_matches(items@, layer, f@, match src { Some(s) => Some(s@), None => None }),
        forall|k: int| 0 <= k < r@.len() ==> r@[k] < items@.len(),
{
    let ghost sv = match src { Some(s) => Some(s@), None => None };
    let mut r: Vec<usize> = Vec::new();
    let mut i: usize = 0;
    while i < items.len()
        invariant
            i <= items@.len(),
            folds_of(items@, folds@),
            sv == match src { Some(s) => Some(s@), None => None::<Seq<char>> },
            r@.map_values(|i: usize| i as int) == match_list(items@, layer, f@, sv, i as int),
            forall|k: int| 0 <= k < r@.len() ==> r@[k] < items@.len(),
        decreases items@.len() - i,
    {
        let it = &items[i];
        let source_ok = match src {
            Some(s) => it.origin.source == *s,
            None => true,
        };
        if it.origin.layer == layer && folds[i] == *f && source_ok {
            r.push(i);
            assert(r@.map_values(|i: usize| i as int) =~= match_list(items@, layer, f@, sv, i as int).push(i as int));
        }
        i += 1;
    }
    r
}

fn count_parents(decls: &Vec<OverrideDeclaration>, alias: &str, f: &String) -> (r: usize)
    ensures
        r as nat == count_parent(decls@, alias@, f@, decls@.len() as int),
{
    let mut n: usize = 0;
    let mut i: usize = 0;
    while i < decls.len()
        invariant
            i <= decls@.len(),
            n as nat == count_parent(decls@, alias@, f@, i as int),
            n <= i,
        decreases decls@.len() - i,
    {
        let d = &decls[i];
        let pf = fold_case(d.parent.canonical_id().as_str());
        if str_eq(d.parent.alias(), alias) && pf == *f {
            n += 1;
        }
        i += 1;
    }
    n
}

fn is_declared_parent(decls: &Vec<OverrideDeclaration>, f: &String) -> (r: bool)
    ensures
        r == declared_parent(decls@, f@),
{
    let mut i: usize = 0;
    while i < decls.len()
        invariant
            i <= decls@.len(),
            forall|k: int| 0 <= k < i ==> fold(#[trigger] decls@[k]@.1) != f@,
        decreases decls@.len() - i,
    {
        let pf = fold_case(decls[i].parent.canonical_id().as_str());
        if pf == *f {
            assert(fold(decls@[i as int]@.1) == f@);
            return true;
        }
        i += 1;
    }
    false
}

fn opt_eq(a: &Option<String>, b: &Option<String>) -> (r: bool)
    ensures
        r == (opt_view(*a) == opt_view(*b)),
{
    match (a, b) {
        (Some(x), Some(y)) => *x == *y,
        (None, None) => true,
        _ => false,
    }
}

fn two(a: usize, b: usize) -> (r: Vec<usize>)
    ensures
        r@ == seq![a, b],
{
    let mut r: Vec<usize> = Vec::new();
    r.push(a);
    r.push(b);
    r
}

fn one(a: usize) -> (r: Vec<usize>)
    ensures
        r@ == seq![a],
{
    let mut r: Vec<usize> = Vec::new();
    r.push(a);
    r
}

pub open spec fn idx_view(v: Seq<usize>) -> Seq<int> {
    v.map_values(|i: usize| i as int)
}

/// Validate one declaration against the composed catalog.
fn validate_override(
    d: &OverrideDeclaration,
    parent: &Option<ParentIdentity>,
    items: &Vec<CorpusItem>,
    folds: &Vec<String>,
    decls: &Vec<OverrideDeclaration>,
) -> (r: Result<(usize, usize, usize), (InvalidOverrideReason, Vec<usize>)>)
    requires
        folds_of(items@, folds@),
    ensures
        match r {
            Ok((p, q, s)) => override_outcome(items@, decls@, parent_view(*parent), d@) == Ok::<(int, int, int), (InvalidOverrideReason, Seq<int>)>((p as int, q as int, s as int))
                && p < items@.len() && q < items@.len() && s < items@.len(),
            Err((reason, ids)) => override_outcome(items@, decls@, parent_view(*parent), d@) == Err::<(int, int, int), (InvalidOverrideReason, Seq<int>)>((reason, idx_view(ids@)))
                && forall|k: int| 0 <= k < ids@.len() ==> ids@[k] < items@.len(),
        },
{
    let pid = fold_case(d.parent.canonical_id().as_str());
    let rid = fold_case(d.replacement.as_str());
    let qid = fold_case(d.rationale.as_str());
    proof {
        assert(idx_view(Seq::<usize>::empty()) =~= Seq::<int>::empty());
    }
    let parent_identity = match parent {
        None => return Err((InvalidOverrideReason::ParentNotFound, Vec::new())),
        Some(p) => p,
    };
    proof {
        assert(idx_view(Seq::<usize>::empty()) =~= Seq::<int>::empty());
    }
    if !str_eq(d.parent.alias(), parent_identity.alias.as_str()) {
        return Err((InvalidOverrideReason::ParentAliasMismatch, Vec::new()));
    }
    if count_parents(decls, d.parent.alias(), &pid) > 1 {
        return Err((InvalidOverrideReason::DuplicateParent, Vec::new()));
    }
    let pm = find_matches(items, folds, Layer::Inherited, &pid, Some(&parent_identity.source));
    if pm.len() == 0 {
        return Err((InvalidOverrideReason::ParentNotFound, Vec::new()));
    }
    if pm.len() > 1 {
        return Err((InvalidOverrideReason::ParentAmbiguous, pm));
    }
    let p = pm[0];
    let rm = find_matches(items, folds, Layer::Local, &rid, None);
    if rm.len() == 0 {
        let rim = find_matches(items, folds, Layer::Inherited, &rid, None);
        if rim.len() > 0 {
            return Err((InvalidOverrideReason::ReplacementNotLocal, rim));
        }
        return Err((InvalidOverrideReason::ReplacementNotFound, Vec::new()));
    }
    if rm.len() > 1 {
        return Err((InvalidOverrideReason::ReplacementAmbiguous, rm));
    }
    let q = rm[0];
    proof {
        assert(idx_view(seq![p, q]) =~= seq![p as int, q as int]);
    }
    if !(rid == pid) && is_declared_parent(decls, &rid) {
        return Err((InvalidOverrideReason::Chained, two(p, q)));
    }
    if items[p].spec_name.is_none() || !opt_eq(&items[p].spec_name, &items[q].spec_name) {
        return Err((InvalidOverrideReason::TypeMismatch, two(p, q)));
    }
    let qm = find_matches(items, folds, Layer::Local, &qid, None);
    if qm.len() == 0 {
        let qim = find_matches(items, folds, Layer::Inherited, &qid, None);
        if qim.len() > 0 {
            return Err((InvalidOverrideReason::RationaleNotLocal, qim));
        }
        return Err((InvalidOverrideReason::RationaleNotFound, Vec::new()));
    }
    if qm.len() > 1 {
        return Err((InvalidOverrideReason::RationaleAmbiguous, qm));
    }
    let s = qm[0];
    proof {
        assert(idx_view(seq![s]) =~= seq![s as int]);
        reveal_strlit("decision");
    }
    let is_decision = match &items[s].spec_name {
        Some(name) => str_eq(name.as_str(), "decision"),
        None => false,
    };
    if !is_decision {
        return Err((InvalidOverrideReason::RationaleNotDecision, one(s)));
    }
    if !items[s].live_decision {
        return Err((InvalidOverrideReason::RationaleNotLive, one(s)));
    }
    Ok((p, q, s))
}


/// The declarations among the first `upto` whose outcome is valid, with their
/// endpoint indices, in declaration order.
pub open spec fn accepted(items: Seq<CorpusItem>, decls: Seq<OverrideDeclaration>, parent: Option<(Seq<char>, Seq<char>)>, upto: int) -> Seq<(int, (int, int, int))>
    decreases upto,
{
    if upto <= 0 {
        Seq::empty()
    } else {
        let before = accepted(items, decls, parent, upto - 1);
        match override_outcome(items, decls, parent, decls[upto - 1]@) {
            Ok(ends) => before.push((upto - 1, ends)),
            Err(_) => before,
        }
    }
}

/// The declarations among the first `upto` whose outcome is invalid, with
/// their reasons and involved item indices, in declaration order.
pub open spec fn rejected(items: Seq<CorpusItem>, decls: Seq<OverrideDeclaration>, parent: Option<(Seq<char>, Seq<char>)>, upto: int) -> Seq<(int, InvalidOverrideReason, Seq<int>)>
    decreases upto,
{
    if upto <= 0 {
        Seq::empty()
    } else {
        let before = rejected(items, decls, parent, upto - 1);
        match override_outcome(items, decls, parent, decls[upto - 1]@) {
            Ok(_) => before,
            Err((reason, ids)) => before.push((upto - 1, reason, ids)),
        }
    }
}

/// The human message of an invalid override.
pub open spec fn override_message(d: (Seq<char>, Seq<char>, Seq<char>, Seq<char>), reason: InvalidOverrideReason) -> Seq<char> {
    "override "@ + d.0 + "::"@ + d.1 + " -> "@ + d.2 + " ("@ + d.3 + ") is invalid: "@ + reason_word(reason)
}

/// Whether override `v` corresponds to declaration `d` with endpoints `ends`.
pub open spec fn override_is(items: Seq<CorpusItem>, v: ValidatedOverride, d: OverrideDeclaration, ends: (int, int, int)) -> bool {
    &&& v.declaration@ == d@
    &&& v.parent@ == items[ends.0].key@
    &&& v.replacement@ == items[ends.1].key@
    &&& v.rationale@ == items[ends.2].key@
}

fn override_text(d: &OverrideDeclaration, reason: InvalidOverrideReason) -> (r: String)
    ensures
        r@ == override_message(d@, reason),
{
    let mut m = owned("override ");
    push_str(&mut m, d.parent.alias());
    push_str(&mut m, "::");
    push_str(&mut m, d.parent.canonical_id().as_str());
    push_str(&mut m, " -> ");
    push_str(&mut m, d.replacement.as_str());
    push_str(&mut m, " (");
    push_str(&mut m, d.rationale.as_str());
    push_str(&mut m, ") is invalid: ");
    push_str(&mut m, reason.as_str());
    m
}

/// The keys and paths of the given items, in order.
fn keys_and_paths(items: &Vec<CorpusItem>, ids: &Vec<usize>) -> (r: (Vec<ArtifactKey>, Vec<ArtifactPath>))
    requires
        forall|k: int| 0 <= k < ids@.len() ==> ids@[k] < items@.len(),
    ensures
        r.0@.len() == ids@.len(),
        r.1@.len() == ids@.len(),
        forall|k: int| 0 <= k < ids@.len() ==> r.0@[k] == items@[ids@[k] as int].key && r.1@[k] == items@[ids@[k] as int].artifact_path,
{
    let mut keys: Vec<ArtifactKey> = Vec::new();
    let mut paths: Vec<ArtifactPath> = Vec::new();
    let mut i: usize = 0;
    while i < ids.len()
        invariant
            i <= ids@.len(),
            forall|k: int| 0 <= k < ids@.len() ==> ids@[k] < items@.len(),
            keys@.len() == i,
            paths@.len() == i,
            forall|k: int| 0 <= k < i ==> keys@[k] == items@[ids@[k] as int].key && paths@[k] == items@[ids@[k] as int].artifact_path,
        decreases ids@.len() - i,
    {
        keys.push(items[ids[i]].key.dup());
        paths.push(items[ids[i]].artifact_path.dup());
        i += 1;
    }
    (keys, paths)
}

/// `key` is the key of one of the indexed items.
pub open spec fn key_of_some(items: Seq<CorpusItem>, ids: Seq<usize>, key: ArtifactKey) -> bool {
    exists|i: usize| #[trigger] ids.contains(i) && key == items[i as int].key
}

/// `ps` lists, ascending and once each, the positions named in `ids`.
pub open spec fn positions_of(ids: Seq<int>, ps: Seq<usize>) -> bool {
    &&& forall|a: int, b: int| 0 <= a < b < ps.len() ==> ps[a] < ps[b]
    &&& forall|x: usize| #[trigger] ps.contains(x) <==> ids.contains(x as int)
}

/// `f` reports declaration `d` refused for `reason`, naming the artifacts at
/// positions `ids` in catalog order, with their paths.
pub open spec fn is_invalid_finding(items: Seq<CorpusItem>, d: OverrideDeclaration, reason: InvalidOverrideReason, ids: Seq<int>, f: CompositionFinding) -> bool {
    &&& finding_for(f, d, reason)
    &&& exists|ps: Seq<usize>| #[trigger] positions_of(ids, ps) && {
        &&& f.artifacts@.len() == ps.len()
        &&& f.paths@.len() == ps.len()
        &&& forall|j: int| 0 <= j < ps.len() ==> f.artifacts@[j] == items[ps[j] as int].key
            && f.paths@[j] == items[ps[j] as int].artifact_path
    }
}

fn invalid_override_finding(d: &OverrideDeclaration, reason: InvalidOverrideReason, items: &Vec<CorpusItem>, ids: &Vec<usize>) -> (r: CompositionFinding)
    requires
        forall|k: int| 0 <= k < ids@.len() ==> ids@[k] < items@.len(),
    ensures
        r.code@ == FINDING_INVALID_OVERRIDE@,
        r.reason == Some(reason),
        r.message@ == override_message(d@, reason),
        r.artifacts@.len() == r.paths@.len(),
        forall|k: int| 0 <= k < r.artifacts@.len() ==> key_of_some(items@, ids@, #[trigger] r.artifacts@[k]),
        is_invalid_finding(items@, *d, reason, idx_view(ids@), r),
{
    let ordered = sort_dedup_indices(ids);
    assert forall|k: int| 0 <= k < ordered@.len() implies ordered@[k] < items@.len() by {
        assert(ordered@.contains(ordered@[k]));
    }
    let (artifacts, paths) = keys_and_paths(items, &ordered);
    assert forall|k: int| 0 <= k < artifacts@.len() implies key_of_some(items@, ids@, #[trigger] artifacts@[k]) by {
        assert(ordered@.contains(ordered@[k]));
        assert(ids@.contains(ordered@[k]));
    }
    let r = CompositionFinding {
        code: owned(FINDING_INVALID_OVERRIDE),
        message: override_text(d, reason),
        reason: Some(reason),
        artifacts,
        paths,
    };
    proof {
        assert forall|x: usize| #[trigger] ordered@.contains(x) <==> idx_view(ids@).contains(x as int) by {
            if ids@.contains(x) {
                let m = choose|m: int| 0 <= m < ids@.len() && ids@[m] == x;
                assert(idx_view(ids@)[m] == x as int);
            }
            if idx_view(ids@).contains(x as int) {
                let m = choose|m: int| 0 <= m < idx_view(ids@).len() && idx_view(ids@)[m] == x as int;
                assert(ids@[m] == x);
            }
        }
        assert(positions_of(idx_view(ids@), ordered@));
    }
    r
}

pub proof fn lemma_match_list(items: Seq<CorpusItem>, layer: Layer, f: Seq<char>, src: Option<Seq<char>>, upto: int)
    requires
        upto <= items.len(),
    ensures
        forall|k: int| 0 <= k < match_list(items, layer, f, src, upto).len() ==> {
            let j = #[trigger] match_list(items, layer, f, src, upto)[k];
            0 <= j < upto && item_matches(items[j], layer, f, src)
        },
        forall|j: int| 0 <= j < upto && item_matches(items[j], layer, f, src) ==> match_list(items, layer, f, src, upto).contains(j),
        forall|a: int, b: int| 0 <= a < b < match_list(items, layer, f, src, upto).len() ==>
            match_list(items, layer, f, src, upto)[a] < match_list(items, layer, f, src, upto)[b],
    decreases upto,
{
    if upto > 0 {
        lemma_match_list(items, layer, f, src, upto - 1);
        let before = match_list(items, layer, f, src, upto - 1);
        let now = match_list(items, layer, f, src, upto);
        assert forall|j: int| 0 <= j < upto && item_matches(items[j], layer, f, src) implies now.contains(j) by {
            if j < upto - 1 {
                assert(before.contains(j));
                let k = choose|k: int| 0 <= k < before.len() && before[k] == j;
                assert(now[k] == j);
            } else {
                assert(now[now.len() - 1] == j);
            }
        }
    }
}

/// Whether a validated mapping clears the collision between `parent` and `local`.
fn clears(overrides: &Vec<ValidatedOverride>, parent: &ArtifactKey, local: &ArtifactKey) -> (r: bool)
    ensures
        r == exists|k: int| 0 <= k < overrides@.len() && #[trigger] overrides@[k].parent@ == parent@
            && overrides@[k].replacement@ == local@
            && fold(overrides@[k].parent.canonical_id@) == fold(overrides@[k].replacement.canonical_id@),
{
    let mut k: usize = 0;
    while k < overrides.len()
        invariant
            k <= overrides@.len(),
            forall|j: int| 0 <= j < k ==> !(#[trigger] overrides@[j].parent@ == parent@
                && overrides@[j].replacement@ == local@
                && fold(overrides@[j].parent.canonical_id@) == fold(overrides@[j].replacement.canonical_id@)),
        decreases overrides@.len() - k,
    {
        let v = &overrides[k];
        if v.parent.same(parent) && v.replacement.same(local)
            && fold_case(v.parent.canonical_id.as_str()) == fold_case(v.replacement.canonical_id.as_str()) {
            return true;
        }
        k += 1;
    }
    false
}

/// A validated mapping between `parent` and `local` that keeps the canonical
/// identifier (up to case) clears their collision.
pub open spec fn cleared_pair(overrides: Seq<ValidatedOverride>, parent: (Seq<char>, Seq<char>), local: (Seq<char>, Seq<char>)) -> bool {
    exists|k: int| 0 <= k < overrides.len() && #[trigger] overrides[k].parent@ == parent
        && overrides[k].replacement@ == local
        && fold(overrides[k].parent.canonical_id@) == fold(overrides[k].replacement.canonical_id@)
}

/// The canonical fold `f` is held by both layers, and no single validated
/// mapping between its one local and its one inherited artifact clears it.
pub open spec fn collides(items: Seq<CorpusItem>, f: Seq<char>, overrides: Seq<ValidatedOverride>) -> bool {
    let lm = all_matches(items, Layer::Local, f, None);
    let pm = all_matches(items, Layer::Inherited, f, None);
    &&& lm.len() > 0
    &&& pm.len() > 0
    &&& !(lm.len() == 1 && pm.len() == 1 && cleared_pair(overrides, items[pm[0]].key@, items[lm[0]].key@))
}

/// `ps` lists, ascending, exactly the catalog positions whose canonical
/// identifier folds to `f`.
pub open spec fn fold_positions(items: Seq<CorpusItem>, f: Seq<char>, ps: Seq<usize>) -> bool {
    &&& forall|a: int, b: int| 0 <= a < b < ps.len() ==> ps[a] < ps[b]
    &&& forall|x: usize| #[trigger] ps.contains(x) <==> (x < items.len() && fold(items[x as int].key.canonical_id@) == f)
}

pub open spec fn collision_message(display: Seq<char>) -> Seq<char> {
    "canonical id "@ + display + " occurs in both local and inherited corpora"@
}

/// `x` reports the collision of fold `f`: every artifact with that fold, in
/// catalog order, with its path, named in the message by the first one.
pub open spec fn is_collision_finding(items: Seq<CorpusItem>, f: Seq<char>, x: CompositionFinding) -> bool {
    exists|ps: Seq<usize>| #[trigger] fold_positions(items, f, ps) && {
        &&& ps.len() > 0
        &&& x.code@ == FINDING_CANONICAL_COLLISION@
        &&& x.reason.is_none()
        &&& x.artifacts@.len() == ps.len()
        &&& x.paths@.len() == ps.len()
        &&& forall|j: int| 0 <= j < ps.len() ==> x.artifacts@[j] == items[ps[j] as int].key
            && x.paths@[j] == items[ps[j] as int].artifact_path
        &&& x.message@ == collision_message(items[ps[0] as int].key.canonical_id@)
    }
}

/// The fold a collision finding is about.
pub open spec fn finding_fold(x: CompositionFinding) -> Seq<char> {
    fold(x.artifacts@[0].canonical_id@)
}

/// Findings for canonical identifiers present in both layers: one for each
/// colliding fold of a local item, and no other.
fn collision_findings(items: &Vec<CorpusItem>, folds: &Vec<String>, local: &Vec<usize>, overrides: &Vec<ValidatedOverride>) -> (r: Vec<CompositionFinding>)
    requires
        folds_of(items@, folds@),
        forall|k: int| 0 <= k < local@.len() ==> local@[k] < items@.len(),
    ensures
        forall|k: int| 0 <= k < r@.len() ==> (#[trigger] r@[k]).code@ == FINDING_CANONICAL_COLLISION@
            && r@[k].reason.is_none()
            && r@[k].artifacts@.len() >= 2
            && r@[k].artifacts@.len() == r@[k].paths@.len(),
        forall|k: int| 0 <= k < r@.len() ==> collides(items@, finding_fold(#[trigger] r@[k]), overrides@)
            && is_collision_finding(items@, finding_fold(r@[k]), r@[k]),
        forall|i: int| 0 <= i < local@.len() && collides(items@, fold(items@[#[trigger] local@[i] as int].key.canonical_id@), overrides@)
            ==> exists|k: int| 0 <= k < r@.len() && finding_fold(#[trigger] r@[k]) == fold(items@[local@[i] as int].key.canonical_id@),
        forall|k1: int, k2: int| 0 <= k1 < k2 < r@.len() ==> finding_fold(#[trigger] r@[k1]) != finding_fold(#[trigger] r@[k2]),
{
    let mut out: Vec<CompositionFinding> = Vec::new();
    let mut i: usize = 0;
    while i < local.len()
        invariant
            i <= local@.len(),
            folds_of(items@, folds@),
            forall|k: int| 0 <= k < local@.len() ==> local@[k] < items@.len(),
            forall|k: int| 0 <= k < out@.len() ==> (#[trigger] out@[k]).code@ == FINDING_CANONICAL_COLLISION@
                && out@[k].reason.is_none()
                && out@[k].artifacts@.len() >= 2
                && out@[k].artifacts@.len() == out@[k].paths@.len(),
            forall|k: int| 0 <= k < out@.len() ==> collides(items@, finding_fold(#[trigger] out@[k]), overrides@)
                && is_collision_finding(items@, finding_fold(out@[k]), out@[k])
                && exists|j: int| 0 <= j < i && folds@[#[trigger] local@[j] as int]@ == finding_fold(out@[k]),
            forall|j: int| 0 <= j < i && collides(items@, folds@[#[trigger] local@[j] as int]@, overrides@)
                ==> exists|k: int| 0 <= k < out@.len() && finding_fold(#[trigger] out@[k]) == folds@[local@[j] as int]@,
            forall|k1: int, k2: int| 0 <= k1 < k2 < out@.len() ==> finding_fold(#[trigger] out@[k1]) != finding_fold(#[trigger] out@[k2]),
        decreases local@.len() - i,
    {
        let f = &folds[local[i]];
        // handle each fold once, at its first local item
        let mut seen = false;
        let mut j: usize = 0;
        while j < i
            invariant
                j <= i < local@.len(),
                forall|k: int| 0 <= k < local@.len() ==> local@[k] < items@.len(),
                folds_of(items@, folds@),
                *f == folds@[local@[i as int] as int],
                seen == exists|m: int| 0 <= m < j && folds@[#[trigger] local@[m] as int]@ == f@,
            decreases i - j,
        {
            if str_eq(folds[local[j]].as_str(), f.as_str()) {
                seen = true;
            }
            j += 1;
        }
        let ghost before = out@;
        if !seen {
            let local_ids = find_matches(items, folds, Layer::Local, f, None);
            let parent_ids = find_matches(items, folds, Layer::Inherited, f, None);
            proof {
                lemma_match_list(items@, Layer::Local, f@, None, items@.len() as int);
                lemma_match_list(items@, Layer::Inherited, f@, None, items@.len() as int);
                assert(idx_view(local_ids@).len() == local_ids@.len());
                assert(idx_view(parent_ids@).len() == parent_ids@.len());
            }
            if parent_ids.len() > 0 && local_ids.len() > 0 {
                let cleared = local_ids.len() == 1 && parent_ids.len() == 1
                    && clears(overrides, &items[parent_ids[0]].key, &items[local_ids[0]].key);
                proof {
                    assert(idx_view(local_ids@)[0] == local_ids@[0] as int);
                    assert(idx_view(parent_ids@)[0] == parent_ids@[0] as int);
                    assert(cleared == (all_matches(items@, Layer::Local, f@, None).len() == 1
                        && all_matches(items@, Layer::Inherited, f@, None).len() == 1
                        && cleared_pair(overrides@, items@[all_matches(items@, Layer::Inherited, f@, None)[0]].key@,
                            items@[all_matches(items@, Layer::Local, f@, None)[0]].key@)));
                }
                if !cleared {
                    let mut all = local_ids.clone();
                    let mut k: usize = 0;
                    while k < parent_ids.len()
                        invariant
                            k <= parent_ids@.len(),
                            all@ == local_ids@ + parent_ids@.take(k as int),
                            forall|m: int| 0 <= m < local_ids@.len() ==> local_ids@[m] < items@.len(),
                            forall|m: int| 0 <= m < parent_ids@.len() ==> parent_ids@[m] < items@.len(),
                        decreases parent_ids@.len() - k,
                    {
                        all.push(parent_ids[k]);
                        k += 1;
                        assert(all@ =~= local_ids@ + parent_ids@.take(k as int));
                    }
                    assert(parent_ids@.take(parent_ids@.len() as int) =~= parent_ids@);
                    proof {
                        assert(all@[0] == local_ids@[0]);
                        assert(all@[all@.len() - 1] == parent_ids@[parent_ids@.len() - 1]);
                        assert(idx_view(parent_ids@)[parent_ids@.len() - 1] == parent_ids@[parent_ids@.len() - 1] as int);
                    }
                    let ordered = sort_dedup_indices(&all);
                    proof {
                        // `ordered` holds exactly the positions with fold `f`
                        assert forall|x: usize| #[trigger] ordered@.contains(x) <==> (x < items@.len() && fold(items@[x as int].key.canonical_id@) == f@) by {
                            if ordered@.contains(x) {
                                assert(all@.contains(x));
                                let m = choose|m: int| 0 <= m < all@.len() && all@[m] == x;
                                if m < local_ids@.len() {
                                    assert(local_ids@[m] == x);
                                    assert(idx_view(local_ids@)[m] == x as int);
                                } else {
                                    assert(parent_ids@[m - local_ids@.len()] == x);
                                    assert(idx_view(parent_ids@)[m - local_ids@.len()] == x as int);
                                }
                            }
                            if x < items@.len() && fold(items@[x as int].key.canonical_id@) == f@ {
                                if items@[x as int].origin.layer == Layer::Local {
                                    assert(item_matches(items@[x as int], Layer::Local, f@, None));
                                    assert(idx_view(local_ids@).contains(x as int));
                                    let m = choose|m: int| 0 <= m < idx_view(local_ids@).len() && idx_view(local_ids@)[m] == x as int;
                                    assert(all@[m] == x);
                                } else {
                                    assert(item_matches(items@[x as int], Layer::Inherited, f@, None));
                                    assert(idx_view(parent_ids@).contains(x as int));
                                    let m = choose|m: int| 0 <= m < idx_view(parent_ids@).len() && idx_view(parent_ids@)[m] == x as int;
                                    assert(all@[local_ids@.len() + m] == x);
                                }
                                assert(all@.contains(x));
                            }
                        }
                    }
                    assert forall|m: int| 0 <= m < ordered@.len() implies ordered@[m] < items@.len() by {
                        assert(ordered@.contains(ordered@[m]));
                    }
                    proof {
                        // a local and an inherited index are distinct members
                        assert(all@.contains(all@[0]));
                        assert(all@.contains(all@[all@.len() - 1]));
                        assert(ordered@.contains(all@[0]));
                        assert(ordered@.contains(all@[all@.len() - 1]));
                        assert(items@[all@[0] as int].origin.layer == Layer::Local);
                        assert(items@[all@[all@.len() - 1] as int].origin.layer == Layer::Inherited);
                        if ordered@.len() < 2 {
                            let a = choose|m: int| 0 <= m < ordered@.len() && ordered@[m] == all@[0];
                            let b = choose|m: int| 0 <= m < ordered@.len() && ordered@[m] == all@[all@.len() - 1];
                            assert(a == b);
                        }
                    }
                    let (artifacts, paths) = keys_and_paths(items, &ordered);
                    let display = &items[ordered[0]].key.canonical_id;
                    let mut message = owned("canonical id ");
                    push_str(&mut message, display.as_str());
                    push_str(&mut message, " occurs in both local and inherited corpora");
                    let finding = CompositionFinding {
                        code: owned(FINDING_CANONICAL_COLLISION),
                        message,
                        reason: None,
                        artifacts,
                        paths,
                    };
                    proof {
                        assert(ordered@.contains(ordered@[0]));
                        assert(finding_fold(finding) == f@);
                        assert(fold_positions(items@, f@, ordered@));
                        assert(is_collision_finding(items@, f@, finding));
                        assert(f@ == folds@[local@[i as int] as int]@);
                        assert(folds@[local@[i as int] as int]@ == fold(items@[local@[i as int] as int].key.canonical_id@));
                        assert(collides(items@, f@, overrides@));
                        // no earlier finding has this fold
                        assert forall|k: int| 0 <= k < before.len() implies finding_fold(#[trigger] before[k]) != f@ by {
                            let jj = choose|jj: int| 0 <= jj < i && folds@[#[trigger] local@[jj] as int]@ == finding_fold(before[k]);
                            if finding_fold(before[k]) == f@ {
                                assert(folds@[local@[jj] as int]@ == f@);
                            }
                        }
                    }
                    out.push(finding);
                    proof {
                        assert(out@ =~= before.push(finding));
                        assert(out@[before.len() as int] == finding);
                    }
                }
            }
        }
        proof {
            assert forall|k: int| 0 <= k < out@.len() implies (exists|j: int| 0 <= j < i + 1 && folds@[#[trigger] local@[j] as int]@ == finding_fold(#[trigger] out@[k])) by {
                if k < before.len() {
                    assert(out@[k] == before[k]);
                    let jj = choose|jj: int| 0 <= jj < i && folds@[#[trigger] local@[jj] as int]@ == finding_fold(before[k]);
                    assert(folds@[local@[jj] as int]@ == finding_fold(out@[k]));
                } else {
                    assert(folds@[local@[i as int] as int]@ == finding_fold(out@[k]));
                }
            }
            assert forall|jx: int| 0 <= jx < i + 1 && collides(items@, folds@[#[trigger] local@[jx] as int]@, overrides@)
                implies exists|k: int| 0 <= k < out@.len() && finding_fold(#[trigger] out@[k]) == folds@[local@[jx] as int]@ by {
                if jx < i {
                    let k = choose|k: int| 0 <= k < before.len() && finding_fold(#[trigger] before[k]) == folds@[local@[jx] as int]@;
                    assert(out@[k] == before[k]);
                } else if seen {
                    let m = choose|m: int| 0 <= m < i && folds@[#[trigger] local@[m] as int]@ == f@;
                    let k = choose|k: int| 0 <= k < before.len() && finding_fold(#[trigger] before[k]) == folds@[local@[m] as int]@;
                    assert(out@[k] == before[k]);
                } else {
                    assert(out@[before.len() as int] == out@[out@.len() - 1]);
                }
            }
        }
        i += 1;
    }
    proof {
        assert forall|ix: int| 0 <= ix < local@.len() && collides(items@, fold(items@[#[trigger] local@[ix] as int].key.canonical_id@), overrides@)
            implies exists|k: int| 0 <= k < out@.len() && finding_fold(#[trigger] out@[k]) == fold(items@[local@[ix] as int].key.canonical_id@) by {
            assert(folds@[local@[ix] as int]@ == fold(items@[local@[ix] as int].key.canonical_id@));
        }
    }
    out
}

/// Two-digit rank of a reason in declaration order.
pub open spec fn reason_rank_word(r: InvalidOverrideReason) -> Seq<char> {
    match r {
        InvalidOverrideReason::ParentAliasMismatch => "00"@,
        InvalidOverrideReason::DuplicateParent => "01"@,
        InvalidOverrideReason::ParentNotFound => "02"@,
        InvalidOverrideReason::ParentAmbiguous => "03"@,
        InvalidOverrideReason::ReplacementNotFound => "04"@,
        InvalidOverrideReason::ReplacementAmbiguous => "05"@,
        InvalidOverrideReason::ReplacementNotLocal => "06"@,
        InvalidOverrideReason::Chained => "07"@,
        InvalidOverrideReason::TypeMismatch => "08"@,
        InvalidOverrideReason::RationaleNotFound => "09"@,
        InvalidOverrideReason::RationaleAmbiguous => "10"@,
        InvalidOverrideReason::RationaleNotLocal => "11"@,
        InvalidOverrideReason::RationaleNotDecision => "12"@,
        InvalidOverrideReason::RationaleNotLive => "13"@,
    }
}

/// Two-digit rank of a reason in declaration order.
fn reason_rank(r: InvalidOverrideReason) -> (s: &'static str)
    ensures
        s@ == reason_rank_word(r),
{
    match r {
        InvalidOverrideReason::ParentAliasMismatch => "00",
        InvalidOverrideReason::DuplicateParent => "01",
        InvalidOverrideReason::ParentNotFound => "02",
        InvalidOverrideReason::ParentAmbiguous => "03",
        InvalidOverrideReason::ReplacementNotFound => "04",
        InvalidOverrideReason::ReplacementAmbiguous => "05",
        InvalidOverrideReason::ReplacementNotLocal => "06",
        InvalidOverrideReason::Chained => "07",
        InvalidOverrideReason::TypeMismatch => "08",
        InvalidOverrideReason::RationaleNotFound => "09",
        InvalidOverrideReason::RationaleAmbiguous => "10",
        InvalidOverrideReason::RationaleNotLocal => "11",
        InvalidOverrideReason::RationaleNotDecision => "12",
        InvalidOverrideReason::RationaleNotLive => "13",
    }
}

/// Each path as a separator, its source and its relative path.
pub open spec fn path_parts(ps: Seq<ArtifactPath>, upto: int) -> Seq<Seq<char>>
    decreases upto,
{
    if upto <= 0 {
        Seq::empty()
    } else {
        path_parts(ps, upto - 1) + seq!["\u{1}"@, ps[upto - 1].source@, ps[upto - 1].relative_path@]
    }
}

/// Each key as a separator, its source and its canonical identifier.
pub open spec fn key_parts(ks: Seq<ArtifactKey>, upto: int) -> Seq<Seq<char>>
    decreases upto,
{
    if upto <= 0 {
        Seq::empty()
    } else {
        key_parts(ks, upto - 1) + seq!["\u{1}"@, ks[upto - 1].source@, ks[upto - 1].canonical_id@]
    }
}

/// The reason's part of a finding key: empty without a reason, otherwise a
/// separator and the reason's rank, so that findings without a reason come
/// first.
pub open spec fn reason_part(r: Option<InvalidOverrideReason>) -> Seq<char> {
    match r {
        None => ""@,
        Some(x) => "\u{1}"@ + reason_rank_word(x),
    }
}

/// The order key of a finding: code, then its paths, its artifacts (each
/// list ordered element-wise, a shorter prefix first), its reason and message.
pub open spec fn finding_sort_key(f: CompositionFinding) -> Seq<Seq<char>> {
    seq![f.code@] + path_parts(f.paths@, f.paths@.len() as int) + seq![""@]
        + key_parts(f.artifacts@, f.artifacts@.len() as int) + seq![""@]
        + seq![reason_part(f.reason), f.message@]
}

/// The order key of a finding.
fn finding_key(f: &CompositionFinding) -> (r: Vec<String>)
    ensures
        strings_view(r@) == finding_sort_key(*f),
{
    let mut key: Vec<String> = Vec::new();
    key.push(owned(f.code.as_str()));
    assert(strings_view(key@) =~= seq![f.code@]);
    let mut i: usize = 0;
    while i < f.paths.len()
        invariant
            i <= f.paths@.len(),
            strings_view(key@) == seq![f.code@] + path_parts(f.paths@, i as int),
        decreases f.paths@.len() - i,
    {
        let ghost before = strings_view(key@);
        key.push(owned("\u{1}"));
        key.push(owned(f.paths[i].source.as_str()));
        key.push(owned(f.paths[i].relative_path.as_str()));
        assert(strings_view(key@) =~= before + seq!["\u{1}"@, f.paths@[i as int].source@, f.paths@[i as int].relative_path@]);
        i += 1;
        assert(strings_view(key@) =~= seq![f.code@] + path_parts(f.paths@, i as int));
    }
    let ghost b1 = strings_view(key@);
    key.push(owned(""));
    assert(strings_view(key@) =~= b1 + seq![""@]);
    let mut j: usize = 0;
    while j < f.artifacts.len()
        invariant
            j <= f.artifacts@.len(),
            strings_view(key@) == b1 + seq![""@] + key_parts(f.artifacts@, j as int),
        decreases f.artifacts@.len() - j,
    {
        let ghost before = strings_view(key@);
        key.push(owned("\u{1}"));
        key.push(owned(f.artifacts[j].source.as_str()));
        key.push(owned(f.artifacts[j].canonical_id.as_str()));
        assert(strings_view(key@) =~= before + seq!["\u{1}"@, f.artifacts@[j as int].source@, f.artifacts@[j as int].canonical_id@]);
        j += 1;
        assert(strings_view(key@) =~= b1 + seq![""@] + key_parts(f.artifacts@, j as int));
    }
    let ghost b2 = strings_view(key@);
    key.push(owned(""));
    match f.reason {
        None => key.push(owned("")),
        Some(r) => key.push(concat2("\u{1}", reason_rank(r))),
    }
    key.push(owned(f.message.as_str()));
    assert(strings_view(key@) =~= b2 + seq![""@] + seq![reason_part(f.reason), f.message@]);
    assert(strings_view(key@) =~= finding_sort_key(*f));
    key
}

/// Findings in their deterministic order: the same findings, ordered by
/// their keys.
fn sort_findings(findings: Vec<CompositionFinding>) -> (r: Vec<CompositionFinding>)
    ensures
        r@.len() == findings@.len(),
        r@.to_multiset() == findings@.to_multiset(),
        forall|i: int, j: int| 0 <= i < j < r@.len() ==> !keys_lt(finding_sort_key(#[trigger] r@[j]), finding_sort_key(#[trigger] r@[i])),
{
    broadcast use vstd::seq_lib::group_to_multiset_ensures;
    let ghost orig = findings@;
    let mut keyed: Vec<Keyed<CompositionFinding>> = Vec::new();
    let mut rest = findings;
    while rest.len() > 0
        invariant
            rest@.to_multiset().add(keyed_values(keyed@).to_multiset()) == orig.to_multiset(),
            forall|k: int| 0 <= k < keyed@.len() ==> (#[trigger] keyed@[k]).sort_key() == finding_sort_key(keyed@[k].value),
        decreases rest@.len(),
    {
        let ghost before_rest = rest@;
        let ghost before_keyed = keyed@;
        let f = rest.pop().unwrap();
        let key = finding_key(&f);
        keyed.push(Keyed { key, value: f });
        proof {
            assert(before_rest =~= rest@.push(f));
            assert(keyed_values(keyed@) =~= keyed_values(before_keyed).push(f));
            assert(rest@.to_multiset().add(keyed_values(keyed@).to_multiset()) =~= orig.to_multiset());
        }
    }
    let ghost pre = keyed@;
    proof {
        vstd::seq_lib::to_multiset_len(rest@);
        assert(rest@.to_multiset() =~= Multiset::empty());
        assert(keyed_values(pre).to_multiset() =~= orig.to_multiset());
    }
    let sorted = sort_by_key(keyed);
    proof {
        lemma_values_multiset(sorted@, pre);
        assert forall|k: int| 0 <= k < sorted@.len() implies (#[trigger] sorted@[k]).sort_key() == finding_sort_key(sorted@[k].value) by {
            assert(sorted@.contains(sorted@[k]));
            vstd::seq_lib::to_multiset_contains(sorted@, sorted@[k]);
            vstd::seq_lib::to_multiset_contains(pre, sorted@[k]);
            let m = choose|m: int| 0 <= m < pre.len() && pre[m] == sorted@[k];
        }
    }
    let r = unkey(sorted);
    proof {
        vstd::seq_lib::to_multiset_len(r@);
        vstd::seq_lib::to_multiset_len(orig);
        assert forall|i: int, j: int| 0 <= i < j < r@.len() implies !keys_lt(finding_sort_key(#[trigger] r@[j]), finding_sort_key(#[trigger] r@[i])) by {
            assert(r@[i] == sorted@[i].value && r@[j] == sorted@[j].value);
            assert(!keys_lt(sorted@[j].sort_key(), sorted@[i].sort_key()));
        }
    }
    r
}


/// Some validated mapping redirects the artifact with key `key`.
pub open spec fn overridden_key(overrides: Seq<ValidatedOverride>, key: (Seq<char>, Seq<char>)) -> bool {
    exists|k: int| 0 <= k < overrides.len() && (#[trigger] overrides[k]).parent@ == key
}

/// The one composed read model. `items` owns the catalog exactly once; local
/// and effective corpora are ordered projections over it.
pub struct ComposedCorpus {
    items: Vec<CorpusItem>,
    folds: Vec<String>,
    local: Vec<usize>,
    effective: Vec<usize>,
    parent: Option<ParentIdentity>,
    declarations: Vec<OverrideDeclaration>,
    overrides: Vec<ValidatedOverride>,
    findings: Vec<CompositionFinding>,
    captured_content: Vec<(ArtifactKey, Vec<u8>)>,
}

impl ComposedCorpus {
    /// Every item, in stable (artifact path, key) order.
    pub closed spec fn catalog_view(self) -> Seq<CorpusItem> {
        self.items@
    }

    /// Catalog positions of the local items.
    pub closed spec fn local_view(self) -> Seq<int> {
        idx_view(self.local@)
    }

    /// Catalog positions of the effective items.
    pub closed spec fn effective_view(self) -> Seq<int> {
        idx_view(self.effective@)
    }

    pub closed spec fn parent_spec(self) -> Option<ParentIdentity> {
        self.parent
    }

    /// The override declarations, in their sorted order.
    pub closed spec fn declarations_view(self) -> Seq<OverrideDeclaration> {
        self.declarations@
    }

    pub closed spec fn overrides_view(self) -> Seq<ValidatedOverride> {
        self.overrides@
    }

    pub closed spec fn findings_view(self) -> Seq<CompositionFinding> {
        self.findings@
    }

    pub closed spec fn content_view(self) -> Seq<(ArtifactKey, Vec<u8>)> {
        self.captured_content@
    }

    #[verifier::type_invariant]
    closed spec fn wf(self) -> bool {
        &&& folds_of(self.items@, self.folds@)
        &&& idx_view(self.local@) == layer_indices(self.items@, Layer::Local, self.items@.len() as int)
        &&& forall|k: int| 0 <= k < self.local@.len() ==> self.local@[k] < self.items@.len()
        &&& forall|k: int| 0 <= k < self.effective@.len() ==> self.effective@[k] < self.items@.len()
        &&& forall|a: int, b: int| 0 <= a < b < self.effective@.len() ==> self.effective@[a] < self.effective@[b]
        &&& forall|i: int| 0 <= i < self.items@.len() ==> (idx_view(self.effective@).contains(i)
            <==> !overridden_key(self.overrides@, self.items@[i].key@))
        &&& sorted_by_key(self.items@)
    }

    /// The structural facts every composition keeps.
    pub closed spec fn well_formed(self) -> bool {
        self.wf()
    }

    /// Compose a sorted catalog.
    fn build(
        items: Vec<CorpusItem>,
        parent: Option<ParentIdentity>,
        declarations: Vec<OverrideDeclaration>,
        captured: Vec<(ArtifactKey, Vec<u8>)>,
    ) -> (r: Self)
        requires
            sorted_by_key(items@),
        ensures
            r.catalog_view() == items@,
            r.parent_spec() == parent,
            r.declarations_view().to_multiset() == declarations@.to_multiset(),
            sorted_by_key(r.declarations_view()),
            composed_overrides(r.catalog_view(), r.declarations_view(), parent_view(parent), r.overrides_view()),
            rejected_findings(r.catalog_view(), r.declarations_view(), parent_view(parent), r.findings_view()),
            findings_exact(r.catalog_view(), r.declarations_view(), parent_view(parent), r.overrides_view(), r.findings_view()),
            forall|k: int| 0 <= k < r.content_view().len() ==> known_key(items@, (#[trigger] r.content_view()[k]).0),
            r.content_view() == captured@.filter(known_entry(items@)),
    {
        let folds = fold_all(&items);
        let local = layer_positions(&items, Layer::Local);
        let decls = sort_by_key(declarations);
        let ghost pv = parent_view(parent);
        let mut overrides: Vec<ValidatedOverride> = Vec::new();
        let mut invalid: Vec<CompositionFinding> = Vec::new();
        let mut i: usize = 0;
        while i < decls.len()
            invariant
                i <= decls@.len(),
                folds_of(items@, folds@),
                pv == parent_view(parent),
                overrides@.len() == accepted(items@, decls@, pv, i as int).len(),
                forall|k: int| 0 <= k < overrides@.len() ==> {
                    let a = #[trigger] accepted(items@, decls@, pv, i as int)[k];
                    override_is(items@, overrides@[k], decls@[a.0], a.1)
                },
                invalid@.len() == rejected(items@, decls@, pv, i as int).len(),
                forall|k: int| 0 <= k < invalid@.len() ==> {
                    let e = #[trigger] rejected(items@, decls@, pv, i as int)[k];
                    finding_for(invalid@[k], decls@[e.0], e.1) && is_invalid_finding(items@, decls@[e.0], e.1, e.2, invalid@[k])
                },
            decreases decls@.len() - i,
        {
            let d = &decls[i];
            match validate_override(d, &parent, &items, &folds, &decls) {
                Ok((p, q, s)) => {
                    overrides.push(ValidatedOverride {
                        declaration: d.dup(),
                        parent: items[p].key.dup(),
                        replacement: items[q].key.dup(),
                        rationale: items[s].key.dup(),
                    });
                },
                Err((reason, ids)) => {
                    invalid.push(invalid_override_finding(d, reason, &items, &ids));
                },
            }
            i += 1;
        }
        let collisions = collision_findings(&items, &folds, &local, &overrides);
        let mut all = invalid;
        let ghost n_invalid = all@.len();
        let mut c: usize = 0;
        while c < collisions.len()
            invariant
                c <= collisions@.len(),
                all@.len() == n_invalid + c,
                n_invalid == invalid@.len(),
                forall|k: int| 0 <= k < n_invalid ==> all@[k] == invalid@[k],
                forall|k: int| 0 <= k < c ==> same_finding(all@[n_invalid + k], #[trigger] collisions@[k]),
            decreases collisions@.len() - c,
        {
            all.push(collisions[c].clone_finding());
            c += 1;
        }
        let findings = sort_findings(all);
        proof {
            let inv = all@.take(n_invalid as int);
            let col = all@.skip(n_invalid as int);
            let rej = rejected(items@, decls@, pv, decls@.len() as int);
            assert(all@ =~= inv + col);
            assert forall|k: int| 0 <= k < col.len() implies (#[trigger] col[k]).code@ == FINDING_CANONICAL_COLLISION@
                && col[k].reason.is_none() && col[k].artifacts@.len() >= 2 && col[k].artifacts@.len() == col[k].paths@.len()
                && collides(items@, finding_fold(col[k]), overrides@)
                && is_collision_finding(items@, finding_fold(col[k]), col[k]) by {
                assert(col[k] == all@[n_invalid + k]);
                assert(finding_fold(col[k]) == finding_fold(collisions@[k]));
                let f = finding_fold(col[k]);
                let ps = choose|ps: Seq<usize>| #[trigger] fold_positions(items@, f, ps) && {
                    &&& ps.len() > 0
                    &&& collisions@[k].code@ == FINDING_CANONICAL_COLLISION@
                    &&& collisions@[k].reason.is_none()
                    &&& collisions@[k].artifacts@.len() == ps.len()
                    &&& collisions@[k].paths@.len() == ps.len()
                    &&& forall|j: int| 0 <= j < ps.len() ==> collisions@[k].artifacts@[j] == items@[ps[j] as int].key
                        && collisions@[k].paths@[j] == items@[ps[j] as int].artifact_path
                    &&& collisions@[k].message@ == collision_message(items@[ps[0] as int].key.canonical_id@)
                };
                assert(fold_positions(items@, f, ps));
            }
            assert forall|m: int| 0 <= m < layer_indices(items@, Layer::Local, items@.len() as int).len()
                && collides(items@, fold(items@[#[trigger] layer_indices(items@, Layer::Local, items@.len() as int)[m]].key.canonical_id@), overrides@)
                implies exists|k: int| 0 <= k < col.len() && finding_fold(#[trigger] col[k])
                    == fold(items@[layer_indices(items@, Layer::Local, items@.len() as int)[m]].key.canonical_id@) by {
                assert(idx_view(local@)[m] == local@[m] as int);
                let k = choose|k: int| 0 <= k < collisions@.len() && finding_fold(#[trigger] collisions@[k]) == fold(items@[local@[m] as int].key.canonical_id@);
                assert(col[k] == all@[n_invalid + k]);
                assert(finding_fold(col[k]) == finding_fold(collisions@[k]));
            }
            assert forall|k1: int, k2: int| 0 <= k1 < k2 < col.len() implies finding_fold(#[trigger] col[k1]) != finding_fold(#[trigger] col[k2]) by {
                assert(col[k1] == all@[n_invalid + k1]);
                assert(col[k2] == all@[n_invalid + k2]);
                assert(finding_fold(col[k1]) == finding_fold(collisions@[k1]));
                assert(finding_fold(col[k2]) == finding_fold(collisions@[k2]));
            }
            assert forall|k: int| 0 <= k < inv.len() implies is_invalid_finding(items@, decls@[(#[trigger] rej[k]).0], rej[k].1, rej[k].2, inv[k]) by {
                assert(inv[k] == invalid@[k]);
            }
            assert(collision_set(items@, overrides@, col));
            assert(findings_composed(items@, decls@, pv, overrides@, findings@, inv, col));
        }
        proof {
            let rej = rejected(items@, decls@, pv, decls@.len() as int);
            assert forall|k: int| 0 <= k < rej.len() implies reported(findings@, decls@, #[trigger] rej[k]) by {
                assert(all@[k] == invalid@[k]);
                assert(all@.contains(all@[k]));
                vstd::seq_lib::to_multiset_contains(all@, all@[k]);
                vstd::seq_lib::to_multiset_contains(findings@, all@[k]);
                assert(findings@.contains(all@[k]));
                let m = choose|m: int| 0 <= m < findings@.len() && findings@[m] == all@[k];
                assert(finding_for(findings@[m], decls@[rej[k].0], rej[k].1));
            }
        }
        // effective: every item whose key no validated mapping redirects
        let mut effective: Vec<usize> = Vec::new();
        let mut e: usize = 0;
        while e < items.len()
            invariant
                e <= items@.len(),
                forall|k: int| 0 <= k < effective@.len() ==> effective@[k] < e,
                forall|a: int, b: int| 0 <= a < b < effective@.len() ==> effective@[a] < effective@[b],
                forall|j: int| 0 <= j < e ==> (idx_view(effective@).contains(j) <==> !overridden_key(overrides@, items@[j].key@)),
            decreases items@.len() - e,
        {
            let mut hit = false;
            let mut k: usize = 0;
            while k < overrides.len()
                invariant
                    k <= overrides@.len(),
                    e < items@.len(),
                    hit == exists|m: int| 0 <= m < k && (#[trigger] overrides@[m]).parent@ == items@[e as int].key@,
                decreases overrides@.len() - k,
            {
                if overrides[k].parent.same(&items[e].key) {
                    hit = true;
                }
                k += 1;
            }
            let ghost before = effective@;
            if !hit {
                effective.push(e);
            }
            proof {
                assert forall|j: int| 0 <= j < e + 1 implies (idx_view(effective@).contains(j) <==> !overridden_key(overrides@, items@[j].key@)) by {
                    if j < e {
                        if idx_view(before).contains(j) {
                            let m = choose|m: int| 0 <= m < idx_view(before).len() && idx_view(before)[m] == j;
                            assert(idx_view(effective@)[m] == j);
                        }
                        if idx_view(effective@).contains(j) {
                            let m = choose|m: int| 0 <= m < idx_view(effective@).len() && idx_view(effective@)[m] == j;
                            assert(m < before.len());
                            assert(idx_view(before)[m] == j);
                        }
                    } else {
                        if !hit {
                            assert(idx_view(effective@)[effective@.len() - 1] == j);
                        } else {
                            if idx_view(effective@).contains(j) {
                                let m = choose|m: int| 0 <= m < idx_view(effective@).len() && idx_view(effective@)[m] == j;
                                assert(effective@[m] < e);
                            }
                        }
                    }
                }
            }
            e += 1;
        }
        let content = retain_known(captured, &items);
        ComposedCorpus {
            items,
            folds,
            local,
            effective,
            parent,
            declarations: decls,
            overrides,
            findings,
            captured_content: content,
        }
    }
}

impl CompositionFinding {
    /// An exact copy.
    pub fn clone_finding(&self) -> (r: Self)
        ensures
            r.code == self.code,
            r.message == self.message,
            r.reason == self.reason,
            r.artifacts@ == self.artifacts@,
            r.paths@ == self.paths@,
    {
        CompositionFinding {
            code: self.code.clone(),
            message: self.message.clone(),
            reason: self.reason,
            artifacts: copy_keys(&self.artifacts),
            paths: copy_paths(&self.paths),
        }
    }
}

/// The finding reports declaration `d` as invalid for `reason`.
pub open spec fn finding_for(f: CompositionFinding, d: OverrideDeclaration, reason: InvalidOverrideReason) -> bool {
    &&& f.code@ == FINDING_INVALID_OVERRIDE@
    &&& f.reason == Some(reason)
    &&& f.message@ == override_message(d@, reason)
}

/// Two findings with equal fields.
pub open spec fn same_finding(a: CompositionFinding, b: CompositionFinding) -> bool {
    a.code@ == b.code@ && a.message@ == b.message@ && a.reason == b.reason && a.artifacts@ == b.artifacts@ && a.paths@ == b.paths@
}

/// `col` holds one collision finding for each colliding fold of a local
/// artifact, and nothing else.
pub open spec fn collision_set(items: Seq<CorpusItem>, overrides: Seq<ValidatedOverride>, col: Seq<CompositionFinding>) -> bool {
    let local = layer_indices(items, Layer::Local, items.len() as int);
    &&& forall|k: int| 0 <= k < col.len() ==> (#[trigger] col[k]).code@ == FINDING_CANONICAL_COLLISION@
        && col[k].reason.is_none() && col[k].artifacts@.len() >= 2 && col[k].artifacts@.len() == col[k].paths@.len()
        && collides(items, finding_fold(col[k]), overrides)
        && is_collision_finding(items, finding_fold(col[k]), col[k])
    &&& forall|m: int| 0 <= m < local.len() && collides(items, fold(items[#[trigger] local[m]].key.canonical_id@), overrides)
        ==> exists|k: int| 0 <= k < col.len() && finding_fold(#[trigger] col[k]) == fold(items[local[m]].key.canonical_id@)
    &&& forall|k1: int, k2: int| 0 <= k1 < k2 < col.len() ==> finding_fold(#[trigger] col[k1]) != finding_fold(#[trigger] col[k2])
}

/// `findings` are the refused-declaration findings `inv` (one per refused
/// declaration, in declaration order) and the collision findings `col`,
/// together, ordered by their keys.
pub open spec fn findings_composed(items: Seq<CorpusItem>, decls: Seq<OverrideDeclaration>, parent: Option<(Seq<char>, Seq<char>)>,
    overrides: Seq<ValidatedOverride>, findings: Seq<CompositionFinding>, inv: Seq<CompositionFinding>, col: Seq<CompositionFinding>) -> bool
{
    let rej = rejected(items, decls, parent, decls.len() as int);
    &&& findings.to_multiset() == (inv + col).to_multiset()
    &&& inv.len() == rej.len()
    &&& forall|k: int| 0 <= k < inv.len() ==> is_invalid_finding(items, decls[(#[trigger] rej[k]).0], rej[k].1, rej[k].2, inv[k])
    &&& collision_set(items, overrides, col)
    &&& forall|i: int, j: int| 0 <= i < j < findings.len() ==> !keys_lt(finding_sort_key(#[trigger] findings[j]), finding_sort_key(#[trigger] findings[i]))
}

/// The findings of a composition are exactly its refused-declaration
/// findings and its collision findings, ordered by their keys.
pub open spec fn findings_exact(items: Seq<CorpusItem>, decls: Seq<OverrideDeclaration>, parent: Option<(Seq<char>, Seq<char>)>,
    overrides: Seq<ValidatedOverride>, findings: Seq<CompositionFinding>) -> bool
{
    exists|inv: Seq<CompositionFinding>, col: Seq<CompositionFinding>| #[trigger] findings_composed(items, decls, parent, overrides, findings, inv, col)
}

/// The overrides are exactly the valid declarations, in order, with their endpoints.
pub open spec fn composed_overrides(items: Seq<CorpusItem>, decls: Seq<OverrideDeclaration>, parent: Option<(Seq<char>, Seq<char>)>, overrides: Seq<ValidatedOverride>) -> bool {
    let acc = accepted(items, decls, parent, decls.len() as int);
    &&& overrides.len() == acc.len()
    &&& forall|k: int| 0 <= k < overrides.len() ==> override_is(items, overrides[k], decls[(#[trigger] acc[k]).0], acc[k].1)
}

/// Every invalid declaration is reported with its reason.
pub open spec fn rejected_findings(items: Seq<CorpusItem>, decls: Seq<OverrideDeclaration>, parent: Option<(Seq<char>, Seq<char>)>, findings: Seq<CompositionFinding>) -> bool {
    let rej = rejected(items, decls, parent, decls.len() as int);
    forall|k: int| 0 <= k < rej.len() ==> reported(findings, decls, #[trigger] rej[k])
}

/// Some finding reports the rejected declaration `e`.
pub open spec fn reported(findings: Seq<CompositionFinding>, decls: Seq<OverrideDeclaration>, e: (int, InvalidOverrideReason, Seq<int>)) -> bool {
    exists|m: int| 0 <= m < findings.len() && finding_for(#[trigger] findings[m], decls[e.0], e.1)
}

/// `key` is the key of some item.
pub open spec fn known_key(items: Seq<CorpusItem>, key: ArtifactKey) -> bool {
    exists|i: int| 0 <= i < items.len() && key@ == (#[trigger] items[i]).key@
}

/// Whether a captured entry's key belongs to some item.
pub open spec fn known_entry(items: Seq<CorpusItem>) -> spec_fn((ArtifactKey, Vec<u8>)) -> bool {
    |e: (ArtifactKey, Vec<u8>)| known_key(items, e.0)
}

/// Captured contents whose key belongs to some item, in their order.
fn retain_known(captured: Vec<(ArtifactKey, Vec<u8>)>, items: &Vec<CorpusItem>) -> (r: Vec<(ArtifactKey, Vec<u8>)>)
    ensures
        r@ == captured@.filter(known_entry(items@)),
{
    let ghost orig = captured@;
    let ghost pred = known_entry(items@);
    let mut out: Vec<(ArtifactKey, Vec<u8>)> = Vec::new();
    let mut rest = captured;
    let ghost mut n: int = 0;
    assert(orig.take(0) =~= Seq::<(ArtifactKey, Vec<u8>)>::empty());
    assert(orig.subrange(0, orig.len() as int) =~= orig);
    while rest.len() > 0
        invariant
            0 <= n <= orig.len(),
            pred == known_entry(items@),
            rest@ == orig.subrange(n, orig.len() as int),
            out@ == orig.take(n).filter(pred),
        decreases rest@.len(),
    {
        let entry = rest.remove(0);
        let mut known = false;
        let mut i: usize = 0;
        while i < items.len()
            invariant
                i <= items@.len(),
                known == exists|m: int| 0 <= m < i && entry.0@ == (#[trigger] items@[m]).key@,
            decreases items@.len() - i,
        {
            if items[i].key.same(&entry.0) {
                known = true;
            }
            i += 1;
        }
        proof {
            assert(entry == orig[n]);
            assert(orig.take(n + 1) =~= orig.take(n).push(entry));
            orig.take(n).lemma_filter_push(entry, pred);
            assert(known == pred(entry));
        }
        if known {
            out.push(entry);
        }
        proof {
            n = n + 1;
            assert(rest@ =~= orig.subrange(n, orig.len() as int));
        }
    }
    proof {
        assert(n == orig.len());
        assert(orig.take(n) =~= orig);
    }
    out
}


/// Some identifier of the item folds to `rf`.
pub open spec fn answers_to(it: CorpusItem, rf: Seq<char>) -> bool {
    exists|m: int| 0 <= m < it.identifiers@.len() && fold((#[trigger] it.identifiers@[m])@) == rf
}

fn item_answers_to(it: &CorpusItem, rf: &String) -> (r: bool)
    ensures
        r == answers_to(*it, rf@),
{
    let mut m: usize = 0;
    while m < it.identifiers.len()
        invariant
            m <= it.identifiers@.len(),
            forall|j: int| 0 <= j < m ==> fold((#[trigger] it.identifiers@[j])@) != rf@,
        decreases it.identifiers@.len() - m,
    {
        if fold_case(it.identifiers[m].as_str()) == *rf {
            assert(fold(it.identifiers@[m as int]@) == rf@);
            return true;
        }
        m += 1;
    }
    false
}

impl ComposedCorpus {
    /// Item `i` answers the folded reference `rf`: an effective item by one of
    /// its identifiers, an inherited parent item by its qualified canonical
    /// id, or a local replacement by the canonical id it overrides.
    pub closed spec fn is_candidate(self, rf: Seq<char>, i: int) -> bool {
        ||| (idx_view(self.effective@).contains(i) && answers_to(self.items@[i], rf))
        ||| (self.parent matches Some(p) && self.items@[i].origin.layer == Layer::Inherited
            && self.items@[i].origin.source@ == p.source@
            && fold(p.alias@ + "::"@ + self.items@[i].key.canonical_id@) == rf)
        ||| (exists|k: int| 0 <= k < self.overrides@.len() && fold((#[trigger] self.overrides@[k]).parent.canonical_id@) == rf
            && self.overrides@[k].replacement@ == self.items@[i].key@)
    }

    /// Ascending catalog positions of the candidates among the first `upto`.
    pub closed spec fn candidates_upto(self, rf: Seq<char>, upto: int) -> Seq<int>
        decreases upto,
    {
        if upto <= 0 {
            Seq::empty()
        } else {
            let before = self.candidates_upto(rf, upto - 1);
            if self.is_candidate(rf, upto - 1) { before.push(upto - 1) } else { before }
        }
    }

    /// Every catalog position answering the folded reference `rf`.
    pub open spec fn candidates(self, rf: Seq<char>) -> Seq<int> {
        self.candidates_upto(rf, self.catalog_view().len() as int)
    }

    /// Why a qualified reference is refused before lookup, if it is.
    pub open spec fn qualified_error(self, reference: Seq<char>) -> Option<LookupErrorKind> {
        match split_dcolon(reference) {
            None => Some(LookupErrorKind::InvalidQualifiedReference),
            Some((alias, canonical)) => if canonical.len() == 0 || contains_seq(canonical, "::"@) {
                Some(LookupErrorKind::InvalidQualifiedReference)
            } else {
                match self.parent_spec() {
                    None => Some(LookupErrorKind::NotFound),
                    Some(p) => parent_qualified_error(self.catalog_view(), p, alias, canonical),
                }
            },
        }
    }

    fn candidate_positions(&self, rf: &String) -> (r: Vec<usize>)
        ensures
            idx_view(r@) == self.candidates(rf@),
            forall|k: int| 0 <= k < r@.len() ==> r@[k] < self.catalog_view().len(),
    {
        proof {
            use_type_invariant(self);
        }
        let mut r: Vec<usize> = Vec::new();
        let mut i: usize = 0;
        while i < self.items.len()
            invariant
                i <= self.items@.len(),
                idx_view(r@) == self.candidates_upto(rf@, i as int),
                forall|k: int| 0 <= k < r@.len() ==> r@[k] < self.items@.len(),
            decreases self.items@.len() - i,
        {
            let it = &self.items[i];
            let mut hit = false;
            // effective identifiers
            let mut e: usize = 0;
            let mut is_effective = false;
            while e < self.effective.len()
                invariant
                    e <= self.effective@.len(),
                    is_effective == exists|m: int| 0 <= m < e && self.effective@[m] == i,
                decreases self.effective@.len() - e,
            {
                if self.effective[e] == i {
                    is_effective = true;
                }
                e += 1;
            }
            proof {
                if is_effective {
                    let m = choose|m: int| 0 <= m < e && self.effective@[m] == i;
                    assert(idx_view(self.effective@)[m] == i as int);
                }
                if idx_view(self.effective@).contains(i as int) {
                    let m = choose|m: int| 0 <= m < idx_view(self.effective@).len() && idx_view(self.effective@)[m] == i as int;
                    assert(self.effective@[m] == i);
                }
            }
            if is_effective && item_answers_to(it, rf) {
                hit = true;
            }
            // qualified parent history
            match &self.parent {
                Some(p) => {
                    if it.origin.layer == Layer::Inherited && it.origin.source == p.source {
                        let q = concat3(p.alias.as_str(), "::", it.key.canonical_id.as_str());
                        if fold_case(q.as_str()) == *rf {
                            hit = true;
                        }
                    }
                },
                None => {},
            }
            // canonical redirects
            let mut k: usize = 0;
            let mut redirected = false;
            while k < self.overrides.len()
                invariant
                    k <= self.overrides@.len(),
                    i < self.items@.len(),
                    *it == self.items@[i as int],
                    redirected == exists|m: int| 0 <= m < k && fold((#[trigger] self.overrides@[m]).parent.canonical_id@) == rf@
                        && self.overrides@[m].replacement@ == self.items@[i as int].key@,
                decreases self.overrides@.len() - k,
            {
                if fold_case(self.overrides[k].parent.canonical_id.as_str()) == *rf
                    && self.overrides[k].replacement.same(&it.key) {
                    redirected = true;
                }
                k += 1;
            }
            if redirected {
                hit = true;
            }
            assert(hit == self.is_candidate(rf@, i as int));
            if hit {
                r.push(i);
                assert(idx_view(r@) =~= self.candidates_upto(rf@, i as int).push(i as int));
            }
            i += 1;
        }
        r
    }
}

/// Kinds of lookup failure, without payload.
#[derive(Debug, Clone, Copy, PartialEq, Eq, Structural)]
pub enum LookupErrorKind {
    NotFound,
    Ambiguous,
    InvalidQualifiedReference,
    QualifiedCanonicalRequired,
}

pub open spec fn error_kind(e: LookupError) -> LookupErrorKind {
    match e {
        LookupError::NotFound => LookupErrorKind::NotFound,
        LookupError::Ambiguous(_) => LookupErrorKind::Ambiguous,
        LookupError::InvalidQualifiedReference => LookupErrorKind::InvalidQualifiedReference,
        LookupError::QualifiedCanonicalRequired => LookupErrorKind::QualifiedCanonicalRequired,
    }
}

/// The qualified-lookup gate once the parent is known.
pub open spec fn parent_qualified_error(items: Seq<CorpusItem>, p: ParentIdentity, alias: Seq<char>, canonical: Seq<char>) -> Option<LookupErrorKind> {
    if alias != p.alias@ {
        Some(LookupErrorKind::NotFound)
    } else if has_parent_canonical(items, p.source@, fold(canonical)) {
        None
    } else if has_parent_alias(items, p.source@, fold(canonical)) {
        Some(LookupErrorKind::QualifiedCanonicalRequired)
    } else {
        Some(LookupErrorKind::NotFound)
    }
}

pub open spec fn has_parent_canonical(items: Seq<CorpusItem>, source: Seq<char>, f: Seq<char>) -> bool {
    exists|i: int| 0 <= i < items.len() && parent_item(#[trigger] items[i], source) && fold(items[i].key.canonical_id@) == f
}

pub open spec fn has_parent_alias(items: Seq<CorpusItem>, source: Seq<char>, f: Seq<char>) -> bool {
    exists|i: int| 0 <= i < items.len() && parent_item(#[trigger] items[i], source) && answers_to(items[i], f)
}

/// An inherited item of the parent source.
pub open spec fn parent_item(it: CorpusItem, source: Seq<char>) -> bool {
    it.origin.layer == Layer::Inherited && it.origin.source@ == source
}


impl ComposedCorpus {
    /// A local-only composition.
    pub fn local(items: Vec<CorpusItem>) -> (r: Self)
        ensures
            r.well_formed(),
            r.catalog_view().to_multiset() == items@.to_multiset(),
            sorted_by_key(r.catalog_view()),
            forall|k: Seq<Seq<char>>| #[trigger] key_filter(r.catalog_view(), k) == key_filter(items@, k),
            r.parent_spec().is_none(),
            r.overrides_view().len() == 0,
            r.declarations_view().len() == 0,
            findings_exact(r.catalog_view(), r.declarations_view(), None, r.overrides_view(), r.findings_view()),
    {
        let sorted = sort_by_key(items);
        let none: Vec<OverrideDeclaration> = Vec::new();
        let r = Self::build(sorted, None, none, Vec::new());
        proof {
            assert(none@.to_multiset().len() == 0);
            assert(r.declarations_view().to_multiset().len() == 0);
            assert(r.declarations_view().len() == 0);
            use_type_invariant(&r);
        }
        r
    }

    /// Compose one writable child with one already-verified read-only parent.
    pub fn compose(local: Vec<CorpusItem>, inherited: Vec<CorpusItem>, parent: ParentIdentity, overrides: Vec<OverrideDeclaration>) -> (r: Self)
        ensures
            r.well_formed(),
            r.catalog_view().to_multiset() == (local@ + inherited@).to_multiset(),
            sorted_by_key(r.catalog_view()),
            forall|k: Seq<Seq<char>>| #[trigger] key_filter(r.catalog_view(), k) == key_filter(local@ + inherited@, k),
            r.parent_spec() == Some(parent),
            r.declarations_view().to_multiset() == overrides@.to_multiset(),
            composed_overrides(r.catalog_view(), r.declarations_view(), parent_view(Some(parent)), r.overrides_view()),
            rejected_findings(r.catalog_view(), r.declarations_view(), parent_view(Some(parent)), r.findings_view()),
            findings_exact(r.catalog_view(), r.declarations_view(), parent_view(Some(parent)), r.overrides_view(), r.findings_view()),
    {
        Self::compose_with_content(local, inherited, parent, overrides, Vec::new())
    }

    /// Compose from verification-time snapshots whose captured bytes the
    /// read model owns and serves by stable key.
    pub fn compose_with_content(
        local: Vec<CorpusItem>,
        inherited: Vec<CorpusItem>,
        parent: ParentIdentity,
        overrides: Vec<OverrideDeclaration>,
        captured_content: Vec<(ArtifactKey, Vec<u8>)>,
    ) -> (r: Self)
        ensures
            r.well_formed(),
            r.catalog_view().to_multiset() == (local@ + inherited@).to_multiset(),
            sorted_by_key(r.catalog_view()),
            forall|k: Seq<Seq<char>>| #[trigger] key_filter(r.catalog_view(), k) == key_filter(local@ + inherited@, k),
            r.parent_spec() == Some(parent),
            r.declarations_view().to_multiset() == overrides@.to_multiset(),
            composed_overrides(r.catalog_view(), r.declarations_view(), parent_view(Some(parent)), r.overrides_view()),
            rejected_findings(r.catalog_view(), r.declarations_view(), parent_view(Some(parent)), r.findings_view()),
            findings_exact(r.catalog_view(), r.declarations_view(), parent_view(Some(parent)), r.overrides_view(), r.findings_view()),
            forall|k: int| 0 <= k < r.content_view().len() ==> known_key(r.catalog_view(), (#[trigger] r.content_view()[k]).0),
            r.content_view() == captured_content@.filter(known_entry(r.catalog_view())),
    {
        let mut all = local;
        let mut other = inherited;
        all.append(&mut other);
        let sorted = sort_by_key(all);
        let r = Self::build(sorted, Some(parent), overrides, captured_content);
        proof {
            use_type_invariant(&r);
        }
        r
    }

    /// The local items, in catalog order.
    pub fn local_items(&self) -> (r: Vec<&CorpusItem>)
        ensures
            r@.len() == self.local_view().len(),
            forall|k: int| 0 <= k < r@.len() ==> *r@[k] == self.catalog_view()[self.local_view()[k]],
    {
        proof {
            use_type_invariant(self);
        }
        self.project(&self.local)
    }

    /// The effective items (the catalog minus overridden parents), in order.
    pub fn effective(&self) -> (r: Vec<&CorpusItem>)
        ensures
            r@.len() == self.effective_view().len(),
            forall|k: int| 0 <= k < r@.len() ==> *r@[k] == self.catalog_view()[self.effective_view()[k]],
    {
        proof {
            use_type_invariant(self);
        }
        self.project(&self.effective)
    }

    fn project(&self, ids: &Vec<usize>) -> (r: Vec<&CorpusItem>)
        requires
            forall|k: int| 0 <= k < ids@.len() ==> ids@[k] < self.items@.len(),
        ensures
            r@.len() == ids@.len(),
            forall|k: int| 0 <= k < r@.len() ==> *r@[k] == self.items@[ids@[k] as int],
    {
        let mut r: Vec<&CorpusItem> = Vec::new();
        let mut i: usize = 0;
        while i < ids.len()
            invariant
                i <= ids@.len(),
                forall|k: int| 0 <= k < ids@.len() ==> ids@[k] < self.items@.len(),
                r@.len() == i,
                forall|k: int| 0 <= k < i ==> *r@[k] == self.items@[ids@[k] as int],
            decreases ids@.len() - i,
        {
            r.push(&self.items[ids[i]]);
            i += 1;
        }
        r
    }

    /// Every item, in catalog order.
    pub fn catalog(&self) -> (r: &Vec<CorpusItem>)
        ensures
            r@ == self.catalog_view(),
    {
        &self.items
    }

    pub fn parent(&self) -> (r: Option<&ParentIdentity>)
        ensures
            match r {
                Some(p) => self.parent_spec() == Some(*p),
                None => self.parent_spec().is_none(),
            },
    {
        match &self.parent {
            Some(p) => Some(p),
            None => None,
        }
    }

    pub fn overrides(&self) -> (r: &Vec<ValidatedOverride>)
        ensures
            r@ == self.overrides_view(),
    {
        &self.overrides
    }

    pub fn findings(&self) -> (r: &Vec<CompositionFinding>)
        ensures
            r@ == self.findings_view(),
    {
        &self.findings
    }

    /// Whether a validated mapping redirects `key`.
    pub fn is_overridden(&self, key: &ArtifactKey) -> (r: bool)
        ensures
            r == overridden_key(self.overrides_view(), key@),
    {
        let mut k: usize = 0;
        while k < self.overrides.len()
            invariant
                k <= self.overrides@.len(),
                forall|j: int| 0 <= j < k ==> (#[trigger] self.overrides@[j]).parent@ != key@,
            decreases self.overrides@.len() - k,
        {
            if self.overrides[k].parent.same(key) {
                return true;
            }
            k += 1;
        }
        false
    }

    /// The item with this key (the last one, were keys repeated).
    pub fn item(&self, key: &ArtifactKey) -> (r: Option<&CorpusItem>)
        ensures
            match r {
                Some(it) => exists|i: int| 0 <= i < self.catalog_view().len() && *it == self.catalog_view()[i]
                    && (#[trigger] self.catalog_view()[i]).key@ == key@,
                None => forall|i: int| 0 <= i < self.catalog_view().len() ==> (#[trigger] self.catalog_view()[i]).key@ != key@,
            },
    {
        let mut found: Option<usize> = None;
        let mut i: usize = 0;
        while i < self.items.len()
            invariant
                i <= self.items@.len(),
                match found {
                    Some(j) => j < self.items@.len() && self.items@[j as int].key@ == key@,
                    None => forall|m: int| 0 <= m < i ==> (#[trigger] self.items@[m]).key@ != key@,
                },
            decreases self.items@.len() - i,
        {
            if self.items[i].key.same(key) {
                found = Some(i);
            }
            i += 1;
        }
        match found {
            Some(j) => Some(&self.items[j]),
            None => None,
        }
    }

    /// Exact verification-time bytes of an artifact, when captured.
    pub fn content(&self, key: &ArtifactKey) -> (r: Option<&Vec<u8>>)
        ensures
            match r {
                Some(b) => exists|k: int| 0 <= k < self.content_view().len() && (#[trigger] self.content_view()[k]).0@ == key@
                    && self.content_view()[k].1 == *b
                    && forall|m: int| k < m < self.content_view().len() ==> (#[trigger] self.content_view()[m]).0@ != key@,
                None => forall|k: int| 0 <= k < self.content_view().len() ==> (#[trigger] self.content_view()[k]).0@ != key@,
            },
    {
        let mut found: Option<usize> = None;
        let mut i: usize = 0;
        while i < self.captured_content.len()
            invariant
                i <= self.captured_content@.len(),
                match found {
                    Some(j) => j < i && self.captured_content@[j as int].0@ == key@
                        && forall|m: int| j < m < i ==> (#[trigger] self.captured_content@[m]).0@ != key@,
                    None => forall|m: int| 0 <= m < i ==> (#[trigger] self.captured_content@[m]).0@ != key@,
                },
            decreases self.captured_content@.len() - i,
        {
            if self.captured_content[i].0.same(key) {
                found = Some(i);
            }
            i += 1;
        }
        match found {
            Some(j) => {
                assert(self.content_view()[j as int].0@ == key@);
                Some(&self.captured_content[j].1)
            },
            None => None,
        }
    }

    /// Check a qualified reference against the retained parent catalog.
    fn validate_qualified_reference(&self, reference: &str) -> (r: Result<(), LookupError>)
        ensures
            match r {
                Ok(()) => self.qualified_error(reference@).is_none(),
                Err(e) => self.qualified_error(reference@) == Some(error_kind(e)) && !(e is Ambiguous),
            },
    {
        let (alias, canonical) = match split_once_dcolon(reference) {
            Some(parts) => parts,
            None => return Err(LookupError::InvalidQualifiedReference),
        };
        let cs = chars_of(canonical.as_str());
        if cs.len() == 0 || has_dcolon(canonical.as_str()) {
            return Err(LookupError::InvalidQualifiedReference);
        }
        let parent = match &self.parent {
            Some(p) => p,
            None => return Err(LookupError::NotFound),
        };
        if alias != parent.alias {
            return Err(LookupError::NotFound);
        }
        let canonical_fold = fold_case(canonical.as_str());
        let mut canonical_exists = false;
        let mut alias_exists = false;
        let mut i: usize = 0;
        while i < self.items.len()
            invariant
                i <= self.items@.len(),
                canonical_exists == exists|m: int| 0 <= m < i && parent_item(#[trigger] self.items@[m], parent.source@)
                    && fold(self.items@[m].key.canonical_id@) == canonical_fold@,
                alias_exists == exists|m: int| 0 <= m < i && parent_item(#[trigger] self.items@[m], parent.source@)
                    && answers_to(self.items@[m], canonical_fold@),
            decreases self.items@.len() - i,
        {
            let it = &self.items[i];
            if it.origin.layer == Layer::Inherited && it.origin.source == parent.source {
                if fold_case(it.key.canonical_id.as_str()) == canonical_fold {
                    canonical_exists = true;
                }
                if item_answers_to(it, &canonical_fold) {
                    alias_exists = true;
                }
            }
            i += 1;
        }
        if canonical_exists {
            Ok(())
        } else if alias_exists {
            Err(LookupError::QualifiedCanonicalRequired)
        } else {
            Err(LookupError::NotFound)
        }
    }

    /// Resolve against the effective unqualified view, or the retained parent
    /// catalog when the reference is explicitly qualified.
    pub fn resolve(&self, reference: &str) -> (r: Result<&CorpusItem, LookupError>)
        ensures
            contains_seq(reference@, "::"@) && self.qualified_error(reference@).is_some() ==> r is Err
                && error_kind(r->Err_0) == self.qualified_error(reference@).unwrap(),
            !(contains_seq(reference@, "::"@) && self.qualified_error(reference@).is_some()) ==> {
                let c = self.candidates(fold(reference@));
                &&& c.len() == 0 ==> r == Err::<&CorpusItem, LookupError>(LookupError::NotFound)
                &&& c.len() == 1 ==> r is Ok && *r->Ok_0 == self.catalog_view()[c[0]]
                &&& c.len() > 1 ==> r is Err && r->Err_0 is Ambiguous
                    && r->Err_0->Ambiguous_0@.len() == c.len()
                    && forall|k: int| 0 <= k < c.len() ==> (#[trigger] r->Err_0->Ambiguous_0@[k]) == self.catalog_view()[c[k]].key
            },
    {
        if has_dcolon(reference) {
            match self.validate_qualified_reference(reference) {
                Ok(()) => {},
                Err(e) => return Err(e),
            }
        }
        let rf = fold_case(reference);
        let c = self.candidate_positions(&rf);
        if c.len() == 0 {
            return Err(LookupError::NotFound);
        }
        if c.len() == 1 {
            return Ok(&self.items[c[0]]);
        }
        let mut keys: Vec<ArtifactKey> = Vec::new();
        let mut i: usize = 0;
        while i < c.len()
            invariant
                i <= c@.len(),
                forall|k: int| 0 <= k < c@.len() ==> c@[k] < self.items@.len(),
                keys@.len() == i,
                forall|k: int| 0 <= k < i ==> keys@[k] == self.items@[c@[k] as int].key,
            decreases c@.len() - i,
        {
            keys.push(self.items[c[i]].key.dup());
            i += 1;
        }
        Err(LookupError::Ambiguous(keys))
    }
}


impl ComposedCorpus {
    proof fn lemma_candidates_upto(self, rf: Seq<char>, j: int, upto: int)
        requires
            0 <= j < upto,
            self.is_candidate(rf, j),
        ensures
            self.candidates_upto(rf, upto).contains(j),
        decreases upto,
    {
        if j < upto - 1 {
            self.lemma_candidates_upto(rf, j, upto - 1);
            let before = self.candidates_upto(rf, upto - 1);
            let k = choose|k: int| 0 <= k < before.len() && before[k] == j;
            assert(self.candidates_upto(rf, upto)[k] == j);
        } else {
            let now = self.candidates_upto(rf, upto);
            assert(now[now.len() - 1] == j);
        }
    }
}

proof fn lemma_accepted_ok(items: Seq<CorpusItem>, decls: Seq<OverrideDeclaration>, parent: Option<(Seq<char>, Seq<char>)>, upto: int, k: int)
    requires
        0 <= upto <= decls.len(),
        0 <= k < accepted(items, decls, parent, upto).len(),
    ensures
        0 <= accepted(items, decls, parent, upto)[k].0 < upto,
        override_outcome(items, decls, parent, decls[accepted(items, decls, parent, upto)[k].0]@)
            == Ok::<(int, int, int), (InvalidOverrideReason, Seq<int>)>(accepted(items, decls, parent, upto)[k].1),
    decreases upto,
{
    if upto > 0 {
        let before = accepted(items, decls, parent, upto - 1);
        if k < before.len() {
            lemma_accepted_ok(items, decls, parent, upto - 1, k);
        }
    }
}

/// The shape validation demands of an accepted override declaration `d`:
/// it names the parent's alias and its parent identifier is declared once;
/// its parent is the one inherited artifact of the parent source with that
/// identifier; its replacement and rationale are local artifacts with their
/// identifiers; the replacement has the parent's specification; the
/// rationale is a live decision; and the replacement's identifier is no
/// other declaration's parent identifier unless it is its own.
pub open spec fn override_shape(items: Seq<CorpusItem>, decls: Seq<OverrideDeclaration>, parent: (Seq<char>, Seq<char>),
    d: OverrideDeclaration, v: ValidatedOverride, p: int, r: int, q: int) -> bool {
    &&& 0 <= p < items.len() && 0 <= r < items.len() && 0 <= q < items.len()
    &&& v.declaration@ == d@
    &&& d@.0 == parent.1
    &&& count_parent(decls, d@.0, fold(d@.1), decls.len() as int) <= 1
    &&& all_matches(items, Layer::Inherited, fold(d@.1), Some(parent.0)) == seq![p]
    &&& v.parent@ == items[p].key@ && items[p].origin.layer == Layer::Inherited && items[p].origin.source@ == parent.0
    &&& v.replacement@ == items[r].key@ && items[r].origin.layer == Layer::Local && fold(items[r].key.canonical_id@) == fold(d@.2)
    &&& v.rationale@ == items[q].key@ && items[q].origin.layer == Layer::Local && fold(items[q].key.canonical_id@) == fold(d@.3)
    &&& spec_name_view(items[p]) is Some && spec_name_view(items[p]) == spec_name_view(items[r])
    &&& spec_name_view(items[q]) == Some("decision"@) && items[q].live_decision
    &&& forall|j: int| 0 <= j < decls.len() && #[trigger] fold(decls[j]@.1) == fold(d@.2) ==> fold(d@.2) == fold(d@.1)
}

/// Every validated override of a composition with a verified parent has the
/// shape validation demands of it.
pub proof fn law_validated_override_shape(
    items: Seq<CorpusItem>,
    decls: Seq<OverrideDeclaration>,
    parent: (Seq<char>, Seq<char>),
    overrides: Seq<ValidatedOverride>,
    k: int,
)
    requires
        composed_overrides(items, decls, Some(parent), overrides),
        0 <= k < overrides.len(),
    ensures
        exists|i: int, p: int, r: int, q: int| 0 <= i < decls.len() && #[trigger] override_shape(items, decls, parent, decls[i], overrides[k], p, r, q),
{
    let acc = accepted(items, decls, Some(parent), decls.len() as int);
    lemma_accepted_ok(items, decls, Some(parent), decls.len() as int, k);
    let i = acc[k].0;
    let d = decls[i]@;
    let (p, r, q) = acc[k].1;
    let pid = fold(d.1);
    let rid = fold(d.2);
    let qid = fold(d.3);
    let pm = all_matches(items, Layer::Inherited, pid, Some(parent.0));
    let rm = all_matches(items, Layer::Local, rid, None);
    let qm = all_matches(items, Layer::Local, qid, None);
    lemma_match_list(items, Layer::Inherited, pid, Some(parent.0), items.len() as int);
    lemma_match_list(items, Layer::Local, rid, None, items.len() as int);
    lemma_match_list(items, Layer::Local, qid, None, items.len() as int);
    assert(pm.len() == 1 && pm[0] == p);
    assert(rm.len() == 1 && rm[0] == r);
    assert(qm.len() == 1 && qm[0] == q);
    assert(pm =~= seq![p]);
    assert(override_is(items, overrides[k], decls[acc[k].0], acc[k].1));
    assert forall|j: int| 0 <= j < decls.len() && #[trigger] fold(decls[j]@.1) == fold(d.2) implies fold(d.2) == fold(d.1) by {
        assert(declared_parent(decls, fold(d.2)));
    }
    assert(override_shape(items, decls, parent, decls[i], overrides[k], p, r, q));
}

/// What the local and effective views of a composition are: the local view
/// lists, ascending, the catalog positions of local artifacts; the effective
/// view lists, ascending, the positions no validated override redirects.
pub proof fn lemma_composition_views(c: ComposedCorpus)
    requires
        c.well_formed(),
    ensures
        c.local_view() == layer_indices(c.catalog_view(), Layer::Local, c.catalog_view().len() as int),
        forall|a: int, b: int| 0 <= a < b < c.effective_view().len() ==> c.effective_view()[a] < c.effective_view()[b],
        forall|k: int| 0 <= k < c.effective_view().len() ==> 0 <= #[trigger] c.effective_view()[k] < c.catalog_view().len(),
        forall|i: int| 0 <= i < c.catalog_view().len() ==> (c.effective_view().contains(i)
            <==> !overridden_key(c.overrides_view(), c.catalog_view()[i].key@)),
        sorted_by_key(c.catalog_view()),
{
}

/// An artifact is in the effective view exactly when no validated override
/// redirects it.
pub proof fn law_effective_is_catalog_minus_overridden(c: ComposedCorpus, i: int)
    requires
        c.well_formed(),
        0 <= i < c.catalog_view().len(),
    ensures
        c.effective_view().contains(i) <==> !overridden_key(c.overrides_view(), c.catalog_view()[i].key@),
{
}

/// An unqualified lookup of an overridden parent's canonical identifier
/// answers with its local replacement.
pub proof fn law_overridden_id_answers_replacement(c: ComposedCorpus, k: int, j: int)
    requires
        0 <= k < c.overrides_view().len(),
        0 <= j < c.catalog_view().len(),
        c.catalog_view()[j].key@ == c.overrides_view()[k].replacement@,
    ensures
        c.candidates(fold(c.overrides_view()[k].parent.canonical_id@)).contains(j),
{
    let rf = fold(c.overrides_view()[k].parent.canonical_id@);
    assert(c.is_candidate(rf, j));
    c.lemma_candidates_upto(rf, j, c.catalog_view().len() as int);
}

/// A validated override removes its parent from the effective view, while the
/// parent's own history stays reachable through its qualified canonical id.
pub proof fn law_overridden_parent_keeps_qualified_history(c: ComposedCorpus, k: int)
    requires
        c.well_formed(),
        c.parent_spec().is_some(),
        composed_overrides(c.catalog_view(), c.declarations_view(), parent_view(c.parent_spec()), c.overrides_view()),
        0 <= k < c.overrides_view().len(),
    ensures
        exists|i: int| 0 <= i < c.catalog_view().len()
            && (#[trigger] c.catalog_view()[i]).key@ == c.overrides_view()[k].parent@
            && !c.effective_view().contains(i)
            && c.candidates(fold(c.parent_spec().unwrap().alias@ + "::"@ + c.catalog_view()[i].key.canonical_id@)).contains(i),
{
    let items = c.catalog_view();
    let decls = c.declarations_view();
    let pv = parent_view(c.parent_spec());
    let acc = accepted(items, decls, pv, decls.len() as int);
    lemma_accepted_ok(items, decls, pv, decls.len() as int, k);
    let d = decls[acc[k].0]@;
    let p = c.parent_spec().unwrap();
    let pm = all_matches(items, Layer::Inherited, fold(d.1), Some(p.source@));
    lemma_match_list(items, Layer::Inherited, fold(d.1), Some(p.source@), items.len() as int);
    let i = acc[k].1.0;
    assert(pm[0] == i);
    assert(item_matches(items[i], Layer::Inherited, fold(d.1), Some(p.source@)));
    assert(overridden_key(c.overrides_view(), items[i].key@));
    let rf = fold(p.alias@ + "::"@ + items[i].key.canonical_id@);
    assert(c.is_candidate(rf, i));
    c.lemma_candidates_upto(rf, i, items.len() as int);
    assert(items[i].key@ == c.overrides_view()[k].parent@);
}

} // verus!
