//! Stable corpus and artifact identity for the source-aware read model.
//!
//! Stable identity deliberately excludes checkout paths. Runtime filesystem
//! locators are separate types, so moving an otherwise identical checkout
//! cannot alter an [`ArtifactKey`] or [`ArtifactPath`].
use vstd::prelude::*;

use crate::text::{ascii_lower_seq, chars_of, lemma_keys_lt_two, owned, str_lt, str_eq, string_from_chars, to_ascii_lower};
use crate::order::SortKey;

verus! {

/// Whether an artifact belongs to the writable child or a read-only parent.
#[derive(Debug, Clone, Copy, PartialEq, Eq, PartialOrd, Ord, Hash, Structural)]
pub enum Layer {
    Local,
    Inherited,
}

pub open spec fn layer_word(layer: Layer) -> Seq<char> {
    match layer {
        Layer::Local => "local"@,
        Layer::Inherited => "inherited"@,
    }
}

impl Layer {
    /// The stable lower-case word of the layer.
    pub fn as_str(self) -> (r: &'static str)
        ensures
            r@ == layer_word(self),
    {
        match self {
            Layer::Local => "local",
            Layer::Inherited => "inherited",
        }
    }

    /// Only the local layer may be written.
    pub fn is_writable(self) -> (r: bool)
        ensures
            r == (self == Layer::Local),
    {
        match self {
            Layer::Local => true,
            Layer::Inherited => false,
        }
    }
}

/// The view of an optional string.
pub open spec fn opt_view(o: Option<String>) -> Option<Seq<char>> {
    match o {
        Some(s) => Some(s@),
        None => None,
    }
}

/// A copy of an optional string.
pub fn copy_opt(o: &Option<String>) -> (r: Option<String>)
    ensures
        r == *o,
{
    match o {
        Some(s) => Some(s.clone()),
        None => None,
    }
}

/// Stable identity and provenance shared by every artifact in one layer.
///
/// `pin` and `alias` are absent for the local layer. An inherited layer has
/// both: the full verified digest and the child-local readable alias.
#[derive(Debug, Clone, PartialEq, Eq, PartialOrd, Ord, Hash)]
pub struct CorpusLayer {
    pub source: String,
    pub layer: Layer,
    pub pin: Option<String>,
    pub alias: Option<String>,
}

/// Stable global artifact identity: `(source, canonical_id)`.
#[derive(Debug, Clone, PartialEq, Eq, PartialOrd, Ord, Hash)]
pub struct ArtifactKey {
    pub source: String,
    pub canonical_id: String,
}

/// Stable global path identity: `(source, corpus-relative path)`.
#[derive(Debug, Clone, PartialEq, Eq, PartialOrd, Ord, Hash)]
pub struct ArtifactPath {
    pub source: String,
    pub relative_path: String,
}

/// Stable provenance attached to a parsed or derived artifact.
#[derive(Debug, Clone, PartialEq, Eq, PartialOrd, Ord, Hash)]
pub struct ArtifactOrigin {
    pub source: String,
    pub layer: Layer,
    pub pin: Option<String>,
    pub alias: Option<String>,
}

impl View for ArtifactKey {
    type V = (Seq<char>, Seq<char>);

    open spec fn view(&self) -> (Seq<char>, Seq<char>) {
        (self.source@, self.canonical_id@)
    }
}

impl View for ArtifactPath {
    type V = (Seq<char>, Seq<char>);

    open spec fn view(&self) -> (Seq<char>, Seq<char>) {
        (self.source@, self.relative_path@)
    }
}

/// The string tuple by which keys are ordered.
pub open spec fn pair_key(p: (Seq<char>, Seq<char>)) -> Seq<Seq<char>> {
    seq![p.0, p.1]
}

impl SortKey for ArtifactKey {
    open spec fn sort_key(&self) -> Seq<Seq<char>> {
        pair_key(self@)
    }

    fn key_lt(&self, other: &Self) -> (r: bool) {
        proof {
            lemma_keys_lt_two(self.source@, self.canonical_id@, other.source@, other.canonical_id@);
        }
        if !str_eq(&self.source, &other.source) {
            str_lt(&self.source, &other.source)
        } else {
            str_lt(&self.canonical_id, &other.canonical_id)
        }
    }
}

impl SortKey for ArtifactPath {
    open spec fn sort_key(&self) -> Seq<Seq<char>> {
        pair_key(self@)
    }

    fn key_lt(&self, other: &Self) -> (r: bool) {
        proof {
            lemma_keys_lt_two(self.source@, self.relative_path@, other.source@, other.relative_path@);
        }
        if !str_eq(&self.source, &other.source) {
            str_lt(&self.source, &other.source)
        } else {
            str_lt(&self.relative_path, &other.relative_path)
        }
    }
}

impl ArtifactKey {
    pub fn new(source: &str, canonical_id: &str) -> (r: Self)
        ensures
            r@ == (source@, canonical_id@),
    {
        ArtifactKey { source: owned(source), canonical_id: owned(canonical_id) }
    }

    /// An exact copy.
    pub fn dup(&self) -> (r: Self)
        ensures
            r == *self,
    {
        ArtifactKey { source: self.source.clone(), canonical_id: self.canonical_id.clone() }
    }

    /// Equality of both components.
    pub fn same(&self, other: &Self) -> (r: bool)
        ensures
            r == (self@ == other@),
    {
        self.source == other.source && self.canonical_id == other.canonical_id
    }
}

impl ArtifactPath {
    pub fn new(source: &str, relative_path: &str) -> (r: Self)
        ensures
            r@ == (source@, relative_path@),
    {
        ArtifactPath { source: owned(source), relative_path: owned(relative_path) }
    }

    /// An exact copy.
    pub fn dup(&self) -> (r: Self)
        ensures
            r == *self,
    {
        ArtifactPath { source: self.source.clone(), relative_path: self.relative_path.clone() }
    }

    /// Equality of both components.
    pub fn same(&self, other: &Self) -> (r: bool)
        ensures
            r == (self@ == other@),
    {
        self.source == other.source && self.relative_path == other.relative_path
    }
}

impl CorpusLayer {
    /// The writable local layer of `source`.
    pub fn local(source: &str) -> (r: Self)
        ensures
            r.source@ == source@,
            r.layer == Layer::Local,
            r.pin.is_none(),
            r.alias.is_none(),
    {
        CorpusLayer { source: owned(source), layer: Layer::Local, pin: None, alias: None }
    }

    /// A read-only inherited layer with its child-local alias and pin.
    pub fn inherited(source: &str, alias: &str, pin: &str) -> (r: Self)
        ensures
            r.source@ == source@,
            r.layer == Layer::Inherited,
            opt_view(r.pin) == Some(pin@),
            opt_view(r.alias) == Some(alias@),
    {
        CorpusLayer {
            source: owned(source),
            layer: Layer::Inherited,
            pin: Some(owned(pin)),
            alias: Some(owned(alias)),
        }
    }

    /// The provenance shared by every artifact of this layer.
    pub fn origin(&self) -> (r: ArtifactOrigin)
        ensures
            r.source == self.source,
            r.layer == self.layer,
            r.pin == self.pin,
            r.alias == self.alias,
    {
        ArtifactOrigin {
            source: self.source.clone(),
            layer: self.layer,
            pin: copy_opt(&self.pin),
            alias: copy_opt(&self.alias),
        }
    }

    /// The layer that an origin belongs to.
    pub fn from_origin(origin: &ArtifactOrigin) -> (r: Self)
        ensures
            r.source == origin.source,
            r.layer == origin.layer,
            r.pin == origin.pin,
            r.alias == origin.alias,
    {
        CorpusLayer {
            source: origin.source.clone(),
            layer: origin.layer,
            pin: copy_opt(&origin.pin),
            alias: copy_opt(&origin.alias),
        }
    }
}

impl ArtifactOrigin {
    /// The stable key of `canonical_id` in this origin's source.
    pub fn key(&self, canonical_id: &str) -> (r: ArtifactKey)
        ensures
            r@ == (self.source@, canonical_id@),
    {
        ArtifactKey { source: self.source.clone(), canonical_id: owned(canonical_id) }
    }

    /// The stable path of `relative_path` in this origin's source.
    pub fn path(&self, relative_path: &str) -> (r: ArtifactPath)
        ensures
            r@ == (self.source@, relative_path@),
    {
        ArtifactPath { source: self.source.clone(), relative_path: owned(relative_path) }
    }

    /// An exact copy.
    pub fn dup(&self) -> (r: Self)
        ensures
            r == *self,
    {
        ArtifactOrigin {
            source: self.source.clone(),
            layer: self.layer,
            pin: copy_opt(&self.pin),
            alias: copy_opt(&self.alias),
        }
    }
}

/// Runtime-only filesystem location of one corpus layer. These locations are
/// never stable identity.
#[derive(Debug, Clone, PartialEq, Eq)]
pub struct PhysicalCorpusLocator {
    pub repository_root: String,
    pub corpus_root: String,
}

impl PhysicalCorpusLocator {
    pub fn new(repository_root: &str, corpus_root: &str) -> (r: Self)
        ensures
            r.repository_root@ == repository_root@,
            r.corpus_root@ == corpus_root@,
    {
        PhysicalCorpusLocator { repository_root: owned(repository_root), corpus_root: owned(corpus_root) }
    }
}

/// Runtime-only filesystem location of one artifact.
#[derive(Debug, Clone, PartialEq, Eq)]
pub struct PhysicalArtifactLocator {
    pub corpus: PhysicalCorpusLocator,
    pub path: String,
}

impl PhysicalArtifactLocator {
    pub fn new(corpus: PhysicalCorpusLocator, path: &str) -> (r: Self)
        ensures
            r.corpus == corpus,
            r.path@ == path@,
    {
        PhysicalArtifactLocator { corpus, path: owned(path) }
    }
}

/// The identity values a repository configuration declares.
#[derive(Debug, Clone, PartialEq, Eq)]
pub struct RepositoryIdentity {
    pub corpus_source: Option<String>,
    pub repository_key: Option<String>,
}

/// The last non-empty `/`-separated segment of a directory, or the directory
/// itself when that segment is empty, `.` or `..`.
pub open spec fn corpus_name(directory: Seq<char>) -> Seq<char> {
    let trimmed = trim_trailing_slashes(directory);
    let name = last_segment(trimmed);
    if name.len() == 0 || name == "."@ || name == ".."@ {
        directory
    } else {
        name
    }
}

pub open spec fn trim_trailing_slashes(s: Seq<char>) -> Seq<char>
    decreases s.len(),
{
    if s.len() > 0 && s.last() == '/' {
        trim_trailing_slashes(s.drop_last())
    } else {
        s
    }
}

/// The part of `s` after its last `/`.
pub open spec fn last_segment(s: Seq<char>) -> Seq<char>
    decreases s.len(),
{
    if s.len() == 0 {
        s
    } else if s.last() == '/' {
        Seq::empty()
    } else {
        last_segment(s.drop_last()).push(s.last())
    }
}

/// The corpus name derived from a directory path.
pub fn compatible_corpus_name(directory: &str) -> (r: String)
    ensures
        r@ == corpus_name(directory@),
{
    let cs = chars_of(directory);
    let mut end = cs.len();
    assert(cs@.take(end as int) =~= cs@);
    while end > 0 && cs[end - 1] == '/'
        invariant
            end <= cs@.len(),
            cs@ == directory@,
            trim_trailing_slashes(directory@) == trim_trailing_slashes(cs@.take(end as int)),
        decreases end,
    {
        assert(cs@.take(end as int).drop_last() =~= cs@.take(end as int - 1));
        end -= 1;
    }
    let ghost trimmed = cs@.take(end as int);
    assert(trim_trailing_slashes(cs@.take(end as int)) == trimmed);
    let mut start = end;
    while start > 0 && cs[start - 1] != '/'
        invariant
            start <= end <= cs@.len(),
            cs@ == directory@,
            trimmed == cs@.take(end as int),
            last_segment(trimmed) == last_segment(cs@.take(start as int)) + cs@.subrange(start as int, end as int),
        decreases start,
    {
        let ghost t = cs@.take(start as int);
        assert(t.drop_last() =~= cs@.take(start as int - 1));
        assert(cs@.subrange(start as int - 1, end as int) =~= seq![t.last()] + cs@.subrange(start as int, end as int));
        assert(last_segment(t) == last_segment(t.drop_last()).push(t.last()));
        assert(last_segment(t.drop_last()).push(t.last()) + cs@.subrange(start as int, end as int)
            =~= last_segment(t.drop_last()) + cs@.subrange(start as int - 1, end as int));
        start -= 1;
    }
    assert(last_segment(cs@.take(start as int)) =~= Seq::<char>::empty()) by {
        if start > 0 {
            assert(cs@.take(start as int).last() == '/');
        }
    }
    assert(last_segment(trimmed) =~= cs@.subrange(start as int, end as int));
    let name = string_from_chars(&cs[start..end]);
    proof {
        reveal_strlit(".");
        reveal_strlit("..");
    }
    if end == start {
        return owned(directory);
    }
    let dot = owned(".");
    let dotdot = owned("..");
    if name == dot || name == dotdot {
        owned(directory)
    } else {
        name
    }
}

/// The strip of one trailing line feed followed by ASCII lower-casing.
pub open spec fn key_source(key: Seq<char>) -> Seq<char> {
    let stripped = if key.len() > 0 && key.last() == '\n' { key.drop_last() } else { key };
    ascii_lower_seq(stripped)
}

/// The source a repository's configuration derives.
pub open spec fn source_from_identity(directory: Seq<char>, identity: Option<(Option<Seq<char>>, Option<Seq<char>>)>) -> Seq<char> {
    match identity {
        None => corpus_name(directory),
        Some((Some(source), _)) => source,
        Some((None, Some(key))) => key_source(key),
        Some((None, None)) => corpus_name(directory),
    }
}

pub open spec fn identity_view(identity: Option<RepositoryIdentity>) -> Option<(Option<Seq<char>>, Option<Seq<char>>)> {
    match identity {
        None => None,
        Some(i) => Some((opt_view(i.corpus_source), opt_view(i.repository_key))),
    }
}

/// The exact non-federated source derivation: explicit `corpus.source`, then
/// lower-case `repository_key`, then the directory-basename fallback.
pub fn compatible_corpus_source(directory: &str, identity: &Option<RepositoryIdentity>) -> (r: String)
    ensures
        r@ == source_from_identity(directory@, identity_view(*identity)),
{
    match identity {
        None => compatible_corpus_name(directory),
        Some(identity) => match &identity.corpus_source {
            Some(source) => source.clone(),
            None => match &identity.repository_key {
                Some(key) => {
                    let cs = chars_of(key.as_str());
                    let stripped = if cs.len() > 0 && cs[cs.len() - 1] == '\n' {
                        string_from_chars(&cs[0..cs.len() - 1])
                    } else {
                        key.clone()
                    };
                    proof {
                        if cs@.len() > 0 && cs@.last() == '\n' {
                            assert(cs@.subrange(0, cs@.len() - 1) =~= key@.drop_last());
                        }
                    }
                    to_ascii_lower(stripped.as_str())
                },
                None => compatible_corpus_name(directory),
            },
        },
    }
}

/// The single local layer of a non-federated corpus.
pub fn compatible_local_layer(directory: &str, identity: &Option<RepositoryIdentity>) -> (r: CorpusLayer)
    ensures
        r.source@ == source_from_identity(directory@, identity_view(*identity)),
        r.layer == Layer::Local,
        r.pin.is_none(),
        r.alias.is_none(),
{
    let source = compatible_corpus_source(directory, identity);
    CorpusLayer::local(source.as_str())
}


/// An exact copy of a list of keys.
pub fn copy_keys(v: &Vec<ArtifactKey>) -> (r: Vec<ArtifactKey>)
    ensures
        r@ == v@,
{
    let mut r: Vec<ArtifactKey> = Vec::new();
    let mut i: usize = 0;
    while i < v.len()
        invariant
            i <= v@.len(),
            r@ == v@.take(i as int),
        decreases v@.len() - i,
    {
        r.push(v[i].dup());
        i += 1;
        assert(r@ =~= v@.take(i as int));
    }
    assert(v@.take(v@.len() as int) =~= v@);
    r
}

/// An exact copy of a list of paths.
pub fn copy_paths(v: &Vec<ArtifactPath>) -> (r: Vec<ArtifactPath>)
    ensures
        r@ == v@,
{
    let mut r: Vec<ArtifactPath> = Vec::new();
    let mut i: usize = 0;
    while i < v.len()
        invariant
            i <= v@.len(),
            r@ == v@.take(i as int),
        decreases v@.len() - i,
    {
        r.push(v[i].dup());
        i += 1;
        assert(r@ =~= v@.take(i as int));
    }
    assert(v@.take(v@.len() as int) =~= v@);
    r
}

/// An exact copy of a list of strings.
pub fn copy_strings(v: &Vec<String>) -> (r: Vec<String>)
    ensures
        r@ == v@,
{
    let mut r: Vec<String> = Vec::new();
    let mut i: usize = 0;
    while i < v.len()
        invariant
            i <= v@.len(),
            r@ == v@.take(i as int),
        decreases v@.len() - i,
    {
        r.push(v[i].clone());
        i += 1;
        assert(r@ =~= v@.take(i as int));
    }
    assert(v@.take(v@.len() as int) =~= v@);
    r
}

} // verus!
