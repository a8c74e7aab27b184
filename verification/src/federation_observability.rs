//! Read-only operator views over a verified source graph: what a reference
//! resolves to and why, and the shape of the verified federation.
use vstd::prelude::*;

use crate::corpus::{ArtifactKey, Layer, opt_view, copy_opt, copy_strings, layer_word};
use crate::graph_composed::{GraphComposition, provenance_view, provenance_upto, derefs, items_in, source_positions};
use crate::federation::VerifiedFederationEdge;
use crate::order::{sort_indices, orders_keys, keys_views, strings_view, sorted_unique, strictly_ascending};
use crate::graph_composition::{GraphLookupError, GraphOverrideProvenance, GraphOverrideState, lookup, keys_view, state_word};
use crate::graph_overrides::find_key;
use crate::item::CorpusItem;
use crate::text::{owned, push_str, str_eq, views, replace_char_seq, chars_of, string_from_chars, decimal, usize_to_string, join, join_strings, ascii_upper_seq, to_ascii_upper, trim_end_white, trim_end};

verus! {

pub const FEDERATION_REPORT_SCHEMA_VERSION: &'static str = "1";

/// `source::canonical_id`.
pub open spec fn key_label_spec(k: (Seq<char>, Seq<char>)) -> Seq<char> {
    k.0 + "::"@ + k.1
}

/// The source-qualified label of a key.
pub fn key_label(key: &ArtifactKey) -> (r: String)
    ensures
        r@ == key_label_spec(key@),
{
    let mut r = owned(key.source.as_str());
    push_str(&mut r, "::");
    push_str(&mut r, key.canonical_id.as_str());
    r
}

/// What `Path::strip_prefix` leaves of `path` once the components of
/// `root` are taken off its front, as text; `None` when `root` is not a
/// prefix of `path` component by component.
pub uninterp spec fn path_strip_prefix(path: Seq<char>, root: Seq<char>) -> Option<Seq<char>>;

/// Calls `std::path::Path::strip_prefix` and turns the remainder back into
/// text. Claimed: the result depends on the two strings alone (it is named
/// `path_strip_prefix`), under the path rules of the platform the crate is
/// built for. Nothing is claimed of how paths are split into components.
#[verifier::external_body]
fn strip_path_prefix(path: &str, root: &str) -> (r: Option<String>)
    ensures
        opt_view(r) == path_strip_prefix(path@, root@),
{
    match std::path::Path::new(path).strip_prefix(root) {
        Ok(rest) => Some(rest.to_string_lossy().into_owned()),
        Err(_) => None,
    }
}

/// A relative path as shown to operators: backslashes become `/`, and the
/// empty path is `.`.
pub open spec fn posix_view(s: Seq<char>) -> Seq<char> {
    if s.len() == 0 { "."@ } else { replace_char_seq(s, '\\', '/') }
}

/// Shows a relative path with forward slashes; the empty path is `.`.
pub fn posix_display(relative: &str) -> (r: String)
    ensures
        r@ == posix_view(relative@),
{
    let cs = chars_of(relative);
    if cs.len() == 0 {
        let r = owned(".");
        proof {
            reveal_strlit(".");
        }
        return r;
    }
    let mut out: Vec<char> = Vec::new();
    let mut i: usize = 0;
    while i < cs.len()
        invariant
            cs@ == relative@,
            i <= cs@.len(),
            out@ == replace_char_seq(cs@, '\\', '/').take(i as int),
        decreases cs@.len() - i,
    {
        let c = cs[i];
        out.push(if c == '\\' { '/' } else { c });
        assert(replace_char_seq(cs@, '\\', '/').take(i as int + 1) =~= replace_char_seq(cs@, '\\', '/').take(i as int).push(if c == '\\' { '/' } else { c }));
        i += 1;
    }
    assert(replace_char_seq(cs@, '\\', '/').take(cs@.len() as int) =~= replace_char_seq(cs@, '\\', '/'));
    string_from_chars(out.as_slice())
}

/// `path` relative to `root` when `root` is its prefix, else `path` itself,
/// as [`posix_view`] shows it.
pub open spec fn relative_spec(root: Seq<char>, path: Seq<char>) -> Seq<char> {
    match path_strip_prefix(path, root) {
        Some(rest) => posix_view(rest),
        None => posix_view(path),
    }
}

/// A path shown relative to the repository root, with forward slashes.
pub fn relative_display(root: &str, path: &str) -> (r: String)
    ensures
        r@ == relative_spec(root@, path@),
{
    match strip_path_prefix(path, root) {
        Some(rest) => posix_display(rest.as_str()),
        None => posix_display(path),
    }
}

/// An artifact as an explanation names it.
#[derive(Debug, Clone)]
pub struct ExplainedArtifact {
    pub key: ArtifactKey,
    pub title: Option<String>,
    pub artifact_type: Option<String>,
    pub path: String,
    pub layer: Layer,
    pub pin: Option<String>,
    pub alias: Option<String>,
    pub writable: bool,
}

/// `a` describes catalog item `it`.
pub open spec fn explains(a: ExplainedArtifact, it: CorpusItem) -> bool {
    &&& a.key@ == it.key@
    &&& opt_view(a.title) == opt_view(it.title)
    &&& opt_view(a.artifact_type) == opt_view(it.spec_name)
    &&& a.path@ == it.artifact_path.relative_path@
    &&& a.layer == it.origin.layer
    &&& opt_view(a.pin) == opt_view(it.origin.pin)
    &&& opt_view(a.alias) == opt_view(it.origin.alias)
    &&& a.writable == (it.origin.layer == Layer::Local)
}

/// Each artifact describes the item at its position.
pub open spec fn explains_all(a: Seq<ExplainedArtifact>, its: Seq<CorpusItem>) -> bool {
    a.len() == its.len() && forall|i: int| 0 <= i < a.len() ==> explains(#[trigger] a[i], its[i])
}

/// The catalog items of `keys` that the catalog holds, in the keys' order.
pub open spec fn found_items(items: Seq<CorpusItem>, keys: Seq<(Seq<char>, Seq<char>)>) -> Seq<CorpusItem>
    decreases keys.len(),
{
    if keys.len() == 0 {
        Seq::empty()
    } else {
        let prev = found_items(items, keys.drop_last());
        match find_key(items, keys.last()) {
            Some(i) => prev.push(items[i]),
            None => prev,
        }
    }
}

/// The explanation of one key, when the catalog holds it.
pub open spec fn explains_opt(a: Option<ExplainedArtifact>, items: Seq<CorpusItem>, k: (Seq<char>, Seq<char>)) -> bool {
    match find_key(items, k) {
        Some(i) => a matches Some(x) && explains(x, items[i]),
        None => a is None,
    }
}

fn explain_item(it: &CorpusItem) -> (r: ExplainedArtifact)
    ensures
        explains(r, *it),
{
    ExplainedArtifact {
        key: it.key.dup(),
        title: copy_opt(&it.title),
        artifact_type: copy_opt(&it.spec_name),
        path: it.artifact_path.relative_path.clone(),
        layer: it.origin.layer,
        pin: copy_opt(&it.origin.pin),
        alias: copy_opt(&it.origin.alias),
        writable: it.origin.layer.is_writable(),
    }
}

fn artifact_view(composition: &GraphComposition, key: &ArtifactKey) -> (r: Option<ExplainedArtifact>)
    ensures
        explains_opt(r, composition.catalog_view(), key@),
{
    match composition.item(key) {
        Some(it) => Some(explain_item(it)),
        None => None,
    }
}

fn artifact_views(composition: &GraphComposition, keys: &Vec<ArtifactKey>) -> (r: Vec<ExplainedArtifact>)
    ensures
        explains_all(r@, found_items(composition.catalog_view(), keys_view(keys@))),
{
    let ghost items = composition.catalog_view();
    let mut r: Vec<ExplainedArtifact> = Vec::new();
    let mut i: usize = 0;
    while i < keys.len()
        invariant
            i <= keys@.len(),
            items == composition.catalog_view(),
            explains_all(r@, found_items(items, keys_view(keys@.take(i as int)))),
        decreases keys@.len() - i,
    {
        proof {
            assert(keys_view(keys@.take(i as int + 1)).drop_last() =~= keys_view(keys@.take(i as int)));
            assert(keys_view(keys@.take(i as int + 1)).last() == keys@[i as int]@);
        }
        match artifact_view(composition, &keys[i]) {
            Some(a) => {
                r.push(a);
            },
            None => {},
        }
        i += 1;
    }
    assert(keys@.take(keys@.len() as int) =~= keys@);
    r
}

/// One direct alias of the context source.
#[derive(Debug, Clone)]
pub struct ExplainAlias {
    pub alias: String,
    pub source: String,
}

/// The `(alias, source)` rows of `owner`, in alias-table order.
pub open spec fn aliases_of(table: Seq<((Seq<char>, Seq<char>), Seq<char>)>, owner: Seq<char>) -> Seq<(Seq<char>, Seq<char>)>
    decreases table.len(),
{
    if table.len() == 0 {
        Seq::empty()
    } else {
        let prev = aliases_of(table.drop_last(), owner);
        let e = table.last();
        if e.0.0 == owner { prev.push((e.0.1, e.1)) } else { prev }
    }
}

pub open spec fn alias_rows(v: Seq<ExplainAlias>) -> Seq<(Seq<char>, Seq<char>)> {
    Seq::new(v.len(), |i: int| (v[i].alias@, v[i].source@))
}

/// The sources visible from `context`, or none when it is unknown.
pub open spec fn visible_of(table: Seq<(Seq<char>, Seq<Seq<char>>)>, context: Seq<char>) -> Seq<Seq<char>> {
    match lookup(table, context) {
        Some(v) => v,
        None => Seq::empty(),
    }
}

/// The provenance records of an artifact, when the catalog holds it.
pub open spec fn provenance_of(c: GraphComposition, k: (Seq<char>, Seq<char>))
    -> Option<Seq<(GraphOverrideState, Seq<char>, (Seq<char>, Seq<char>), (Seq<char>, Seq<char>), (Seq<char>, Seq<char>))>>
{
    match find_key(c.catalog_view(), k) {
        None => None,
        Some(a) => Some(provenance_upto(c.projections_view()[c.root_pos()], c.reps_view(), c.catalog_view(), c.ordered_view(), a,
            c.ordered_view().len() as int)),
    }
}

pub open spec fn provenance_rows(v: Seq<GraphOverrideProvenance>)
    -> Seq<(GraphOverrideState, Seq<char>, (Seq<char>, Seq<char>), (Seq<char>, Seq<char>), (Seq<char>, Seq<char>))>
{
    Seq::new(v.len(), |i: int| provenance_view(v[i]))
}


pub const MESSAGE_QUALIFIED_REDIRECT: &'static str = "the qualified reference selects source-owned history; the effective projection redirects it through explicit overrides";
pub const MESSAGE_RECONVERGED: &'static str = "the unqualified reference has multiple historical records which reconverge on one effective terminal";
pub const MESSAGE_REDIRECTED: &'static str = "the reference resolves through explicit overrides to the effective terminal";
pub const MESSAGE_DIRECT: &'static str = "the reference selects the effective source-owned artifact directly";
pub const MESSAGE_AMBIGUOUS: &'static str = "the visible historical records do not converge on one effective terminal; use a source-qualified canonical ID";
pub const MESSAGE_UNKNOWN_CONTEXT: &'static str = "the requested source context is not part of the verified closure";
pub const MESSAGE_NOT_FOUND: &'static str = "no visible artifact matches this reference in the requested source context";
pub const MESSAGE_INVALID_REFERENCE: &'static str = "a qualified reference must contain exactly one qualifier and one canonical ID";
pub const MESSAGE_CANONICAL_REQUIRED: &'static str = "qualified lookup accepts only the source-owned canonical ID, not an alias";

/// Why a resolved reference landed where it did.
pub open spec fn resolved_message(qualified: bool, selected: (Seq<char>, Seq<char>), terminal: (Seq<char>, Seq<char>), candidates: nat) -> Seq<char> {
    if qualified && selected != terminal {
        MESSAGE_QUALIFIED_REDIRECT@
    } else if !qualified && candidates > 1 {
        MESSAGE_RECONVERGED@
    } else if selected != terminal {
        MESSAGE_REDIRECTED@
    } else {
        MESSAGE_DIRECT@
    }
}

/// The outcome word and message of a failed lookup, by failure number.
pub open spec fn failure_words(code: int) -> (Seq<char>, Seq<char>) {
    if code == 0 {
        ("unknown-context"@, MESSAGE_UNKNOWN_CONTEXT@)
    } else if code == 1 {
        ("not-found"@, MESSAGE_NOT_FOUND@)
    } else if code == 2 {
        ("invalid-reference"@, MESSAGE_INVALID_REFERENCE@)
    } else if code == 3 {
        ("canonical-id-required"@, MESSAGE_CANONICAL_REQUIRED@)
    } else {
        ("ambiguous"@, MESSAGE_AMBIGUOUS@)
    }
}

/// How one reference resolves from one source, and why.
#[derive(Debug)]
pub struct FederationExplainReport {
    pub reference: String,
    pub context: String,
    pub outcome: &'static str,
    pub message: String,
    pub qualified: Option<bool>,
    pub visible_sources: Vec<String>,
    pub aliases: Vec<ExplainAlias>,
    pub historical_candidates: Vec<ExplainedArtifact>,
    pub effective_candidates: Vec<ExplainedArtifact>,
    pub selected: Option<ExplainedArtifact>,
    pub effective_terminal: Option<ExplainedArtifact>,
    pub override_provenance: Vec<GraphOverrideProvenance>,
}

/// The key whose provenance a resolution shows: the selected artifact when
/// it took part in an override, else the effective terminal.
pub open spec fn provenance_key(c: GraphComposition, selected: (Seq<char>, Seq<char>), terminal: (Seq<char>, Seq<char>)) -> (Seq<char>, Seq<char>) {
    if provenance_of(c, selected) matches Some(v) && v.len() > 0 { selected } else { terminal }
}

/// What an explanation reports of `reference` read from `context`.
pub open spec fn explained_by(r: FederationExplainReport, c: GraphComposition, context: Seq<char>, reference: Seq<char>) -> bool {
    let items = c.catalog_view();
    &&& r.reference@ == reference
    &&& r.context@ == context
    &&& views(r.visible_sources@) == visible_of(c.topology_view().visibility.visible_view(), context)
    &&& alias_rows(r.aliases@) == aliases_of(c.topology_view().visibility.alias_view(), context)
    &&& match c.resolution_spec(context, reference) {
        Ok((h, sel, term, q)) => {
            &&& r.outcome@ == "resolved"@
            &&& r.message@ == resolved_message(q, sel, term, h.len())
            &&& r.qualified == Some(q)
            &&& explains_all(r.historical_candidates@, found_items(items, h))
            &&& r.effective_candidates@.len() == 0
            &&& explains_opt(r.selected, items, sel)
            &&& explains_opt(r.effective_terminal, items, term)
            &&& provenance_rows(r.override_provenance@) == match provenance_of(c, provenance_key(c, sel, term)) {
                Some(v) => v,
                None => Seq::empty(),
            }
        },
        Err((code, h, e)) => {
            &&& r.outcome@ == failure_words(code).0
            &&& r.message@ == failure_words(code).1
            &&& r.qualified is None
            &&& explains_all(r.historical_candidates@, found_items(items, h))
            &&& explains_all(r.effective_candidates@, found_items(items, e))
            &&& r.selected is None
            &&& r.effective_terminal is None
            &&& r.override_provenance@.len() == 0
        },
    }
}

fn context_aliases(table: &Vec<((String, String), String)>, Ghost(tv): Ghost<Seq<((Seq<char>, Seq<char>), Seq<char>)>>, context: &str) -> (r: Vec<ExplainAlias>)
    requires
        Seq::new(table@.len(), |i: int| ((table@[i].0.0@, table@[i].0.1@), table@[i].1@)) == tv,
    ensures
        alias_rows(r@) == aliases_of(tv, context@),
{
    let mut r: Vec<ExplainAlias> = Vec::new();
    let mut i: usize = 0;
    while i < table.len()
        invariant
            i <= table@.len(),
            Seq::new(table@.len(), |i: int| ((table@[i].0.0@, table@[i].0.1@), table@[i].1@)) == tv,
            alias_rows(r@) == aliases_of(tv.take(i as int), context@),
        decreases table@.len() - i,
    {
        assert(tv.take(i as int + 1).drop_last() =~= tv.take(i as int));
        assert(tv.take(i as int + 1).last() == tv[i as int]);
        if str_eq(table[i].0.0.as_str(), context) {
            r.push(ExplainAlias { alias: table[i].0.1.clone(), source: table[i].1.clone() });
        }
        assert(alias_rows(r@) =~= aliases_of(tv.take(i as int + 1), context@));
        i += 1;
    }
    assert(tv.take(tv.len() as int) =~= tv);
    r
}

fn provenance_list(composition: &GraphComposition, key: &ArtifactKey) -> (r: Vec<GraphOverrideProvenance>)
    ensures
        provenance_rows(r@) == match provenance_of(*composition, key@) {
            Some(v) => v,
            None => Seq::empty(),
        },
{
    match composition.provenance_for(key) {
        Some(v) => {
            assert(provenance_rows(v@) =~= Seq::new(v@.len(), |i: int| provenance_view(v@[i])));
            v
        },
        None => {
            let v: Vec<GraphOverrideProvenance> = Vec::new();
            assert(provenance_rows(v@) =~= Seq::empty());
            v
        },
    }
}

impl FederationExplainReport {
    /// Explains how `reference` resolves when read from source `context`.
    pub fn from_corpus(composition: &GraphComposition, context: &str, reference: &str) -> (r: Self)
        ensures
            explained_by(r, *composition, context@, reference@),
    {
        let vis = composition.visibility();
        let visible_sources = match vis.visible_from(context) {
            Some(l) => copy_strings(l),
            None => {
                let v: Vec<String> = Vec::new();
                assert(views(v@) =~= Seq::<Seq<char>>::empty());
                v
            },
        };
        let aliases = context_aliases(vis.aliases(), Ghost(vis.alias_view()), context);
        let res = composition.resolve_from(context, reference);
        match res {
            Ok(resolution) => {
                let historical_candidates = artifact_views(composition, &resolution.historical_candidates);
                let selected = artifact_view(composition, &resolution.selected);
                let effective_terminal = artifact_view(composition, &resolution.effective_terminal);
                let use_selected = match composition.provenance_for(&resolution.selected) {
                    Some(entries) => entries.len() > 0,
                    None => false,
                };
                let override_provenance = if use_selected {
                    provenance_list(composition, &resolution.selected)
                } else {
                    provenance_list(composition, &resolution.effective_terminal)
                };
                let differs = !resolution.selected.same(&resolution.effective_terminal);
                let message = if resolution.qualified && differs {
                    MESSAGE_QUALIFIED_REDIRECT
                } else if !resolution.qualified && resolution.historical_candidates.len() > 1 {
                    MESSAGE_RECONVERGED
                } else if differs {
                    MESSAGE_REDIRECTED
                } else {
                    MESSAGE_DIRECT
                };
                proof {
                    assert(provenance_rows(override_provenance@) == match provenance_of(*composition, provenance_key(*composition, resolution.selected@, resolution.effective_terminal@)) {
                        Some(v) => v,
                        None => Seq::empty(),
                    });
                }
                FederationExplainReport {
                    reference: owned(reference),
                    context: owned(context),
                    outcome: "resolved",
                    message: owned(message),
                    qualified: Some(resolution.qualified),
                    visible_sources,
                    aliases,
                    historical_candidates,
                    effective_candidates: Vec::new(),
                    selected,
                    effective_terminal,
                    override_provenance,
                }
            },
            Err(error) => {
                let (outcome, message, historical_candidates, effective_candidates) = match error {
                    GraphLookupError::UnknownContext => ("unknown-context", MESSAGE_UNKNOWN_CONTEXT, Vec::new(), Vec::new()),
                    GraphLookupError::NotFound => ("not-found", MESSAGE_NOT_FOUND, Vec::new(), Vec::new()),
                    GraphLookupError::InvalidQualifiedReference => ("invalid-reference", MESSAGE_INVALID_REFERENCE, Vec::new(), Vec::new()),
                    GraphLookupError::QualifiedCanonicalRequired => ("canonical-id-required", MESSAGE_CANONICAL_REQUIRED, Vec::new(), Vec::new()),
                    GraphLookupError::Ambiguous { historical_candidates, effective_candidates } => (
                        "ambiguous",
                        MESSAGE_AMBIGUOUS,
                        artifact_views(composition, &historical_candidates),
                        artifact_views(composition, &effective_candidates),
                    ),
                };
                FederationExplainReport {
                    reference: owned(reference),
                    context: owned(context),
                    outcome,
                    message: owned(message),
                    qualified: None,
                    visible_sources,
                    aliases,
                    historical_candidates,
                    effective_candidates,
                    selected: None,
                    effective_terminal: None,
                    override_provenance: Vec::new(),
                }
            },
        }
    }

    /// The reference resolved.
    pub fn ok(&self) -> (r: bool)
        ensures
            r == (self.outcome@ == "resolved"@),
    {
        str_eq(self.outcome, "resolved")
    }
}


/// One inherited source of a verified closure, as the status report reads it.
pub struct FederationNodeLayout {
    pub source: String,
    /// The verified pin of the source's snapshot.
    pub digest: String,
    pub manifest_version: Option<u32>,
    /// The canonical route from the root to this source.
    pub source_route: Vec<String>,
    /// How many physical routes reach this source.
    pub route_count: usize,
    pub config_path: String,
    /// The source's manifest path, when it carried a manifest.
    pub manifest_path: Option<String>,
    pub corpus_root: String,
}

/// The verified federation as the status report reads it.
pub struct FederationLayout {
    pub repository_root: String,
    pub root_source: String,
    pub root_corpus_path: String,
    pub root_corpus_root: String,
    pub root_config_path: String,
    pub manifest_path: String,
    pub nodes: Vec<FederationNodeLayout>,
    pub edges: Vec<VerifiedFederationEdge>,
    pub materialisation_roots: Vec<String>,
}

#[derive(Debug, Clone, Copy, PartialEq, Eq, Structural)]
pub struct FederationStatusSummary {
    pub sources: usize,
    pub inherited_sources: usize,
    pub edges: usize,
    pub physical_routes: usize,
    pub max_depth: usize,
    pub catalog_artifacts: usize,
    pub effective_artifacts: usize,
    pub root_local_artifacts: usize,
    pub overrides: usize,
    pub read_only_roots: usize,
}

#[derive(Debug, Clone)]
pub struct FederationSourceStatus {
    pub source: String,
    pub layer: Layer,
    pub pin: Option<String>,
    pub manifest_version: Option<u32>,
    pub source_route: Vec<String>,
    pub route_count: usize,
    pub config_path: String,
    pub manifest_path: Option<String>,
    pub corpus_path: String,
    pub artifact_count: usize,
    pub effective_artifact_count: usize,
    pub writable: bool,
}

#[derive(Debug, Clone)]
pub struct FederationEdgeStatus {
    pub owner_source: String,
    pub alias: String,
    pub target_source: String,
    pub declared_pin: String,
    pub canonical_pin: String,
    pub root: String,
    pub corpus: String,
    pub materialisation_root: String,
    pub corpus_path: String,
}

#[derive(Debug)]
pub struct FederationStatusReport {
    pub root_source: String,
    pub root_corpus: String,
    pub summary: FederationStatusSummary,
    pub sources: Vec<FederationSourceStatus>,
    pub edges: Vec<FederationEdgeStatus>,
    pub read_only_roots: Vec<String>,
}

/// How many of `items` belong to source `s`.
pub open spec fn count_source(items: Seq<CorpusItem>, s: Seq<char>) -> nat
    decreases items.len(),
{
    if items.len() == 0 {
        0
    } else {
        count_source(items.drop_last(), s) + if items.last().key.source@ == s { 1nat } else { 0nat }
    }
}

/// The root-effective artifacts of a composition.
pub open spec fn effective_items(c: GraphComposition) -> Seq<CorpusItem> {
    items_in(c.catalog_view(), crate::graph_projection::live(c.projections_view()[c.root_pos()]), c.catalog_view().len() as int)
}

/// The root's own artifacts.
pub open spec fn root_local_items(c: GraphComposition) -> Seq<CorpusItem> {
    items_in(c.catalog_view(), source_positions(c.catalog_view(), c.root_view()), c.catalog_view().len() as int)
}

fn count_in(items: &Vec<CorpusItem>, s: &str) -> (r: usize)
    ensures
        r == count_source(items@, s@),
        r <= items@.len(),
{
    let mut n: usize = 0;
    let mut i: usize = 0;
    while i < items.len()
        invariant
            i <= items@.len(),
            n == count_source(items@.take(i as int), s@),
            n <= i,
        decreases items@.len() - i,
    {
        assert(items@.take(i as int + 1).drop_last() =~= items@.take(i as int));
        if str_eq(items[i].key.source.as_str(), s) {
            n += 1;
        }
        i += 1;
    }
    assert(items@.take(items@.len() as int) =~= items@);
    n
}

fn count_in_refs(items: &Vec<&CorpusItem>, s: &str) -> (r: usize)
    ensures
        r == count_source(derefs(items@), s@),
{
    let mut n: usize = 0;
    let mut i: usize = 0;
    while i < items.len()
        invariant
            i <= items@.len(),
            n == count_source(derefs(items@).take(i as int), s@),
            n <= i,
        decreases items@.len() - i,
    {
        assert(derefs(items@).take(i as int + 1).drop_last() =~= derefs(items@).take(i as int));
        if str_eq(items[i].key.source.as_str(), s) {
            n += 1;
        }
        i += 1;
    }
    assert(derefs(items@).take(items@.len() as int) =~= derefs(items@));
    n
}

/// The root's row of the status report.
pub open spec fn root_row(row: FederationSourceStatus, l: FederationLayout, c: GraphComposition) -> bool {
    let root = l.repository_root@;
    &&& row.source@ == l.root_source@
    &&& row.layer == Layer::Local
    &&& row.pin is None
    &&& row.manifest_version == Some(2u32)
    &&& views(row.source_route@) == seq![l.root_source@]
    &&& row.route_count == 1
    &&& row.config_path@ == relative_spec(root, l.root_config_path@)
    &&& opt_view(row.manifest_path) == Some(relative_spec(root, l.manifest_path@))
    &&& row.corpus_path@ == relative_spec(root, l.root_corpus_root@)
    &&& row.artifact_count == count_source(c.catalog_view(), l.root_source@)
    &&& row.effective_artifact_count == count_source(effective_items(c), l.root_source@)
    &&& row.writable
}

/// The row of inherited source `n`.
pub open spec fn node_row(row: FederationSourceStatus, l: FederationLayout, c: GraphComposition, n: FederationNodeLayout) -> bool {
    let root = l.repository_root@;
    &&& row.source@ == n.source@
    &&& row.layer == Layer::Inherited
    &&& opt_view(row.pin) == Some(n.digest@)
    &&& row.manifest_version == n.manifest_version
    &&& views(row.source_route@) == views(n.source_route@)
    &&& row.route_count == n.route_count
    &&& row.config_path@ == relative_spec(root, n.config_path@)
    &&& opt_view(row.manifest_path) == match n.manifest_path {
        Some(m) => Some(relative_spec(root, m@)),
        None => None,
    }
    &&& row.corpus_path@ == relative_spec(root, n.corpus_root@)
    &&& row.artifact_count == count_source(c.catalog_view(), n.source@)
    &&& row.effective_artifact_count == count_source(effective_items(c), n.source@)
    &&& !row.writable
}

/// The row of edge `e`.
pub open spec fn edge_row(row: FederationEdgeStatus, l: FederationLayout, e: VerifiedFederationEdge) -> bool {
    &&& row.owner_source@ == e.owner_source@
    &&& row.alias@ == e.alias@
    &&& row.target_source@ == e.target_source@
    &&& row.declared_pin@ == e.declared_digest@
    &&& row.canonical_pin@ == e.canonical_digest@
    &&& row.root@ == e.root@
    &&& row.corpus@ == e.corpus@
    &&& row.materialisation_root@ == relative_spec(l.repository_root@, e.materialisation_root@)
    &&& row.corpus_path@ == relative_spec(l.repository_root@, e.corpus_root@)
}

/// Inherited sources are listed by source.
pub open spec fn node_keys(l: FederationLayout) -> Seq<Seq<Seq<char>>> {
    Seq::new(l.nodes@.len(), |i: int| seq![l.nodes@[i].source@])
}

/// Edges are listed by owner, alias, target and materialisation root.
pub open spec fn edge_keys(l: FederationLayout) -> Seq<Seq<Seq<char>>> {
    Seq::new(l.edges@.len(), |i: int| seq![l.edges@[i].owner_source@, l.edges@[i].alias@, l.edges@[i].target_source@,
        relative_spec(l.repository_root@, l.edges@[i].materialisation_root@)])
}

/// The deepest canonical route of the first `upto` nodes, in edges.
pub open spec fn max_depth_upto(nodes: Seq<FederationNodeLayout>, upto: int) -> nat
    decreases upto,
{
    if upto <= 0 {
        0
    } else {
        let d: nat = if nodes[upto - 1].source_route@.len() > 0 { (nodes[upto - 1].source_route@.len() - 1) as nat } else { 0 };
        let prev = max_depth_upto(nodes, upto - 1);
        if d > prev { d } else { prev }
    }
}

/// The materialisation roots as shown, relative to the repository root.
pub open spec fn shown_roots(l: FederationLayout) -> Seq<Seq<char>> {
    Seq::new(l.materialisation_roots@.len(), |i: int| relative_spec(l.repository_root@, l.materialisation_roots@[i]@))
}

/// What the status report says of a verified federation and its
/// composition.
pub open spec fn reports_status(r: FederationStatusReport, l: FederationLayout, c: GraphComposition) -> bool {
    &&& r.root_source@ == l.root_source@
    &&& r.root_corpus@ == l.root_corpus_path@
    &&& r.sources@.len() == l.nodes@.len() + 1
    &&& root_row(r.sources@[0], l, c)
    &&& exists|ord: Seq<usize>| #[trigger] orders_keys(node_keys(l), ord)
        && forall|t: int| 0 <= t < l.nodes@.len() ==> node_row(#[trigger] r.sources@[t + 1], l, c, l.nodes@[ord[t] as int])
    &&& r.edges@.len() == l.edges@.len()
    &&& exists|ord: Seq<usize>| #[trigger] orders_keys(edge_keys(l), ord)
        && forall|t: int| 0 <= t < l.edges@.len() ==> edge_row(#[trigger] r.edges@[t], l, l.edges@[ord[t] as int])
    &&& strictly_ascending(views(r.read_only_roots@))
    &&& forall|x: Seq<char>| views(r.read_only_roots@).contains(x) <==> shown_roots(l).contains(x)
    &&& r.summary.sources == l.nodes@.len() + 1
    &&& r.summary.inherited_sources == l.nodes@.len()
    &&& r.summary.edges == l.edges@.len()
    &&& r.summary.physical_routes == l.materialisation_roots@.len()
    &&& r.summary.max_depth == max_depth_upto(l.nodes@, l.nodes@.len() as int)
    &&& r.summary.catalog_artifacts == c.catalog_view().len()
    &&& r.summary.effective_artifacts == effective_items(c).len()
    &&& r.summary.root_local_artifacts == root_local_items(c).len()
    &&& r.summary.overrides == c.ordered_view().len()
    &&& r.summary.read_only_roots == r.read_only_roots@.len()
}

fn root_status(l: &FederationLayout, c: &GraphComposition, effective: &Vec<&CorpusItem>) -> (r: FederationSourceStatus)
    requires
        derefs(effective@) == effective_items(*c),
    ensures
        root_row(r, *l, *c),
{
    let root = l.repository_root.as_str();
    let route = vec![l.root_source.clone()];
    assert(views(route@) =~= seq![l.root_source@]);
    FederationSourceStatus {
        source: l.root_source.clone(),
        layer: Layer::Local,
        pin: None,
        manifest_version: Some(2),
        source_route: route,
        route_count: 1,
        config_path: relative_display(root, l.root_config_path.as_str()),
        manifest_path: Some(relative_display(root, l.manifest_path.as_str())),
        corpus_path: relative_display(root, l.root_corpus_root.as_str()),
        artifact_count: count_in(c.catalog(), l.root_source.as_str()),
        effective_artifact_count: count_in_refs(effective, l.root_source.as_str()),
        writable: true,
    }
}

fn node_status(l: &FederationLayout, c: &GraphComposition, effective: &Vec<&CorpusItem>, n: &FederationNodeLayout) -> (r: FederationSourceStatus)
    requires
        derefs(effective@) == effective_items(*c),
    ensures
        node_row(r, *l, *c, *n),
{
    let root = l.repository_root.as_str();
    let manifest_path = match &n.manifest_path {
        Some(m) => Some(relative_display(root, m.as_str())),
        None => None,
    };
    let route = copy_strings(&n.source_route);
    FederationSourceStatus {
        source: n.source.clone(),
        layer: Layer::Inherited,
        pin: Some(n.digest.clone()),
        manifest_version: n.manifest_version,
        source_route: route,
        route_count: n.route_count,
        config_path: relative_display(root, n.config_path.as_str()),
        manifest_path,
        corpus_path: relative_display(root, n.corpus_root.as_str()),
        artifact_count: count_in(c.catalog(), n.source.as_str()),
        effective_artifact_count: count_in_refs(effective, n.source.as_str()),
        writable: false,
    }
}

fn edge_status(l: &FederationLayout, e: &VerifiedFederationEdge) -> (r: FederationEdgeStatus)
    ensures
        edge_row(r, *l, *e),
{
    let root = l.repository_root.as_str();
    FederationEdgeStatus {
        owner_source: e.owner_source.clone(),
        alias: e.alias.clone(),
        target_source: e.target_source.clone(),
        declared_pin: e.declared_digest.clone(),
        canonical_pin: e.canonical_digest.clone(),
        root: e.root.clone(),
        corpus: e.corpus.clone(),
        materialisation_root: relative_display(root, e.materialisation_root.as_str()),
        corpus_path: relative_display(root, e.corpus_root.as_str()),
    }
}

fn max_depth(nodes: &Vec<FederationNodeLayout>) -> (r: usize)
    ensures
        r == max_depth_upto(nodes@, nodes@.len() as int),
{
    let mut m: usize = 0;
    let mut i: usize = 0;
    while i < nodes.len()
        invariant
            i <= nodes@.len(),
            m == max_depth_upto(nodes@, i as int),
        decreases nodes@.len() - i,
    {
        let len = nodes[i].source_route.len();
        let d: usize = if len > 0 { len - 1 } else { 0 };
        if d > m {
            m = d;
        }
        i += 1;
    }
    m
}

impl FederationStatusReport {
    /// The shape of a verified federation and what its composition holds.
    pub fn from_corpus(layout: &FederationLayout, composition: &GraphComposition) -> (r: Self)
        ensures
            reports_status(r, *layout, *composition),
    {
        let l = layout;
        let root = l.repository_root.as_str();
        let effective = composition.effective();
        let mut sources: Vec<FederationSourceStatus> = Vec::new();
        sources.push(root_status(l, composition, &effective));

        let mut nkeys: Vec<Vec<String>> = Vec::new();
        let mut i: usize = 0;
        while i < l.nodes.len()
            invariant
                i <= l.nodes@.len(),
                nkeys@.len() == i,
                forall|k: int| 0 <= k < i ==> strings_view(#[trigger] nkeys@[k]@) == node_keys(*l)[k],
            decreases l.nodes@.len() - i,
        {
            let key = vec![l.nodes[i].source.clone()];
            assert(strings_view(key@) =~= node_keys(*l)[i as int]);
            nkeys.push(key);
            i += 1;
        }
        assert(keys_views(nkeys@) =~= node_keys(*l));
        let nord = sort_indices(nkeys);
        let mut t: usize = 0;
        while t < nord.len()
            invariant
                t <= nord@.len(),
                orders_keys(node_keys(*l), nord@),
                derefs(effective@) == effective_items(*composition),
                sources@.len() == t + 1,
                root_row(sources@[0], *l, *composition),
                forall|q: int| 0 <= q < t ==> node_row(#[trigger] sources@[q + 1], *l, *composition, l.nodes@[nord@[q] as int]),
            decreases nord@.len() - t,
        {
            let row = node_status(l, composition, &effective, &l.nodes[nord[t]]);
            sources.push(row);
            t += 1;
        }

        let mut ekeys: Vec<Vec<String>> = Vec::new();
        let mut i: usize = 0;
        while i < l.edges.len()
            invariant
                i <= l.edges@.len(),
                root@ == l.repository_root@,
                ekeys@.len() == i,
                forall|k: int| 0 <= k < i ==> strings_view(#[trigger] ekeys@[k]@) == edge_keys(*l)[k],
            decreases l.edges@.len() - i,
        {
            let e = &l.edges[i];
            let shown_root = relative_display(root, e.materialisation_root.as_str());
            assert(shown_root@ == relative_spec(l.repository_root@, l.edges@[i as int].materialisation_root@));
            let key = vec![e.owner_source.clone(), e.alias.clone(), e.target_source.clone(), shown_root];
            assert(strings_view(key@) =~= edge_keys(*l)[i as int]);
            ekeys.push(key);
            i += 1;
        }
        assert(keys_views(ekeys@) =~= edge_keys(*l));
        let eord = sort_indices(ekeys);
        let mut edges: Vec<FederationEdgeStatus> = Vec::new();
        let mut t: usize = 0;
        while t < eord.len()
            invariant
                t <= eord@.len(),
                orders_keys(edge_keys(*l), eord@),
                edges@.len() == t,
                forall|q: int| 0 <= q < t ==> edge_row(#[trigger] edges@[q], *l, l.edges@[eord@[q] as int]),
            decreases eord@.len() - t,
        {
            edges.push(edge_status(l, &l.edges[eord[t]]));
            t += 1;
        }

        let mut shown: Vec<String> = Vec::new();
        let mut i: usize = 0;
        while i < l.materialisation_roots.len()
            invariant
                i <= l.materialisation_roots@.len(),
                root@ == l.repository_root@,
                views(shown@) == shown_roots(*l).take(i as int),
            decreases l.materialisation_roots@.len() - i,
        {
            let shown_root = relative_display(root, l.materialisation_roots[i].as_str());
            assert(shown_root@ == shown_roots(*l)[i as int]);
            let ghost before = shown@;
            shown.push(shown_root);
            assert(shown@ == before.push(shown_root));
            assert(views(shown@) =~= views(before).push(shown_root@));
            assert(shown_roots(*l).take(i as int + 1) =~= shown_roots(*l).take(i as int).push(shown_roots(*l)[i as int]));
            assert(views(shown@) =~= shown_roots(*l).take(i as int + 1));
            i += 1;
        }
        assert(shown_roots(*l).take(shown_roots(*l).len() as int) =~= shown_roots(*l));
        let read_only_roots = sorted_unique(&shown);

        let summary = FederationStatusSummary {
            sources: sources.len(),
            inherited_sources: l.nodes.len(),
            edges: edges.len(),
            physical_routes: l.materialisation_roots.len(),
            max_depth: max_depth(&l.nodes),
            catalog_artifacts: composition.catalog().len(),
            effective_artifacts: effective.len(),
            root_local_artifacts: composition.root_local().len(),
            overrides: composition.ordered_overrides().len(),
            read_only_roots: read_only_roots.len(),
        };
        let r = FederationStatusReport {
            root_source: l.root_source.clone(),
            root_corpus: l.root_corpus_path.clone(),
            summary,
            sources,
            edges,
            read_only_roots,
        };
        proof {
            assert(orders_keys(node_keys(*l), nord@));
            assert(orders_keys(edge_keys(*l), eord@));
        }
        r
    }
}


/// `s` after a count of one, else nothing.
pub open spec fn plural(n: nat) -> Seq<char> {
    if n == 1 { ""@ } else { "s"@ }
}

/// The lines of one source.
pub open spec fn source_text(s: FederationSourceStatus) -> Seq<char> {
    "- "@ + s.source@ + " ["@ + layer_word(s.layer) + "] artifacts "@ + decimal(s.effective_artifact_count as nat) + "/"@
        + decimal(s.artifact_count as nat) + "; route "@ + join(views(s.source_route@), " -> "@) + " ("@
        + decimal(s.route_count as nat) + " physical route"@ + plural(s.route_count as nat) + "); "@
        + (if s.writable { "writable"@ } else { "read-only"@ }) + "\n"@
        + match s.pin {
            Some(p) => "  pin: "@ + p@ + "\n"@,
            None => ""@,
        }
        + "  corpus: "@ + s.corpus_path@ + "\n"@
}

pub open spec fn sources_text(v: Seq<FederationSourceStatus>) -> Seq<char>
    decreases v.len(),
{
    if v.len() == 0 { ""@ } else { sources_text(v.drop_last()) + source_text(v.last()) }
}

/// The lines of one edge.
pub open spec fn edge_text(e: FederationEdgeStatus) -> Seq<char> {
    "- "@ + e.owner_source@ + " --"@ + e.alias@ + "--> "@ + e.target_source@ + " ("@ + e.root@ + "/"@ + e.corpus@ + ")\n"@
        + "  pin: "@ + e.canonical_pin@ + "\n"@
        + "  materialised: "@ + e.materialisation_root@ + "\n"@
}

pub open spec fn edges_text(v: Seq<FederationEdgeStatus>) -> Seq<char>
    decreases v.len(),
{
    if v.len() == 0 { ""@ } else { edges_text(v.drop_last()) + edge_text(v.last()) }
}

/// The operator text of a status report.
pub open spec fn status_text(r: FederationStatusReport) -> Seq<char> {
    let m = r.summary;
    "PASS  Federation verified\n"@
        + "Root: "@ + r.root_source@ + " ("@ + r.root_corpus@ + ")\n"@
        + "Sources: "@ + decimal(m.sources as nat) + " ("@ + decimal(m.inherited_sources as nat) + " inherited) | edges: "@
        + decimal(m.edges as nat) + " | physical routes: "@ + decimal(m.physical_routes as nat) + " | max depth: "@
        + decimal(m.max_depth as nat) + "\n"@
        + "Artifacts: "@ + decimal(m.catalog_artifacts as nat) + " catalog | "@ + decimal(m.effective_artifacts as nat)
        + " effective | "@ + decimal(m.root_local_artifacts as nat) + " root-local | overrides: "@
        + decimal(m.overrides as nat) + "\n"@
        + "Pins: exact and verified from local bytes (offline)\n"@
        + "\nSources:\n"@ + sources_text(r.sources@)
        + "\nEdges:\n"@ + edges_text(r.edges@)
        + "\nRead-only boundaries: "@ + decimal(m.read_only_roots as nat) + " verified materialisation root"@
        + plural(m.read_only_roots as nat)
}

fn push_count(out: &mut String, n: usize)
    ensures
        final(out)@ == old(out)@ + decimal(n as nat),
{
    let d = usize_to_string(n);
    push_str(out, d.as_str());
}

fn push_plural(out: &mut String, n: usize)
    ensures
        final(out)@ == old(out)@ + plural(n as nat),
{
    if n == 1 {
        push_str(out, "");
    } else {
        push_str(out, "s");
    }
}

fn source_lines(s: &FederationSourceStatus) -> (r: String)
    ensures
        r@ == source_text(*s),
{
    let mut out = String::new();
    push_str(&mut out, "- ");
    push_str(&mut out, s.source.as_str());
    push_str(&mut out, " [");
    push_str(&mut out, s.layer.as_str());
    push_str(&mut out, "] artifacts ");
    push_count(&mut out, s.effective_artifact_count);
    push_str(&mut out, "/");
    push_count(&mut out, s.artifact_count);
    push_str(&mut out, "; route ");
    let route = join_strings(&s.source_route, " -> ");
    push_str(&mut out, route.as_str());
    push_str(&mut out, " (");
    push_count(&mut out, s.route_count);
    push_str(&mut out, " physical route");
    push_plural(&mut out, s.route_count);
    push_str(&mut out, "); ");
    if s.writable {
        push_str(&mut out, "writable");
    } else {
        push_str(&mut out, "read-only");
    }
    push_str(&mut out, "\n");
    let ghost before_pin = out@;
    match &s.pin {
        Some(p) => {
            push_str(&mut out, "  pin: ");
            push_str(&mut out, p.as_str());
            push_str(&mut out, "\n");
        },
        None => {
            push_str(&mut out, "");
        },
    }
    push_str(&mut out, "  corpus: ");
    push_str(&mut out, s.corpus_path.as_str());
    push_str(&mut out, "\n");
    assert(out@ =~= source_text(*s));
    out
}

fn edge_lines(e: &FederationEdgeStatus) -> (r: String)
    ensures
        r@ == edge_text(*e),
{
    let mut out = String::new();
    push_str(&mut out, "- ");
    push_str(&mut out, e.owner_source.as_str());
    push_str(&mut out, " --");
    push_str(&mut out, e.alias.as_str());
    push_str(&mut out, "--> ");
    push_str(&mut out, e.target_source.as_str());
    push_str(&mut out, " (");
    push_str(&mut out, e.root.as_str());
    push_str(&mut out, "/");
    push_str(&mut out, e.corpus.as_str());
    push_str(&mut out, ")\n");
    push_str(&mut out, "  pin: ");
    push_str(&mut out, e.canonical_pin.as_str());
    push_str(&mut out, "\n");
    push_str(&mut out, "  materialised: ");
    push_str(&mut out, e.materialisation_root.as_str());
    push_str(&mut out, "\n");
    assert(out@ =~= edge_text(*e));
    out
}

impl FederationStatusReport {
    /// The report as operators read it.
    pub fn render_human(&self) -> (r: String)
        ensures
            r@ == status_text(*self),
    {
        let m = self.summary;
        let mut head = String::new();
        push_str(&mut head, "PASS  Federation verified\n");
        push_str(&mut head, "Root: ");
        push_str(&mut head, self.root_source.as_str());
        push_str(&mut head, " (");
        push_str(&mut head, self.root_corpus.as_str());
        push_str(&mut head, ")\n");
        push_str(&mut head, "Sources: ");
        push_count(&mut head, m.sources);
        push_str(&mut head, " (");
        push_count(&mut head, m.inherited_sources);
        push_str(&mut head, " inherited) | edges: ");
        push_count(&mut head, m.edges);
        push_str(&mut head, " | physical routes: ");
        push_count(&mut head, m.physical_routes);
        push_str(&mut head, " | max depth: ");
        push_count(&mut head, m.max_depth);
        push_str(&mut head, "\n");
        push_str(&mut head, "Artifacts: ");
        push_count(&mut head, m.catalog_artifacts);
        push_str(&mut head, " catalog | ");
        push_count(&mut head, m.effective_artifacts);
        push_str(&mut head, " effective | ");
        push_count(&mut head, m.root_local_artifacts);
        push_str(&mut head, " root-local | overrides: ");
        push_count(&mut head, m.overrides);
        push_str(&mut head, "\n");
        push_str(&mut head, "Pins: exact and verified from local bytes (offline)\n");
        push_str(&mut head, "\nSources:\n");
        let ghost head_text = head@;

        let mut body = String::new();
        proof {
            reveal_strlit("");
            assert(self.sources@.take(0) =~= Seq::<FederationSourceStatus>::empty());
            assert(body@ =~= sources_text(self.sources@.take(0)));
        }
        let mut i: usize = 0;
        while i < self.sources.len()
            invariant
                i <= self.sources@.len(),
                body@ == sources_text(self.sources@.take(i as int)),
            decreases self.sources@.len() - i,
        {
            let line = source_lines(&self.sources[i]);
            push_str(&mut body, line.as_str());
            assert(self.sources@.take(i as int + 1).drop_last() =~= self.sources@.take(i as int));
            i += 1;
        }
        assert(self.sources@.take(self.sources@.len() as int) =~= self.sources@);
        let ghost sources_part = body@;

        let mut tail = String::new();
        push_str(&mut tail, "\nEdges:\n");
        proof {
            reveal_strlit("");
            assert(self.edges@.take(0) =~= Seq::<FederationEdgeStatus>::empty());
            assert(tail@ =~= "\nEdges:\n"@ + edges_text(self.edges@.take(0)));
        }
        let mut i: usize = 0;
        while i < self.edges.len()
            invariant
                i <= self.edges@.len(),
                tail@ == "\nEdges:\n"@ + edges_text(self.edges@.take(i as int)),
            decreases self.edges@.len() - i,
        {
            let line = edge_lines(&self.edges[i]);
            push_str(&mut tail, line.as_str());
            assert(self.edges@.take(i as int + 1).drop_last() =~= self.edges@.take(i as int));
            assert(tail@ =~= "\nEdges:\n"@ + edges_text(self.edges@.take(i as int + 1)));
            i += 1;
        }
        assert(self.edges@.take(self.edges@.len() as int) =~= self.edges@);
        push_str(&mut tail, "\nRead-only boundaries: ");
        push_count(&mut tail, m.read_only_roots);
        push_str(&mut tail, " verified materialisation root");
        push_plural(&mut tail, m.read_only_roots);

        let mut out = head;
        push_str(&mut out, body.as_str());
        push_str(&mut out, tail.as_str());
        assert(out@ =~= status_text(*self));
        out
    }
}


/// `source::id (type, layer, path)`.
pub open spec fn artifact_label_spec(a: ExplainedArtifact) -> Seq<char> {
    key_label_spec(a.key@) + " ("@ + match a.artifact_type {
        Some(t) => t@,
        None => "unknown type"@,
    } + ", "@ + layer_word(a.layer) + ", "@ + a.path@ + ")"@
}

/// The label of an explained artifact.
pub fn artifact_label(artifact: &ExplainedArtifact) -> (r: String)
    ensures
        r@ == artifact_label_spec(*artifact),
{
    let mut out = key_label(&artifact.key);
    push_str(&mut out, " (");
    match &artifact.artifact_type {
        Some(t) => push_str(&mut out, t.as_str()),
        None => push_str(&mut out, "unknown type"),
    }
    push_str(&mut out, ", ");
    push_str(&mut out, artifact.layer.as_str());
    push_str(&mut out, ", ");
    push_str(&mut out, artifact.path.as_str());
    push_str(&mut out, ")");
    assert(out@ =~= artifact_label_spec(*artifact));
    out
}

pub open spec fn labels_text(v: Seq<ExplainedArtifact>) -> Seq<char>
    decreases v.len(),
{
    if v.len() == 0 { ""@ } else { labels_text(v.drop_last()) + "- "@ + artifact_label_spec(v.last()) + "\n"@ }
}

/// One numbered provenance line.
pub open spec fn provenance_text(index: nat, m: GraphOverrideProvenance) -> Seq<char> {
    decimal(index) + ". "@ + m.owner_source@ + " ["@ + state_word(m.state) + "]: "@ + key_label_spec(m.target@) + " -> "@
        + key_label_spec(m.replacement@) + " (rationale "@ + key_label_spec(m.rationale@) + ")\n"@
}

pub open spec fn provenances_text(v: Seq<GraphOverrideProvenance>) -> Seq<char>
    decreases v.len(),
{
    if v.len() == 0 { ""@ } else { provenances_text(v.drop_last()) + provenance_text(v.len(), v.last()) }
}

pub open spec fn aliases_text(v: Seq<ExplainAlias>) -> Seq<char>
    decreases v.len(),
{
    if v.len() == 0 { ""@ } else { aliases_text(v.drop_last()) + "- "@ + v.last().alias@ + " -> "@ + v.last().source@ + "\n"@ }
}

/// The operator text of an explanation, before trailing whitespace is cut.
pub open spec fn explain_body(r: FederationExplainReport) -> Seq<char> {
    explain_head(r) + explain_picks(r) + explain_candidates(r) + explain_tail(r)
}

fn labels_lines(v: &Vec<ExplainedArtifact>) -> (r: String)
    ensures
        r@ == labels_text(v@),
{
    let mut out = String::new();
    proof {
        reveal_strlit("");
        assert(out@ =~= labels_text(v@.take(0)));
    }
    let mut i: usize = 0;
    while i < v.len()
        invariant
            i <= v@.len(),
            out@ == labels_text(v@.take(i as int)),
        decreases v@.len() - i,
    {
        let label = artifact_label(&v[i]);
        push_str(&mut out, "- ");
        push_str(&mut out, label.as_str());
        push_str(&mut out, "\n");
        assert(v@.take(i as int + 1).drop_last() =~= v@.take(i as int));
        assert(out@ =~= labels_text(v@.take(i as int + 1)));
        i += 1;
    }
    assert(v@.take(v@.len() as int) =~= v@);
    out
}

fn provenance_line(index: usize, m: &GraphOverrideProvenance) -> (r: String)
    ensures
        r@ == provenance_text(index as nat, *m),
{
    let mut out = usize_to_string(index);
    push_str(&mut out, ". ");
    push_str(&mut out, m.owner_source.as_str());
    push_str(&mut out, " [");
    push_str(&mut out, m.state.as_str());
    push_str(&mut out, "]: ");
    let t = key_label(&m.target);
    push_str(&mut out, t.as_str());
    push_str(&mut out, " -> ");
    let p = key_label(&m.replacement);
    push_str(&mut out, p.as_str());
    push_str(&mut out, " (rationale ");
    let q = key_label(&m.rationale);
    push_str(&mut out, q.as_str());
    push_str(&mut out, ")\n");
    assert(out@ =~= provenance_text(index as nat, *m));
    out
}

fn provenance_lines(v: &Vec<GraphOverrideProvenance>) -> (r: String)
    ensures
        r@ == provenances_text(v@),
{
    let mut out = String::new();
    proof {
        reveal_strlit("");
        assert(out@ =~= provenances_text(v@.take(0)));
    }
    let mut i: usize = 0;
    while i < v.len()
        invariant
            i <= v@.len(),
            out@ == provenances_text(v@.take(i as int)),
        decreases v@.len() - i,
    {
        let line = provenance_line(i + 1, &v[i]);
        push_str(&mut out, line.as_str());
        proof {
            let t = v@.take(i as int + 1);
            assert(t.drop_last() =~= v@.take(i as int));
            assert(t.len() == i + 1);
            assert(t.last() == v@[i as int]);
        }
        i += 1;
    }
    assert(v@.take(v@.len() as int) =~= v@);
    out
}

fn alias_lines(v: &Vec<ExplainAlias>) -> (r: String)
    ensures
        r@ == aliases_text(v@),
{
    let mut out = String::new();
    proof {
        reveal_strlit("");
        assert(out@ =~= aliases_text(v@.take(0)));
    }
    let mut i: usize = 0;
    while i < v.len()
        invariant
            i <= v@.len(),
            out@ == aliases_text(v@.take(i as int)),
        decreases v@.len() - i,
    {
        push_str(&mut out, "- ");
        push_str(&mut out, v[i].alias.as_str());
        push_str(&mut out, " -> ");
        push_str(&mut out, v[i].source.as_str());
        push_str(&mut out, "\n");
        assert(v@.take(i as int + 1).drop_last() =~= v@.take(i as int));
        assert(out@ =~= aliases_text(v@.take(i as int + 1)));
        i += 1;
    }
    assert(v@.take(v@.len() as int) =~= v@);
    out
}

/// The heading, context and reason lines.
pub open spec fn explain_head(r: FederationExplainReport) -> Seq<char> {
    ascii_upper_seq(r.outcome@) + "  "@ + r.reference@ + "\n"@
        + "Context: "@ + r.context@ + "\n"@
        + "Reason: "@ + r.message@ + "\n"@
}

/// The selected and effective lines.
pub open spec fn explain_picks(r: FederationExplainReport) -> Seq<char> {
    (match r.selected {
        Some(a) => "Selected: "@ + artifact_label_spec(a) + "\n"@,
        None => ""@,
    })
        + match r.effective_terminal {
            Some(a) => "Effective: "@ + artifact_label_spec(a) + "\n"@,
            None => ""@,
        }
}

/// The candidate lists.
pub open spec fn explain_candidates(r: FederationExplainReport) -> Seq<char> {
    (if r.historical_candidates@.len() > 0 { "\nHistorical candidates:\n"@ + labels_text(r.historical_candidates@) } else { ""@ })
        + (if r.effective_candidates@.len() > 0 { "\nEffective candidates:\n"@ + labels_text(r.effective_candidates@) } else { ""@ })
}

/// The override and alias sections.
pub open spec fn explain_tail(r: FederationExplainReport) -> Seq<char> {
    (if r.override_provenance@.len() == 0 { "\nOverrides: none\n"@ } else { "\nOverride provenance:\n"@ + provenances_text(r.override_provenance@) })
        + (if r.aliases@.len() > 0 { "\nDirect aliases from "@ + r.context@ + ":\n"@ + aliases_text(r.aliases@) } else { ""@ })
}

impl FederationExplainReport {
    fn head_lines(&self) -> (r: String)
        ensures
            r@ == explain_head(*self),
    {
        let mut out = to_ascii_upper(self.outcome);
        push_str(&mut out, "  ");
        push_str(&mut out, self.reference.as_str());
        push_str(&mut out, "\n");
        push_str(&mut out, "Context: ");
        push_str(&mut out, self.context.as_str());
        push_str(&mut out, "\n");
        push_str(&mut out, "Reason: ");
        push_str(&mut out, self.message.as_str());
        push_str(&mut out, "\n");
        assert(out@ =~= explain_head(*self));
        out
    }

    fn pick_lines(&self) -> (r: String)
        ensures
            r@ == explain_picks(*self),
    {
        let mut out = String::new();
        proof {
            reveal_strlit("");
            assert(out@ =~= ""@);
        }
        match &self.selected {
            Some(a) => {
                let label = artifact_label(a);
                push_str(&mut out, "Selected: ");
                push_str(&mut out, label.as_str());
                push_str(&mut out, "\n");
            },
            None => {},
        }
        let ghost first = out@;
        match &self.effective_terminal {
            Some(a) => {
                let label = artifact_label(a);
                push_str(&mut out, "Effective: ");
                push_str(&mut out, label.as_str());
                push_str(&mut out, "\n");
            },
            None => {},
        }
        assert(out@ =~= explain_picks(*self));
        out
    }

    fn candidate_lines(&self) -> (r: String)
        ensures
            r@ == explain_candidates(*self),
    {
        let mut out = String::new();
        proof {
            reveal_strlit("");
            assert(out@ =~= ""@);
        }
        if self.historical_candidates.len() > 0 {
            push_str(&mut out, "\nHistorical candidates:\n");
            let lines = labels_lines(&self.historical_candidates);
            push_str(&mut out, lines.as_str());
        }
        if self.effective_candidates.len() > 0 {
            push_str(&mut out, "\nEffective candidates:\n");
            let lines = labels_lines(&self.effective_candidates);
            push_str(&mut out, lines.as_str());
        }
        assert(out@ =~= explain_candidates(*self));
        out
    }

    fn tail_lines(&self) -> (r: String)
        ensures
            r@ == explain_tail(*self),
    {
        let mut out = String::new();
        proof {
            reveal_strlit("");
            assert(out@ =~= ""@);
        }
        if self.override_provenance.len() == 0 {
            push_str(&mut out, "\nOverrides: none\n");
        } else {
            push_str(&mut out, "\nOverride provenance:\n");
            let lines = provenance_lines(&self.override_provenance);
            push_str(&mut out, lines.as_str());
        }
        if self.aliases.len() > 0 {
            push_str(&mut out, "\nDirect aliases from ");
            push_str(&mut out, self.context.as_str());
            push_str(&mut out, ":\n");
            let lines = alias_lines(&self.aliases);
            push_str(&mut out, lines.as_str());
        }
        assert(out@ =~= explain_tail(*self));
        out
    }

    /// The explanation as operators read it, without trailing whitespace.
    pub fn render_human(&self) -> (r: String)
        ensures
            r@ == trim_end_white(explain_body(*self)),
    {
        let mut out = self.head_lines();
        let picks = self.pick_lines();
        push_str(&mut out, picks.as_str());
        let candidates = self.candidate_lines();
        push_str(&mut out, candidates.as_str());
        let tail = self.tail_lines();
        push_str(&mut out, tail.as_str());
        trim_end(out.as_str())
    }
}

/// The depth of a node's canonical route, in edges.
pub open spec fn route_depth(n: FederationNodeLayout) -> nat {
    if n.source_route@.len() > 0 { (n.source_route@.len() - 1) as nat } else { 0 }
}

proof fn lemma_max_depth_upto(nodes: Seq<FederationNodeLayout>, upto: int)
    requires
        0 <= upto <= nodes.len(),
    ensures
        forall|i: int| 0 <= i < upto ==> route_depth(#[trigger] nodes[i]) <= max_depth_upto(nodes, upto),
        upto == 0 ==> max_depth_upto(nodes, upto) == 0,
        upto > 0 ==> exists|i: int| 0 <= i < upto && route_depth(#[trigger] nodes[i]) == max_depth_upto(nodes, upto),
    decreases upto,
{
    if upto > 0 {
        lemma_max_depth_upto(nodes, upto - 1);
        if upto - 1 > 0 {
            let w = choose|i: int| 0 <= i < upto - 1 && route_depth(#[trigger] nodes[i]) == max_depth_upto(nodes, upto - 1);
            if max_depth_upto(nodes, upto) == max_depth_upto(nodes, upto - 1) {
                assert(route_depth(nodes[w]) == max_depth_upto(nodes, upto));
            } else {
                assert(route_depth(nodes[upto - 1]) == max_depth_upto(nodes, upto));
            }
        } else {
            assert(route_depth(nodes[upto - 1]) == max_depth_upto(nodes, upto));
        }
    }
}

/// The status report's maximum depth is the deepest canonical route among
/// the inherited sources: no source's route is deeper, some source's route
/// is that deep, and without inherited sources it is 0.
pub proof fn law_max_depth_is_the_deepest_route(r: FederationStatusReport, l: FederationLayout, c: GraphComposition)
    requires
        reports_status(r, l, c),
    ensures
        forall|i: int| 0 <= i < l.nodes@.len() ==> route_depth(#[trigger] l.nodes@[i]) <= r.summary.max_depth,
        l.nodes@.len() == 0 ==> r.summary.max_depth == 0,
        l.nodes@.len() > 0 ==> exists|i: int| 0 <= i < l.nodes@.len() && route_depth(#[trigger] l.nodes@[i]) == r.summary.max_depth,
{
    lemma_max_depth_upto(l.nodes@, l.nodes@.len() as int);
}

} // verus!
