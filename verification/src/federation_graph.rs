//! The decisions of federation verification around each captured parent:
//! limits on the walk and the closure, which entries of a checkout are
//! walked or captured, which identity changes refuse a read, sibling
//! materialisation roots that may not overlap, and a captured parent that
//! must be the declared source at the declared pin, without inheriting in
//! turn from version 1, forming a cycle, or verifying at two pins. Walking
//! and reading the checkouts is the caller's part.
use vstd::prelude::*;

use crate::federation::{digest_snapshot, digest_snapshot_v2, digest_v1_preimage, digest_v2_preimage, opt_slice, snapshot_keys, ParentCorpusError, ParentCorpusErrorCode, ParentDeclaration, SnapshotFile, DIGEST_PREFIX, DIGEST_V2_PREFIX};
use crate::hashing::{hex, sha256_digest};
use crate::order::orders_keys;
use crate::manifest::{limit_error, limit_message};
use crate::text::{join, join_strings, owned, push_str, str_eq, views};
use crate::corpus::opt_view;

verus! {

pub const V2_MAX_INHERITANCE_DEPTH: usize = 16;
pub const V2_MAX_INHERITED_SOURCES: usize = 256;
pub const V2_MAX_EDGES: usize = 1024;
pub const V2_MAX_INHERITED_FILES: usize = 50000;
pub const V2_MAX_LOGICAL_BYTES: usize = 268435456;
pub const V2_MAX_FILE_BYTES: usize = 16777216;
pub const V2_MAX_PHYSICAL_BYTES: usize = 536870912;
pub const V2_MAX_VISITED_ENTRIES: usize = 200000;

/// The running counts that the graph verification holds against its
/// limits.
#[derive(Debug, Clone, Copy, PartialEq, Eq, Default)]
pub struct GraphCounters {
    pub edges: usize,
    pub visited_entries: usize,
    pub physical_bytes: usize,
    pub logical_files: usize,
    pub logical_bytes: usize,
    pub overrides: usize,
}

/// Adds `amount` to a running count, saturating; past `limit` the count is
/// left as it was and the limit is reported at `path`.
pub fn add_limited(current: &mut usize, amount: usize, limit: usize, dimension: &str, path: &str) -> (r: Result<(), ParentCorpusError>)
    requires
        limit < usize::MAX,
    ensures
        ({
            let next = if *old(current) + amount > usize::MAX { usize::MAX as int } else { *old(current) + amount };
            if next > limit {
                &&& r matches Err(e) && e.code == ParentCorpusErrorCode::LimitExceeded
                    && e.message@ == limit_message(dimension@, limit as nat, (limit + 1) as nat)
                    && (e.path matches Some(p) && p@ == path@)
                &&& *final(current) == *old(current)
            } else {
                r is Ok && *final(current) == next
            }
        }),
{
    let next = current.saturating_add(amount);
    if next > limit {
        return Err(limit_error(path, dimension, limit, limit + 1));
    }
    *current = next;
    Ok(())
}

/// Whether `path` starts with the components of `base`
/// (`std::path::Path::starts_with`).
pub uninterp spec fn path_starts_with(path: Seq<char>, base: Seq<char>) -> bool;

/// Whether two paths have the same components (`Path == Path`).
pub uninterp spec fn path_equal(a: Seq<char>, b: Seq<char>) -> bool;

/// Calls `std::path::Path::starts_with`. Claimed: the answer depends on the
/// two strings alone (it is named `path_starts_with`), under the path rules
/// of the platform the crate is built for.
#[verifier::external_body]
pub(crate) fn starts_with_path(path: &str, base: &str) -> (r: bool)
    ensures
        r == path_starts_with(path@, base@),
{
    std::path::Path::new(path).starts_with(base)
}

/// Compares two paths with `==` on `std::path::Path`. Claimed: the answer
/// depends on the two strings alone (it is named `path_equal`), under the
/// path rules of the platform the crate is built for.
#[verifier::external_body]
pub(crate) fn equal_paths(a: &str, b: &str) -> (r: bool)
    ensures
        r == path_equal(a@, b@),
{
    std::path::Path::new(a) == std::path::Path::new(b)
}

/// Two sibling declarations conflict when their materialisation roots
/// overlap, unless they are the same root for the same source at the same
/// pin.
pub open spec fn siblings_conflict(root: Seq<char>, d: ParentDeclaration, other_root: Seq<char>, other: ParentDeclaration) -> bool {
    let overlap = path_equal(root, other_root) || path_starts_with(root, other_root) || path_starts_with(other_root, root);
    overlap && !(path_equal(root, other_root) && d.source@ == other.source@ && d.digest@ == other.digest@)
}

/// The first earlier sibling that conflicts with a new declaration.
pub open spec fn first_conflict(root: Seq<char>, d: ParentDeclaration, siblings: Seq<(String, ParentDeclaration)>, i: int) -> Option<int>
    decreases siblings.len() - i,
{
    if i >= siblings.len() {
        None
    } else if siblings_conflict(root, d, siblings[i].0@, siblings[i].1) {
        Some(i)
    } else {
        first_conflict(root, d, siblings, i + 1)
    }
}

/// `sibling parent roots overlap for '<other>' and '<source>'`.
pub open spec fn overlap_message(other: Seq<char>, source: Seq<char>) -> Seq<char> {
    "sibling parent roots overlap for '"@ + other + "' and '"@ + source + "'"@
}

/// A new declaration materialised at `root` may not overlap an earlier
/// sibling's root; the first conflict is reported at `root`.
pub fn check_siblings(root: &str, declaration: &ParentDeclaration, siblings: &Vec<(String, ParentDeclaration)>) -> (r: Result<(), ParentCorpusError>)
    ensures
        match first_conflict(root@, *declaration, siblings@, 0) {
            None => r is Ok,
            Some(i) => r matches Err(e) && e.code == ParentCorpusErrorCode::OverlappingRoots
                && e.message@ == overlap_message(siblings@[i].1.source@, declaration.source@)
                && opt_view(e.path) == Some(root@),
        },
{
    let mut i: usize = 0;
    while i < siblings.len()
        invariant
            i <= siblings@.len(),
            first_conflict(root@, *declaration, siblings@, 0) == first_conflict(root@, *declaration, siblings@, i as int),
        decreases siblings@.len() - i,
    {
        let other_root = siblings[i].0.as_str();
        let other = &siblings[i].1;
        let same = equal_paths(root, other_root);
        let overlap = same || starts_with_path(root, other_root) || starts_with_path(other_root, root);
        if overlap && !(same && str_eq(declaration.source.as_str(), other.source.as_str())
            && str_eq(declaration.digest.as_str(), other.digest.as_str())) {
            let mut m = owned("sibling parent roots overlap for '");
            push_str(&mut m, other.source.as_str());
            push_str(&mut m, "' and '");
            push_str(&mut m, declaration.source.as_str());
            push_str(&mut m, "'");
            return Err(ParentCorpusError::at(ParentCorpusErrorCode::OverlappingRoots, root, m.as_str()));
        }
        i += 1;
    }
    Ok(())
}

/// Whether the captured parent carries an inheritance manifest, and which.
#[derive(Debug, Clone, Copy, PartialEq, Eq, Structural)]
pub enum CapturedManifestKind {
    Absent,
    V1,
    V2,
}

/// A parent as its checkout was captured.
#[derive(Debug, Clone)]
pub struct CapturedNode {
    pub source: String,
    pub config_path: String,
    pub config_bytes: Vec<u8>,
    pub files: Vec<SnapshotFile>,
    /// The exact manifest bytes, when the checkout has a manifest.
    pub manifest_bytes: Option<Vec<u8>>,
    /// The version-2 digest of the capture.
    pub digest_v2: String,
    pub manifest: CapturedManifestKind,
    pub manifest_path: String,
}

pub open spec fn opt_bytes(o: Option<Vec<u8>>) -> Option<Seq<u8>> {
    match o {
        Some(m) => Some(m@),
        None => None,
    }
}

/// `v` is the version-2 digest of the captured source, config, manifest and
/// files.
pub open spec fn digest_v2_of(c: CapturedNode, v: Seq<char>) -> bool {
    exists|ord: Seq<usize>| orders_keys(snapshot_keys(c.files@), ord)
        && v == DIGEST_V2_PREFIX@ + hex(sha256_digest(#[trigger] digest_v2_preimage(c.source@, c.config_bytes@,
            opt_bytes(c.manifest_bytes), c.files@, ord)))
}

impl CapturedNode {
    /// The capture's version-2 digest is the digest of what it captured.
    pub open spec fn digested(self) -> bool {
        digest_v2_of(self, self.digest_v2@)
    }

    /// A capture of a checkout, with its version-2 digest computed from the
    /// captured source, config, manifest and files.
    pub fn new(source: String, config_path: String, config_bytes: Vec<u8>, manifest_bytes: Option<Vec<u8>>,
        files: Vec<SnapshotFile>, manifest: CapturedManifestKind, manifest_path: String) -> (r: Self)
        ensures
            r.source == source,
            r.config_path == config_path,
            r.config_bytes == config_bytes,
            r.manifest_bytes == manifest_bytes,
            r.files == files,
            r.manifest == manifest,
            r.manifest_path == manifest_path,
            r.digested(),
    {
        let digest_v2 = match &manifest_bytes {
            Some(m) => {
                let ms = m.as_slice();
                let d = digest_snapshot_v2(source.as_str(), config_bytes.as_slice(), Some(ms), files.as_slice());
                assert(opt_slice(Some(ms)) == opt_bytes(manifest_bytes));
                d
            },
            None => {
                let d = digest_snapshot_v2(source.as_str(), config_bytes.as_slice(), None, files.as_slice());
                assert(opt_slice(None) == opt_bytes(manifest_bytes));
                d
            },
        };
        let ghost mv = opt_bytes(manifest_bytes);
        proof {
            let ord = choose|ord: Seq<usize>| orders_keys(snapshot_keys(files@), ord)
                && digest_v2@ == DIGEST_V2_PREFIX@ + hex(sha256_digest(#[trigger] digest_v2_preimage(source@, config_bytes@, mv, files@, ord)));
            assert(orders_keys(snapshot_keys(files@), ord));
        }
        let r = CapturedNode { source, config_path, config_bytes, files, manifest_bytes, digest_v2, manifest, manifest_path };
        proof {
            let ord = choose|ord: Seq<usize>| orders_keys(snapshot_keys(r.files@), ord)
                && r.digest_v2@ == DIGEST_V2_PREFIX@ + hex(sha256_digest(#[trigger] digest_v2_preimage(r.source@, r.config_bytes@, opt_bytes(r.manifest_bytes), r.files@, ord)));
            assert(digest_v2_of(r, r.digest_v2@));
        }
        r
    }
}

/// Why an edge is refused once its parent is captured, as the error code,
/// the path it is reported at and the message; `verified` is the pin the
/// capture verifies to under the declaration's version, `known_pin` the pin
/// its source already verified with, if any.
pub open spec fn edge_refusal(owner_manifest: Seq<char>, d: ParentDeclaration, c: CapturedNode, verified: Seq<char>,
    owner_is_v1: bool, active: Seq<Seq<char>>, known_pin: Option<Seq<char>>) -> Option<(ParentCorpusErrorCode, Seq<char>, Seq<char>)>
{
    if c.source@ != d.source@ {
        Some((ParentCorpusErrorCode::SourceMismatch, c.config_path@,
            "manifest source '"@ + d.source@ + "' does not match inherited corpus.source '"@ + c.source@ + "'"@))
    } else if verified != d.digest@ {
        Some((ParentCorpusErrorCode::DigestMismatch, owner_manifest,
            "declared parent digest '"@ + d.digest@ + "' does not match verified digest '"@ + verified + "'"@))
    } else if owner_is_v1 && c.manifest != CapturedManifestKind::Absent {
        Some((ParentCorpusErrorCode::TransitiveInheritance, c.manifest_path@,
            "version-1 parent source '"@ + c.source@ + "' declares its own inheritance"@))
    } else if active.contains(c.source@) {
        Some((ParentCorpusErrorCode::Cycle, owner_manifest,
            "federation source cycle: "@ + join(active.push(c.source@), " -> "@)))
    } else if known_pin matches Some(p) && p != c.digest_v2@ {
        Some((ParentCorpusErrorCode::DivergentPin, owner_manifest,
            "source '"@ + c.source@ + "' verified with divergent pins '"@ + known_pin.unwrap() + "' and '"@ + c.digest_v2@ + "'"@))
    } else {
        None
    }
}

pub(crate) fn contains_string(v: &Vec<String>, s: &str) -> (r: bool)
    ensures
        r == views(v@).contains(s@),
{
    let mut i: usize = 0;
    while i < v.len()
        invariant
            i <= v@.len(),
            forall|k: int| 0 <= k < i ==> v@[k]@ != s@,
        decreases v@.len() - i,
    {
        if str_eq(v[i].as_str(), s) {
            assert(views(v@)[i as int] == s@);
            return true;
        }
        i += 1;
    }
    proof {
        if views(v@).contains(s@) {
            let k = choose|k: int| 0 <= k < views(v@).len() && views(v@)[k] == s@;
            assert(v@[k]@ == s@);
        }
    }
    false
}

pub open spec fn opt_str(o: Option<&str>) -> Option<Seq<char>> {
    match o {
        Some(k) => Some(k@),
        None => None,
    }
}

/// `v` is the pin a capture verifies to under the declaration's version:
/// its version-1 snapshot digest for a version-1 declaration, else its
/// version-2 digest.
pub open spec fn verified_pin(d: ParentDeclaration, c: CapturedNode, v: Seq<char>) -> bool {
    if d.version == 1 {
        exists|ord: Seq<usize>| orders_keys(snapshot_keys(c.files@), ord)
            && v == DIGEST_PREFIX@ + hex(sha256_digest(#[trigger] digest_v1_preimage(c.source@, c.config_bytes@, c.files@, ord)))
    } else {
        digest_v2_of(c, v)
    }
}

/// Checks one captured edge: the pin it verifies to is the version-1 digest
/// of the capture for a version-1 declaration and its version-2 digest
/// otherwise. On success the verified pin is returned.
pub fn check_captured_edge(
    owner_manifest: &str,
    declaration: &ParentDeclaration,
    captured: &CapturedNode,
    owner_is_v1: bool,
    active_sources: &Vec<String>,
    known_pin: Option<&str>,
) -> (r: Result<String, ParentCorpusError>)
    requires
        captured.digested(),
    ensures
        match r {
            Ok(p) => edge_refusal(owner_manifest@, *declaration, *captured, p@, owner_is_v1, views(active_sources@),
                opt_str(known_pin)) is None
                && verified_pin(*declaration, *captured, p@),
            Err(e) => e.path is Some && exists|v: Seq<char>| verified_pin(*declaration, *captured, v)
                && #[trigger] edge_refusal(owner_manifest@, *declaration, *captured, v, owner_is_v1, views(active_sources@),
                    opt_str(known_pin)) == Some((e.code, e.path.unwrap()@, e.message@)),
        },
{
    let ghost kp = opt_str(known_pin);
    let verified = if declaration.version == 1 {
        digest_snapshot(captured.source.as_str(), captured.config_bytes.as_slice(), captured.files.as_slice())
    } else {
        captured.digest_v2.clone()
    };
    let ghost refusal = edge_refusal(owner_manifest@, *declaration, *captured, verified@, owner_is_v1, views(active_sources@), kp);
    if !str_eq(captured.source.as_str(), declaration.source.as_str()) {
        let mut m = owned("manifest source '");
        push_str(&mut m, declaration.source.as_str());
        push_str(&mut m, "' does not match inherited corpus.source '");
        push_str(&mut m, captured.source.as_str());
        push_str(&mut m, "'");
        let e = ParentCorpusError::at(ParentCorpusErrorCode::SourceMismatch, captured.config_path.as_str(), m.as_str());
        assert(refusal == Some((e.code, e.path.unwrap()@, e.message@)));
        return Err(e);
    }
    if !str_eq(verified.as_str(), declaration.digest.as_str()) {
        let mut m = owned("declared parent digest '");
        push_str(&mut m, declaration.digest.as_str());
        push_str(&mut m, "' does not match verified digest '");
        push_str(&mut m, verified.as_str());
        push_str(&mut m, "'");
        let e = ParentCorpusError::at(ParentCorpusErrorCode::DigestMismatch, owner_manifest, m.as_str());
        assert(refusal == Some((e.code, e.path.unwrap()@, e.message@)));
        return Err(e);
    }
    if owner_is_v1 && captured.manifest != CapturedManifestKind::Absent {
        let mut m = owned("version-1 parent source '");
        push_str(&mut m, captured.source.as_str());
        push_str(&mut m, "' declares its own inheritance");
        let e = ParentCorpusError::at(ParentCorpusErrorCode::TransitiveInheritance, captured.manifest_path.as_str(), m.as_str());
        assert(refusal == Some((e.code, e.path.unwrap()@, e.message@)));
        return Err(e);
    }
    if contains_string(active_sources, captured.source.as_str()) {
        let mut route = crate::corpus::copy_strings(active_sources);
        route.push(captured.source.clone());
        assert(views(route@) =~= views(active_sources@).push(captured.source@));
        let joined = join_strings(&route, " -> ");
        let mut m = owned("federation source cycle: ");
        push_str(&mut m, joined.as_str());
        let e = ParentCorpusError::at(ParentCorpusErrorCode::Cycle, owner_manifest, m.as_str());
        assert(refusal == Some((e.code, e.path.unwrap()@, e.message@)));
        return Err(e);
    }
    match known_pin {
        Some(existing) => {
            if !str_eq(existing, captured.digest_v2.as_str()) {
                let mut m = owned("source '");
                push_str(&mut m, captured.source.as_str());
                push_str(&mut m, "' verified with divergent pins '");
                push_str(&mut m, existing);
                push_str(&mut m, "' and '");
                push_str(&mut m, captured.digest_v2.as_str());
                push_str(&mut m, "'");
                let e = ParentCorpusError::at(ParentCorpusErrorCode::DivergentPin, owner_manifest, m.as_str());
                assert(refusal == Some((e.code, e.path.unwrap()@, e.message@)));
                return Err(e);
            }
        },
        None => {},
    }
    Ok(verified)
}


/// What a snapshot walk does with one directory entry.
#[derive(Debug, Clone, Copy, PartialEq, Eq, Structural)]
pub enum EntryAction {
    /// Left out: excluded, not valid UTF-8, hidden, or neither a directory
    /// nor Markdown.
    Skip,
    /// A directory to walk.
    Descend,
    /// A Markdown file to capture.
    Capture,
    /// A symbolic link, which an inherited corpus may not hold.
    RefuseSymlink,
    /// Markdown that is not a regular file.
    RefuseIrregular,
}

/// The walk's decision for one entry, given its name (when it is valid
/// UTF-8), whether it lies under an excluded path, and its file type.
pub open spec fn entry_action_spec(name: Option<Seq<char>>, excluded: bool, is_symlink: bool, is_dir: bool, is_file: bool) -> EntryAction {
    if excluded {
        EntryAction::Skip
    } else if is_symlink {
        EntryAction::RefuseSymlink
    } else {
        match name {
            None => EntryAction::Skip,
            Some(n) => if n.len() > 0 && n[0] == '.' {
                EntryAction::Skip
            } else if is_dir {
                EntryAction::Descend
            } else if n.len() >= 3 && n.skip(n.len() - 3) == ".md"@ {
                if is_file { EntryAction::Capture } else { EntryAction::RefuseIrregular }
            } else {
                EntryAction::Skip
            },
        }
    }
}

/// Decides what the snapshot walk does with one entry.
pub fn entry_action(name: Option<&str>, excluded: bool, is_symlink: bool, is_dir: bool, is_file: bool) -> (r: EntryAction)
    ensures
        r == entry_action_spec(opt_str(name), excluded, is_symlink, is_dir, is_file),
{
    if excluded {
        return EntryAction::Skip;
    }
    if is_symlink {
        return EntryAction::RefuseSymlink;
    }
    match name {
        None => EntryAction::Skip,
        Some(n) => {
            let cs = crate::text::chars_of(n);
            let len = cs.len();
            if len > 0 && cs[0] == '.' {
                return EntryAction::Skip;
            }
            if is_dir {
                return EntryAction::Descend;
            }
            let md = len >= 3 && cs[len - 3] == '.' && cs[len - 2] == 'm' && cs[len - 1] == 'd';
            proof {
                reveal_strlit(".md");
                if len >= 3 {
                    assert(cs@.skip(len - 3) =~= seq![cs@[len - 3], cs@[len - 2], cs@[len - 1]]);
                }
            }
            if md {
                proof {
                    let t = cs@.skip(len - 3);
                    assert(t.len() == 3 && t[0] == '.' && t[1] == 'm' && t[2] == 'd');
                    assert(t =~= ".md"@);
                }
                if is_file { EntryAction::Capture } else { EntryAction::RefuseIrregular }
            } else {
                EntryAction::Skip
            }
        },
    }
}

/// Refuses an edge walk deeper than the inheritance depth limit, reported at
/// the owner's root.
pub fn check_depth(depth: usize, owner_root: &str) -> (r: Result<(), ParentCorpusError>)
    ensures
        r is Ok <==> depth <= V2_MAX_INHERITANCE_DEPTH,
        r matches Err(e) ==> e.code == ParentCorpusErrorCode::LimitExceeded
            && e.message@ == limit_message("depth"@, V2_MAX_INHERITANCE_DEPTH as nat, (V2_MAX_INHERITANCE_DEPTH + 1) as nat)
            && (e.path matches Some(p) && p@ == owner_root@),
{
    if depth > V2_MAX_INHERITANCE_DEPTH {
        return Err(limit_error(owner_root, "depth", V2_MAX_INHERITANCE_DEPTH, V2_MAX_INHERITANCE_DEPTH + 1));
    }
    Ok(())
}

/// The bytes of the first `upto` files.
pub open spec fn files_bytes(files: Seq<SnapshotFile>, upto: int) -> nat
    decreases upto,
{
    if upto <= 0 { 0 } else { files_bytes(files, upto - 1) + files[upto - 1].bytes@.len() }
}

/// What a newly verified logical source adds to the closure's byte count:
/// its configuration, its manifest and its files.
pub open spec fn node_bytes(node: CapturedNode, manifest_len: nat) -> nat {
    node.config_bytes@.len() + manifest_len + files_bytes(node.files@, node.files@.len() as int)
}

/// The counts after admitting `amount` more, saturating, or `None` past `limit`.
pub open spec fn admitted(current: nat, amount: nat, limit: nat) -> Option<nat> {
    let next = if current + amount > usize::MAX { usize::MAX as nat } else { current + amount };
    if next > limit { None } else { Some(next) }
}

/// Admits a source seen for the first time into the closure's accounting:
/// at most `V2_MAX_INHERITED_SOURCES` sources (reported at its config
/// path), then its files and bytes against their limits (reported at its
/// corpus root). `known_sources` is how many sources the closure holds,
/// `manifest_len` the length of the parent's manifest bytes (0 when it has
/// none). On a refusal the counts that were not yet admitted stay as they
/// were.
pub fn admit_logical_node(
    known_sources: usize,
    logical_files: &mut usize,
    logical_bytes: &mut usize,
    node: &CapturedNode,
    manifest_len: usize,
    corpus_root: &str,
) -> (r: Result<(), ParentCorpusError>)
    requires
        node_bytes(*node, manifest_len as nat) <= usize::MAX,
    ensures
        known_sources >= V2_MAX_INHERITED_SOURCES ==> {
            &&& r matches Err(e) && e.code == ParentCorpusErrorCode::LimitExceeded
                && e.message@ == limit_message("unique-inherited-sources"@, V2_MAX_INHERITED_SOURCES as nat, (V2_MAX_INHERITED_SOURCES + 1) as nat)
                && (e.path matches Some(p) && p@ == node.config_path@)
            &&& *final(logical_files) == *old(logical_files) && *final(logical_bytes) == *old(logical_bytes)
        },
        known_sources < V2_MAX_INHERITED_SOURCES ==> match admitted(*old(logical_files) as nat, node.files@.len(), V2_MAX_INHERITED_FILES as nat) {
            None => {
                &&& r matches Err(e) && e.code == ParentCorpusErrorCode::LimitExceeded
                    && e.message@ == limit_message("inherited-files"@, V2_MAX_INHERITED_FILES as nat, (V2_MAX_INHERITED_FILES + 1) as nat)
                    && (e.path matches Some(p) && p@ == corpus_root@)
                &&& *final(logical_files) == *old(logical_files) && *final(logical_bytes) == *old(logical_bytes)
            },
            Some(files) => {
                &&& *final(logical_files) == files
                &&& match admitted(*old(logical_bytes) as nat, node_bytes(*node, manifest_len as nat), V2_MAX_LOGICAL_BYTES as nat) {
                    None => r matches Err(e) && e.code == ParentCorpusErrorCode::LimitExceeded
                        && e.message@ == limit_message("logical-bytes"@, V2_MAX_LOGICAL_BYTES as nat, (V2_MAX_LOGICAL_BYTES + 1) as nat)
                        && (e.path matches Some(p) && p@ == corpus_root@)
                        && *final(logical_bytes) == *old(logical_bytes),
                    Some(bytes) => r is Ok && *final(logical_bytes) == bytes,
                }
            },
        },
{
    if known_sources >= V2_MAX_INHERITED_SOURCES {
        return Err(limit_error(node.config_path.as_str(), "unique-inherited-sources", V2_MAX_INHERITED_SOURCES, V2_MAX_INHERITED_SOURCES + 1));
    }
    add_limited(logical_files, node.files.len(), V2_MAX_INHERITED_FILES, "inherited-files", corpus_root)?;
    let mut total: usize = node.config_bytes.len() + manifest_len;
    let mut i: usize = 0;
    while i < node.files.len()
        invariant
            i <= node.files@.len(),
            node_bytes(*node, manifest_len as nat) <= usize::MAX,
            total == node.config_bytes@.len() + manifest_len + files_bytes(node.files@, i as int),
        decreases node.files@.len() - i,
    {
        proof {
            lemma_files_bytes_monotone(node.files@, i as int + 1, node.files@.len() as int);
        }
        total = total + node.files[i].bytes.len();
        i += 1;
    }
    add_limited(logical_bytes, total, V2_MAX_LOGICAL_BYTES, "logical-bytes", corpus_root)
}

proof fn lemma_files_bytes_monotone(files: Seq<SnapshotFile>, a: int, b: int)
    requires
        0 <= a <= b,
    ensures
        files_bytes(files, a) <= files_bytes(files, b),
    decreases b - a,
{
    if a < b {
        lemma_files_bytes_monotone(files, a, b - 1);
    }
}

/// What the filesystem reports of one file or directory that must not
/// change while it is read: device, inode, link count, length and change
/// time.
#[derive(Debug, Clone, Copy, PartialEq, Eq, Structural)]
pub struct StableFileIdentity {
    pub device: u64,
    pub inode: u64,
    pub links: u64,
    pub length: u64,
    pub changed_seconds: i64,
    pub changed_nanos: i64,
}

/// An error of `code` at `path` whose message is `prefix` then the path.
fn error_at_path(code: ParentCorpusErrorCode, path: &str, prefix: &str) -> (r: ParentCorpusError)
    ensures
        r.code == code,
        r.message@ == prefix@ + path@,
        r.path matches Some(p) && p@ == path@,
{
    let mut m = owned(prefix);
    push_str(&mut m, path);
    ParentCorpusError::at(code, path, m.as_str())
}

/// Why a federation input may not be read, judged before reading: it must
/// be a regular file that is no symbolic link, with a stable identity, a
/// single hard link when inherited, on the expected device, and within
/// `maximum` bytes.
pub open spec fn before_read_refusal(path: Seq<char>, is_symlink: bool, is_file: bool, identity: Option<StableFileIdentity>,
    inherited: bool, expected_device: Option<u64>, maximum: nat, dimension: Seq<char>) -> Option<(ParentCorpusErrorCode, Seq<char>)>
{
    if is_symlink || !is_file {
        Some((ParentCorpusErrorCode::SymlinkTraversal, "federation input must be a real regular file: "@ + path))
    } else {
        match identity {
            None => Some((ParentCorpusErrorCode::UnsupportedFilesystem, "stable file identity is unavailable for "@ + path)),
            Some(id) => if inherited && id.links != 1 {
                Some((ParentCorpusErrorCode::UnsupportedFilesystem, "inherited files must have exactly one hard link: "@ + path))
            } else if expected_device matches Some(d) && d != id.device {
                Some((ParentCorpusErrorCode::UnsupportedFilesystem, "federation input crosses a filesystem boundary: "@ + path))
            } else if id.length > maximum {
                Some((ParentCorpusErrorCode::LimitExceeded, limit_message(dimension, maximum, maximum + 1)))
            } else {
                None
            },
        }
    }
}

/// Checks a federation input before it is read. `identity` is `None` when
/// the filesystem offers no stable identity.
pub fn check_before_read(path: &str, is_symlink: bool, is_file: bool, identity: Option<StableFileIdentity>,
    inherited: bool, expected_device: Option<u64>, maximum: usize, dimension: &str) -> (r: Result<(), ParentCorpusError>)
    requires
        maximum < usize::MAX,
    ensures
        match before_read_refusal(path@, is_symlink, is_file, identity, inherited, expected_device, maximum as nat, dimension@) {
            None => r is Ok,
            Some((code, message)) => r matches Err(e) && e.code == code && e.message@ == message
                && (e.path matches Some(p) && p@ == path@),
        },
{
    if is_symlink || !is_file {
        return Err(error_at_path(ParentCorpusErrorCode::SymlinkTraversal, path, "federation input must be a real regular file: "));
    }
    let id = match identity {
        None => return Err(error_at_path(ParentCorpusErrorCode::UnsupportedFilesystem, path, "stable file identity is unavailable for ")),
        Some(id) => id,
    };
    if inherited && id.links != 1 {
        return Err(error_at_path(ParentCorpusErrorCode::UnsupportedFilesystem, path, "inherited files must have exactly one hard link: "));
    }
    match expected_device {
        Some(d) => if d != id.device {
            return Err(error_at_path(ParentCorpusErrorCode::UnsupportedFilesystem, path, "federation input crosses a filesystem boundary: "));
        },
        None => {},
    }
    if id.length > maximum as u64 {
        return Err(limit_error(path, dimension, maximum, maximum + 1));
    }
    Ok(())
}

/// Why a read is rejected once done: the identity must still be available
/// and unchanged, and exactly its length must have been read.
pub open spec fn after_read_refusal(path: Seq<char>, before: StableFileIdentity, after: Option<StableFileIdentity>, read: nat)
    -> Option<(ParentCorpusErrorCode, Seq<char>)>
{
    match after {
        None => Some((ParentCorpusErrorCode::UnsupportedFilesystem, "stable file identity is unavailable for "@ + path)),
        Some(a) => if a != before || read != before.length {
            Some((ParentCorpusErrorCode::SnapshotChanged, "federation input changed during capture: "@ + path))
        } else {
            None
        },
    }
}

/// Checks a federation input after it was read: `read` bytes came back and
/// `after` is its identity now.
pub fn check_after_read(path: &str, before: StableFileIdentity, after: Option<StableFileIdentity>, read: usize) -> (r: Result<(), ParentCorpusError>)
    ensures
        match after_read_refusal(path@, before, after, read as nat) {
            None => r is Ok,
            Some((code, message)) => r matches Err(e) && e.code == code && e.message@ == message
                && (e.path matches Some(p) && p@ == path@),
        },
{
    let a = match after {
        None => return Err(error_at_path(ParentCorpusErrorCode::UnsupportedFilesystem, path, "stable file identity is unavailable for ")),
        Some(a) => a,
    };
    if a != before || read as u64 != before.length {
        return Err(error_at_path(ParentCorpusErrorCode::SnapshotChanged, path, "federation input changed during capture: "));
    }
    Ok(())
}

/// Why a directory may not be walked: it needs a stable identity on the
/// expected device.
pub open spec fn directory_refusal(path: Seq<char>, identity: Option<StableFileIdentity>, expected_device: u64)
    -> Option<(ParentCorpusErrorCode, Seq<char>)>
{
    match identity {
        None => Some((ParentCorpusErrorCode::UnsupportedFilesystem, "stable directory identity is unavailable for "@ + path)),
        Some(id) => if id.device != expected_device {
            Some((ParentCorpusErrorCode::UnsupportedFilesystem, "federation directory crosses a filesystem boundary: "@ + path))
        } else {
            None
        },
    }
}

/// Checks a directory before it is walked.
pub fn check_directory(path: &str, identity: Option<StableFileIdentity>, expected_device: u64) -> (r: Result<StableFileIdentity, ParentCorpusError>)
    ensures
        match directory_refusal(path@, identity, expected_device) {
            None => r matches Ok(id) && identity == Some(id),
            Some((code, message)) => r matches Err(e) && e.code == code && e.message@ == message
                && (e.path matches Some(p) && p@ == path@),
        },
{
    match identity {
        None => Err(error_at_path(ParentCorpusErrorCode::UnsupportedFilesystem, path, "stable directory identity is unavailable for ")),
        Some(id) => if id.device != expected_device {
            Err(error_at_path(ParentCorpusErrorCode::UnsupportedFilesystem, path, "federation directory crosses a filesystem boundary: "))
        } else {
            Ok(id)
        },
    }
}

/// Why a walked directory is rejected afterwards: its identity must still
/// be available and unchanged.
pub open spec fn directory_after_refusal(path: Seq<char>, before: StableFileIdentity, after: Option<StableFileIdentity>)
    -> Option<(ParentCorpusErrorCode, Seq<char>)>
{
    match after {
        None => Some((ParentCorpusErrorCode::UnsupportedFilesystem, "stable directory identity is unavailable for "@ + path)),
        Some(a) => if a != before {
            Some((ParentCorpusErrorCode::SnapshotChanged, "inherited directory changed during capture: "@ + path))
        } else {
            None
        },
    }
}

/// Checks a directory once it was walked.
pub fn check_directory_after(path: &str, before: StableFileIdentity, after: Option<StableFileIdentity>) -> (r: Result<(), ParentCorpusError>)
    ensures
        match directory_after_refusal(path@, before, after) {
            None => r is Ok,
            Some((code, message)) => r matches Err(e) && e.code == code && e.message@ == message
                && (e.path matches Some(p) && p@ == path@),
        },
{
    match after {
        None => Err(error_at_path(ParentCorpusErrorCode::UnsupportedFilesystem, path, "stable directory identity is unavailable for ")),
        Some(a) => if a != before {
            Err(error_at_path(ParentCorpusErrorCode::SnapshotChanged, path, "inherited directory changed during capture: "))
        } else {
            Ok(())
        },
    }
}

/// Whether a name ends in `.md`.
pub open spec fn is_markdown(n: Seq<char>) -> bool {
    n.len() >= 3 && n.skip(n.len() - 3) == ".md"@
}

fn markdown_name(n: &str) -> (r: bool)
    ensures
        r == is_markdown(n@),
{
    let cs = crate::text::chars_of(n);
    let len = cs.len();
    let md = len >= 3 && cs[len - 3] == '.' && cs[len - 2] == 'm' && cs[len - 1] == 'd';
    proof {
        reveal_strlit(".md");
        if len >= 3 {
            assert(cs@.skip(len - 3) =~= seq![cs@[len - 3], cs@[len - 2], cs@[len - 1]]);
            let t = cs@.skip(len - 3);
            if md {
                assert(t =~= ".md"@);
            } else {
                assert(t.len() == 3);
                assert(t != ".md"@ ) by {
                    if t == ".md"@ {
                        assert(t[0] == '.' && t[1] == 'm' && t[2] == 'd');
                    }
                }
            }
        }
    }
    md
}

/// A version-1 parent snapshot sees only names that are valid text and do
/// not start with `.`.
pub open spec fn discoverable(name: Option<Seq<char>>) -> bool {
    name matches Some(n) && !(n.len() > 0 && n[0] == '.')
}

/// Whether a version-1 snapshot looks at an entry with this name at all.
pub fn discoverable_name(name: Option<&str>) -> (r: bool)
    ensures
        r == discoverable(opt_str(name)),
{
    match name {
        None => false,
        Some(n) => {
            let cs = crate::text::chars_of(n);
            !(cs.len() > 0 && cs[0] == '.')
        },
    }
}

/// What a version-1 parent snapshot does with a discoverable entry: a
/// symbolic link is refused when it bears a Markdown name and is otherwise
/// never followed; directories are walked; Markdown is captured when it is
/// a regular file and refused otherwise.
pub open spec fn v1_entry_action_spec(name: Seq<char>, is_symlink: bool, is_dir: bool, is_file: bool) -> EntryAction {
    if is_symlink {
        if is_markdown(name) { EntryAction::RefuseSymlink } else { EntryAction::Skip }
    } else if is_dir {
        EntryAction::Descend
    } else if is_markdown(name) {
        if is_file { EntryAction::Capture } else { EntryAction::RefuseIrregular }
    } else {
        EntryAction::Skip
    }
}

/// Decides one entry of a version-1 parent snapshot.
pub fn v1_entry_action(name: &str, is_symlink: bool, is_dir: bool, is_file: bool) -> (r: EntryAction)
    ensures
        r == v1_entry_action_spec(name@, is_symlink, is_dir, is_file),
{
    let md = markdown_name(name);
    if is_symlink {
        if md { EntryAction::RefuseSymlink } else { EntryAction::Skip }
    } else if is_dir {
        EntryAction::Descend
    } else if md {
        if is_file { EntryAction::Capture } else { EntryAction::RefuseIrregular }
    } else {
        EntryAction::Skip
    }
}

/// A captured version-1 artifact must resolve inside its corpus root.
pub fn check_within_root(canonical: &str, corpus_root: &str, path: &str) -> (r: Result<(), ParentCorpusError>)
    ensures
        r is Ok <==> path_starts_with(canonical@, corpus_root@),
        r matches Err(e) ==> e.code == ParentCorpusErrorCode::PathEscape
            && e.message@ == "parent artifact escapes corpus root: "@ + path@
            && (e.path matches Some(p) && p@ == path@),
{
    if !starts_with_path(canonical, corpus_root) {
        return Err(error_at_path(ParentCorpusErrorCode::PathEscape, path, "parent artifact escapes corpus root: "));
    }
    Ok(())
}

/// Why a version-1 parent is refused once its snapshot is taken, as the
/// code, the path it is reported at and the message: its `corpus.source`
/// must be the declared one, differ from the child's, and verify to the
/// declared digest.
pub open spec fn v1_parent_refusal(manifest_path: Seq<char>, d: ParentDeclaration, child_source: Seq<char>,
    parent_source: Seq<char>, parent_config_path: Seq<char>, verified: Seq<char>) -> Option<(ParentCorpusErrorCode, Seq<char>, Seq<char>)>
{
    if parent_source != d.source@ {
        Some((ParentCorpusErrorCode::SourceMismatch, parent_config_path,
            "manifest source '"@ + d.source@ + "' does not match parent corpus.source '"@ + parent_source + "'"@))
    } else if child_source == parent_source {
        Some((ParentCorpusErrorCode::SourceCollision, manifest_path,
            "child and parent must declare distinct corpus.source values; both are '"@ + child_source + "'"@))
    } else if verified != d.digest@ {
        Some((ParentCorpusErrorCode::DigestMismatch, manifest_path,
            "declared parent digest '"@ + d.digest@ + "' does not match verified digest '"@ + verified + "'"@))
    } else {
        None
    }
}

/// Checks a version-1 parent against its snapshot: `parent_source` and
/// `verified` are the source and digest the snapshot found.
pub fn check_v1_parent(manifest_path: &str, declaration: &ParentDeclaration, child_source: &str,
    parent_source: &str, parent_config_path: &str, verified: &str) -> (r: Result<(), ParentCorpusError>)
    ensures
        match v1_parent_refusal(manifest_path@, *declaration, child_source@, parent_source@, parent_config_path@, verified@) {
            None => r is Ok,
            Some((code, at, message)) => r matches Err(e) && e.code == code && e.message@ == message
                && (e.path matches Some(p) && p@ == at),
        },
{
    if !str_eq(parent_source, declaration.source.as_str()) {
        let mut m = owned("manifest source '");
        push_str(&mut m, declaration.source.as_str());
        push_str(&mut m, "' does not match parent corpus.source '");
        push_str(&mut m, parent_source);
        push_str(&mut m, "'");
        return Err(ParentCorpusError::at(ParentCorpusErrorCode::SourceMismatch, parent_config_path, m.as_str()));
    }
    if str_eq(child_source, parent_source) {
        let mut m = owned("child and parent must declare distinct corpus.source values; both are '");
        push_str(&mut m, child_source);
        push_str(&mut m, "'");
        return Err(ParentCorpusError::at(ParentCorpusErrorCode::SourceCollision, manifest_path, m.as_str()));
    }
    if !str_eq(verified, declaration.digest.as_str()) {
        let mut m = owned("declared parent digest '");
        push_str(&mut m, declaration.digest.as_str());
        push_str(&mut m, "' does not match verified digest '");
        push_str(&mut m, verified);
        push_str(&mut m, "'");
        return Err(ParentCorpusError::at(ParentCorpusErrorCode::DigestMismatch, manifest_path, m.as_str()));
    }
    Ok(())
}

/// A version-1 parent's materialisation root must be a directory strictly
/// inside the child repository (it is resolved within it beforehand);
/// refusals are reported at the declared `candidate` path.
pub fn check_materialisation_root(candidate: &str, materialisation_root: &str, child_root: &str, is_dir: bool)
    -> (r: Result<(), ParentCorpusError>)
    ensures
        r is Ok <==> (!path_equal(materialisation_root@, child_root@) && is_dir),
        r matches Err(e) ==> e.code == ParentCorpusErrorCode::PathEscape
            && e.message@ == "parent materialisation root must be a directory strictly inside the child repository"@
            && (e.path matches Some(p) && p@ == candidate@),
{
    if equal_paths(materialisation_root, child_root) || !is_dir {
        return Err(ParentCorpusError::at(ParentCorpusErrorCode::PathEscape, candidate,
            "parent materialisation root must be a directory strictly inside the child repository"));
    }
    Ok(())
}

} // verus!
