//! Parent-corpus federation: stable error codes, declarations, captured
//! snapshots and the pure snapshot digests that pin a parent corpus.
use vstd::prelude::*;

use crate::hashing::{lower_hex_char, bytes_of, frame, hex, prefixed_digest, push_bytes, push_frame, sha256_digest, utf8};
use crate::order::{orders_keys, sort_indices, keys_views, strings_view, keys_by, visit, lemma_sorted_permutations_agree};

verus! {

pub const MANIFEST_RELATIVE_PATH: &'static str = ".decided/corpus.md";
pub const CONFIG_RELATIVE_PATH: &'static str = ".decided/config.yaml";
pub const DIGEST_PREFIX: &'static str = "sha256:";
pub const DIGEST_V2_PREFIX: &'static str = "sha256-v2:";
pub const DIGEST_V1_DOMAIN: &'static str = "asdecided-corpus-digest-v1\0";
pub const DIGEST_V2_DOMAIN: &'static str = "asdecided-corpus-digest-v2\0";

#[derive(Debug, Clone, Copy, PartialEq, Eq, Structural)]
pub enum ParentCorpusErrorCode {
    MalformedManifest,
    MultipleParents,
    MaterialisationMissing,
    ParentCorpusMissing,
    ParentConfigMissing,
    ChildConfigMissing,
    InvalidConfig,
    ChildSourceMissing,
    ParentSourceMissing,
    SourceMismatch,
    SourceCollision,
    PathEscape,
    SymlinkTraversal,
    TransitiveInheritance,
    SnapshotFailed,
    DigestMismatch,
    DuplicateParent,
    Cycle,
    DivergentPin,
    OverlappingRoots,
    LimitExceeded,
    UnsupportedFilesystem,
    SnapshotChanged,
}

pub open spec fn error_code_word(c: ParentCorpusErrorCode) -> Seq<char> {
    match c {
        ParentCorpusErrorCode::MalformedManifest => "parent-corpus-malformed-manifest"@,
        ParentCorpusErrorCode::MultipleParents => "parent-corpus-multiple-parents"@,
        ParentCorpusErrorCode::MaterialisationMissing => "parent-corpus-materialisation-missing"@,
        ParentCorpusErrorCode::ParentCorpusMissing => "parent-corpus-missing"@,
        ParentCorpusErrorCode::ParentConfigMissing => "parent-corpus-config-missing"@,
        ParentCorpusErrorCode::ChildConfigMissing => "parent-corpus-child-config-missing"@,
        ParentCorpusErrorCode::InvalidConfig => "parent-corpus-config-invalid"@,
        ParentCorpusErrorCode::ChildSourceMissing => "parent-corpus-child-source-missing"@,
        ParentCorpusErrorCode::ParentSourceMissing => "parent-corpus-source-missing"@,
        ParentCorpusErrorCode::SourceMismatch => "parent-corpus-source-mismatch"@,
        ParentCorpusErrorCode::SourceCollision => "parent-corpus-source-collision"@,
        ParentCorpusErrorCode::PathEscape => "parent-corpus-path-escape"@,
        ParentCorpusErrorCode::SymlinkTraversal => "parent-corpus-symlink-traversal"@,
        ParentCorpusErrorCode::TransitiveInheritance => "parent-corpus-transitive-inheritance"@,
        ParentCorpusErrorCode::SnapshotFailed => "parent-corpus-snapshot-failed"@,
        ParentCorpusErrorCode::DigestMismatch => "parent-corpus-digest-mismatch"@,
        ParentCorpusErrorCode::DuplicateParent => "corpus-federation-duplicate-parent"@,
        ParentCorpusErrorCode::Cycle => "corpus-federation-cycle"@,
        ParentCorpusErrorCode::DivergentPin => "corpus-federation-divergent-pin"@,
        ParentCorpusErrorCode::OverlappingRoots => "corpus-federation-overlapping-roots"@,
        ParentCorpusErrorCode::LimitExceeded => "corpus-federation-limit-exceeded"@,
        ParentCorpusErrorCode::UnsupportedFilesystem => "corpus-federation-unsupported-filesystem"@,
        ParentCorpusErrorCode::SnapshotChanged => "corpus-federation-snapshot-changed"@,
    }
}

impl ParentCorpusErrorCode {
    /// The stable machine-readable code.
    pub fn as_str(self) -> (r: &'static str)
        ensures
            r@ == error_code_word(self),
    {
        match self {
            ParentCorpusErrorCode::MalformedManifest => "parent-corpus-malformed-manifest",
            ParentCorpusErrorCode::MultipleParents => "parent-corpus-multiple-parents",
            ParentCorpusErrorCode::MaterialisationMissing => "parent-corpus-materialisation-missing",
            ParentCorpusErrorCode::ParentCorpusMissing => "parent-corpus-missing",
            ParentCorpusErrorCode::ParentConfigMissing => "parent-corpus-config-missing",
            ParentCorpusErrorCode::ChildConfigMissing => "parent-corpus-child-config-missing",
            ParentCorpusErrorCode::InvalidConfig => "parent-corpus-config-invalid",
            ParentCorpusErrorCode::ChildSourceMissing => "parent-corpus-child-source-missing",
            ParentCorpusErrorCode::ParentSourceMissing => "parent-corpus-source-missing",
            ParentCorpusErrorCode::SourceMismatch => "parent-corpus-source-mismatch",
            ParentCorpusErrorCode::SourceCollision => "parent-corpus-source-collision",
            ParentCorpusErrorCode::PathEscape => "parent-corpus-path-escape",
            ParentCorpusErrorCode::SymlinkTraversal => "parent-corpus-symlink-traversal",
            ParentCorpusErrorCode::TransitiveInheritance => "parent-corpus-transitive-inheritance",
            ParentCorpusErrorCode::SnapshotFailed => "parent-corpus-snapshot-failed",
            ParentCorpusErrorCode::DigestMismatch => "parent-corpus-digest-mismatch",
            ParentCorpusErrorCode::DuplicateParent => "corpus-federation-duplicate-parent",
            ParentCorpusErrorCode::Cycle => "corpus-federation-cycle",
            ParentCorpusErrorCode::DivergentPin => "corpus-federation-divergent-pin",
            ParentCorpusErrorCode::OverlappingRoots => "corpus-federation-overlapping-roots",
            ParentCorpusErrorCode::LimitExceeded => "corpus-federation-limit-exceeded",
            ParentCorpusErrorCode::UnsupportedFilesystem => "corpus-federation-unsupported-filesystem",
            ParentCorpusErrorCode::SnapshotChanged => "corpus-federation-snapshot-changed",
        }
    }
}

#[derive(Debug, Clone, PartialEq, Eq)]
pub struct ParentCorpusError {
    pub code: ParentCorpusErrorCode,
    pub message: String,
    pub path: Option<String>,
}

impl ParentCorpusError {
    pub fn new(code: ParentCorpusErrorCode, message: &str) -> (r: Self)
        ensures
            r.code == code,
            r.message@ == message@,
            r.path.is_none(),
    {
        ParentCorpusError { code, message: crate::text::owned(message), path: None }
    }

    pub fn at(code: ParentCorpusErrorCode, path: &str, message: &str) -> (r: Self)
        ensures
            r.code == code,
            r.message@ == message@,
            r.path matches Some(p) && p@ == path@,
    {
        ParentCorpusError { code, message: crate::text::owned(message), path: Some(crate::text::owned(path)) }
    }

    pub fn stable_code(&self) -> (r: &'static str)
        ensures
            r@ == error_code_word(self.code),
    {
        self.code.as_str()
    }

    /// `code: message`.
    pub fn describe(&self) -> (r: String)
        ensures
            r@ == error_code_word(self.code) + ": "@ + self.message@,
    {
        crate::text::concat3(self.stable_code(), ": ", self.message.as_str())
    }
}

#[derive(Debug, Clone, PartialEq, Eq)]
pub struct ParentDeclaration {
    pub version: u32,
    pub alias: String,
    pub source: String,
    pub root: String,
    pub corpus: String,
    pub digest: String,
}

#[derive(Debug, Clone, PartialEq, Eq)]
pub struct SnapshotFile {
    pub relative_path: String,
    pub absolute_path: String,
    pub bytes: Vec<u8>,
}

#[derive(Debug, Clone, PartialEq, Eq)]
pub struct ParentDigest {
    pub source: String,
    pub config_path: String,
    pub config_bytes: Vec<u8>,
    pub corpus_root: String,
    pub files: Vec<SnapshotFile>,
    /// Full `sha256:<64 lowercase hex>` value.
    pub digest: String,
}

#[derive(Debug, Clone, PartialEq, Eq)]
pub struct ParentDigestV2 {
    pub source: String,
    pub config_path: String,
    pub config_bytes: Vec<u8>,
    pub manifest_path: String,
    pub manifest_bytes: Option<Vec<u8>>,
    pub corpus_root: String,
    pub files: Vec<SnapshotFile>,
    /// Full `sha256-v2:<64 lowercase hex>` value.
    pub digest: String,
}

/// One declared and independently verified physical edge.
#[derive(Debug, Clone, PartialEq, Eq)]
pub struct VerifiedFederationEdge {
    pub owner_source: String,
    pub alias: String,
    pub target_source: String,
    pub declared_digest: String,
    pub canonical_digest: String,
    pub root: String,
    pub corpus: String,
    pub materialisation_root: String,
    pub corpus_root: String,
}

/// The verified root manifest: where it was read, its exact bytes, its
/// direct parents, and the bytes of its override mapping when it declares
/// one.
#[derive(Debug, Clone, PartialEq, Eq)]
pub struct GraphCorpusManifest {
    pub path: String,
    pub bytes: Vec<u8>,
    pub parents: Vec<ParentDeclaration>,
    pub override_mapping_bytes: Option<Vec<u8>>,
}

/// One unique logical inherited source of a verified closure.
#[derive(Debug, Clone, PartialEq, Eq)]
pub struct VerifiedFederationNode {
    pub source: String,
    pub digest: String,
    pub config_path: String,
    pub config_bytes: Vec<u8>,
    pub manifest_path: String,
    pub manifest_bytes: Option<Vec<u8>>,
    pub manifest_version: Option<u32>,
    pub override_mapping_bytes: Option<Vec<u8>>,
    pub corpus_root: String,
    pub files: Vec<SnapshotFile>,
}

/// A verified version-2 closure: the root's own records, every unique
/// inherited source, and every physical edge.
#[derive(Debug, Clone, PartialEq, Eq)]
pub struct VerifiedFederation {
    pub repository_root: String,
    pub root_source: String,
    pub root_corpus_path: String,
    pub root_corpus_root: String,
    pub root_files: Vec<SnapshotFile>,
    pub root_config_path: String,
    pub root_config_bytes: Vec<u8>,
    pub manifest: GraphCorpusManifest,
    pub nodes: Vec<VerifiedFederationNode>,
    pub edges: Vec<VerifiedFederationEdge>,
    pub materialisation_roots: Vec<String>,
    pub corpus_roots: Vec<String>,
}

pub open spec fn snapshot_keys(files: Seq<SnapshotFile>) -> Seq<Seq<Seq<char>>> {
    Seq::new(files.len(), |i: int| seq![files[i].relative_path@])
}

/// Path and byte frames of the first `upto` files in order `ord`.
pub open spec fn snapshot_frames(files: Seq<SnapshotFile>, ord: Seq<usize>, path_tag: u8, bytes_tag: u8, upto: int) -> Seq<u8>
    decreases upto,
{
    if upto <= 0 {
        Seq::empty()
    } else {
        let f = files[ord[upto - 1] as int];
        snapshot_frames(files, ord, path_tag, bytes_tag, upto - 1) + frame(path_tag, utf8(f.relative_path@)) + frame(bytes_tag, f.bytes@)
    }
}

fn snapshot_order(files: &[SnapshotFile]) -> (ord: Vec<usize>)
    ensures
        orders_keys(snapshot_keys(files@), ord@),
{
    let mut keys: Vec<Vec<String>> = Vec::new();
    let mut i: usize = 0;
    while i < files.len()
        invariant
            i <= files@.len(),
            keys@.len() == i,
            forall|k: int| 0 <= k < i ==> strings_view(#[trigger] keys@[k]@) == seq![files@[k].relative_path@],
        decreases files@.len() - i,
    {
        let mut key: Vec<String> = Vec::new();
        key.push(files[i].relative_path.clone());
        assert(strings_view(key@) =~= seq![files@[i as int].relative_path@]);
        keys.push(key);
        i += 1;
    }
    assert(keys_views(keys@) =~= snapshot_keys(files@));
    sort_indices(keys)
}

fn push_snapshot_files(out: &mut Vec<u8>, files: &[SnapshotFile], ord: &Vec<usize>, path_tag: u8, bytes_tag: u8)
    requires
        ord@.len() == files@.len(),
        forall|k: int| 0 <= k < ord@.len() ==> ord@[k] < files@.len(),
    ensures
        final(out)@ == old(out)@ + snapshot_frames(files@, ord@, path_tag, bytes_tag, files@.len() as int),
{
    let ghost start = out@;
    let mut i: usize = 0;
    while i < ord.len()
        invariant
            i <= ord@.len(),
            ord@.len() == files@.len(),
            forall|k: int| 0 <= k < ord@.len() ==> ord@[k] < files@.len(),
            out@ == start + snapshot_frames(files@, ord@, path_tag, bytes_tag, i as int),
        decreases ord@.len() - i,
    {
        let f = &files[ord[i]];
        push_frame(out, path_tag, bytes_of(f.relative_path.as_str()));
        push_frame(out, bytes_tag, f.bytes.as_slice());
        i += 1;
        assert(out@ =~= start + snapshot_frames(files@, ord@, path_tag, bytes_tag, i as int));
    }
}

/// The version-1 snapshot preimage under a file order.
pub open spec fn digest_v1_preimage(source: Seq<char>, config: Seq<u8>, files: Seq<SnapshotFile>, ord: Seq<usize>) -> Seq<u8> {
    utf8(DIGEST_V1_DOMAIN@) + frame(0x01, utf8(source)) + frame(0x02, config)
        + snapshot_frames(files, ord, 0x03, 0x04, files.len() as int)
}

/// The version-2 snapshot preimage under a file order.
pub open spec fn digest_v2_preimage(source: Seq<char>, config: Seq<u8>, manifest: Option<Seq<u8>>, files: Seq<SnapshotFile>, ord: Seq<usize>) -> Seq<u8> {
    utf8(DIGEST_V2_DOMAIN@) + frame(0x01, utf8(source)) + frame(0x02, config)
        + frame(0x03, if manifest.is_some() { seq![1u8] } else { seq![0u8] })
        + (match manifest { Some(m) => frame(0x04, m), None => Seq::empty() })
        + snapshot_frames(files, ord, 0x05, 0x06, files.len() as int)
}

/// Pure digest over an already captured byte snapshot. File order at the
/// API boundary is ignored: paths are folded in canonical order.
pub fn digest_snapshot(source: &str, config_bytes: &[u8], files: &[SnapshotFile]) -> (r: String)
    ensures
        exists|ord: Seq<usize>| orders_keys(snapshot_keys(files@), ord)
            && r@ == DIGEST_PREFIX@ + hex(sha256_digest(#[trigger] digest_v1_preimage(source@, config_bytes@, files@, ord))),
        r@.len() == DIGEST_PREFIX@.len() + 64,
        forall|i: int| DIGEST_PREFIX@.len() <= i < r@.len() ==> lower_hex_char(#[trigger] r@[i]),
{
    let mut out: Vec<u8> = Vec::new();
    push_bytes(&mut out, bytes_of(DIGEST_V1_DOMAIN));
    push_frame(&mut out, 0x01, bytes_of(source));
    push_frame(&mut out, 0x02, config_bytes);
    let ord = snapshot_order(files);
    push_snapshot_files(&mut out, files, &ord, 0x03, 0x04);
    assert(out@ =~= digest_v1_preimage(source@, config_bytes@, files@, ord@));
    let r = prefixed_digest(DIGEST_PREFIX, out.as_slice());
    assert(orders_keys(snapshot_keys(files@), ord@) && r@ == DIGEST_PREFIX@ + hex(sha256_digest(digest_v1_preimage(source@, config_bytes@, files@, ord@))));
    r
}

pub open spec fn opt_slice(o: Option<&[u8]>) -> Option<Seq<u8>> {
    match o {
        Some(m) => Some(m@),
        None => None,
    }
}

/// Pure canonical version-2 digest over one captured node snapshot.
pub fn digest_snapshot_v2(source: &str, config_bytes: &[u8], manifest_bytes: Option<&[u8]>, files: &[SnapshotFile]) -> (r: String)
    ensures
        exists|ord: Seq<usize>| orders_keys(snapshot_keys(files@), ord)
            && r@ == DIGEST_V2_PREFIX@ + hex(sha256_digest(#[trigger] digest_v2_preimage(source@, config_bytes@,
                opt_slice(manifest_bytes), files@, ord))),
        r@.len() == DIGEST_V2_PREFIX@.len() + 64,
        forall|i: int| DIGEST_V2_PREFIX@.len() <= i < r@.len() ==> lower_hex_char(#[trigger] r@[i]),
{
    let ghost mv = opt_slice(manifest_bytes);
    let mut out: Vec<u8> = Vec::new();
    push_bytes(&mut out, bytes_of(DIGEST_V2_DOMAIN));
    push_frame(&mut out, 0x01, bytes_of(source));
    push_frame(&mut out, 0x02, config_bytes);
    let ghost mid = out@;
    match manifest_bytes {
        Some(m) => {
            let one: [u8; 1] = [1u8];
            assert(one@ =~= seq![1u8]);
            push_frame(&mut out, 0x03, &one);
            push_frame(&mut out, 0x04, m);
        },
        None => {
            let zero: [u8; 1] = [0u8];
            assert(zero@ =~= seq![0u8]);
            push_frame(&mut out, 0x03, &zero);
            assert(out@ =~= mid + frame(0x03, seq![0u8]) + Seq::<u8>::empty());
        },
    }
    let ord = snapshot_order(files);
    push_snapshot_files(&mut out, files, &ord, 0x05, 0x06);
    assert(out@ =~= digest_v2_preimage(source@, config_bytes@, mv, files@, ord@));
    let r = prefixed_digest(DIGEST_V2_PREFIX, out.as_slice());
    assert(orders_keys(snapshot_keys(files@), ord@) && r@ == DIGEST_V2_PREFIX@ + hex(sha256_digest(digest_v2_preimage(source@, config_bytes@, mv, files@, ord@))));
    r
}


/// The key by which snapshot files are folded: their relative path.
pub open spec fn path_key(f: SnapshotFile) -> Seq<Seq<char>> {
    seq![f.relative_path@]
}

proof fn lemma_snapshot_frames_agree(s: Seq<SnapshotFile>, os: Seq<usize>, t: Seq<SnapshotFile>, ot: Seq<usize>, path_tag: u8, bytes_tag: u8, upto: int)
    requires
        0 <= upto <= os.len(),
        os.len() == ot.len(),
        forall|k: int| 0 <= k < os.len() ==> s[os[k] as int] == t[ot[k] as int],
    ensures
        snapshot_frames(s, os, path_tag, bytes_tag, upto) == snapshot_frames(t, ot, path_tag, bytes_tag, upto),
    decreases upto,
{
    if upto > 0 {
        lemma_snapshot_frames_agree(s, os, t, ot, path_tag, bytes_tag, upto - 1);
        assert(s[os[upto - 1] as int] == t[ot[upto - 1] as int]);
    }
}

/// Files with distinct paths, given in two orders, are framed alike.
proof fn lemma_file_order_irrelevant(a: Seq<SnapshotFile>, b: Seq<SnapshotFile>, oa: Seq<usize>, ob: Seq<usize>, path_tag: u8, bytes_tag: u8)
    requires
        a.len() <= usize::MAX,
        a.to_multiset() == b.to_multiset(),
        forall|i: int, j: int| 0 <= i < j < a.len() ==> a[i].relative_path@ != a[j].relative_path@,
        orders_keys(snapshot_keys(a), oa),
        orders_keys(snapshot_keys(b), ob),
    ensures
        a.len() == b.len(),
        snapshot_frames(a, oa, path_tag, bytes_tag, a.len() as int) == snapshot_frames(b, ob, path_tag, bytes_tag, b.len() as int),
{
    broadcast use vstd::seq_lib::group_to_multiset_ensures;
    let f = |x: SnapshotFile| path_key(x);
    assert(keys_by(a, f) =~= snapshot_keys(a));
    assert(keys_by(b, f) =~= snapshot_keys(b));
    assert forall|i: int, j: int| 0 <= i < j < a.len() implies f(#[trigger] a[i]) != f(#[trigger] a[j]) by {
        assert(f(a[i])[0] == a[i].relative_path@);
        assert(f(a[j])[0] == a[j].relative_path@);
    }
    assert(a.len() == a.to_multiset().len() && b.len() == b.to_multiset().len());
    lemma_sorted_permutations_agree(a, b, oa, ob, f);
    assert forall|k: int| 0 <= k < oa.len() implies a[oa[k] as int] == b[ob[k] as int] by {
        assert(visit(a, oa)[k] == visit(b, ob)[k]);
    }
    lemma_snapshot_frames_agree(a, oa, b, ob, path_tag, bytes_tag, a.len() as int);
}

/// The order in which a snapshot's files are given does not change its
/// digest: two orderings of the same files, with distinct paths, frame the
/// same version-1 and version-2 preimages.
pub proof fn law_digest_ignores_file_order(source: Seq<char>, config: Seq<u8>, manifest: Option<Seq<u8>>, a: Seq<SnapshotFile>, b: Seq<SnapshotFile>)
    requires
        a.len() <= usize::MAX,
        a.to_multiset() == b.to_multiset(),
        forall|i: int, j: int| 0 <= i < j < a.len() ==> a[i].relative_path@ != a[j].relative_path@,
    ensures
        forall|oa: Seq<usize>, ob: Seq<usize>| orders_keys(snapshot_keys(a), oa) && orders_keys(snapshot_keys(b), ob)
            ==> #[trigger] digest_v1_preimage(source, config, a, oa) == #[trigger] digest_v1_preimage(source, config, b, ob),
        forall|oa: Seq<usize>, ob: Seq<usize>| orders_keys(snapshot_keys(a), oa) && orders_keys(snapshot_keys(b), ob)
            ==> #[trigger] digest_v2_preimage(source, config, manifest, a, oa) == #[trigger] digest_v2_preimage(source, config, manifest, b, ob),
{
    assert forall|oa: Seq<usize>, ob: Seq<usize>| orders_keys(snapshot_keys(a), oa) && orders_keys(snapshot_keys(b), ob)
        implies #[trigger] digest_v1_preimage(source, config, a, oa) == #[trigger] digest_v1_preimage(source, config, b, ob) by {
        lemma_file_order_irrelevant(a, b, oa, ob, 0x03, 0x04);
    }
    assert forall|oa: Seq<usize>, ob: Seq<usize>| orders_keys(snapshot_keys(a), oa) && orders_keys(snapshot_keys(b), ob)
        implies #[trigger] digest_v2_preimage(source, config, manifest, a, oa) == #[trigger] digest_v2_preimage(source, config, manifest, b, ob) by {
        lemma_file_order_irrelevant(a, b, oa, ob, 0x05, 0x06);
    }
}

/// An absent manifest and an empty one are framed apart in a version-2
/// digest: with source, config and files equal, no visit of the files frames
/// the same preimage.
pub proof fn law_v2_manifest_absence_differs_from_empty(source: Seq<char>, config: Seq<u8>, files: Seq<SnapshotFile>)
    ensures
        forall|oa: Seq<usize>, ob: Seq<usize>| #[trigger] digest_v2_preimage(source, config, None, files, oa)
            != #[trigger] digest_v2_preimage(source, config, Some(Seq::<u8>::empty()), files, ob),
{
    crate::hashing::lemma_be_bytes_len(1, 8);
    let p = utf8(DIGEST_V2_DOMAIN@) + frame(0x01, utf8(source)) + frame(0x02, config);
    let i: int = p.len() as int + 9;
    assert forall|oa: Seq<usize>, ob: Seq<usize>| #[trigger] digest_v2_preimage(source, config, None, files, oa)
        != #[trigger] digest_v2_preimage(source, config, Some(Seq::<u8>::empty()), files, ob) by {
        let fa = frame(0x03, seq![0u8]);
        let fb = frame(0x03, seq![1u8]);
        let ta = Seq::<u8>::empty() + snapshot_frames(files, oa, 0x05, 0x06, files.len() as int);
        let tb = frame(0x04, Seq::<u8>::empty()) + snapshot_frames(files, ob, 0x05, 0x06, files.len() as int);
        let a = digest_v2_preimage(source, config, None, files, oa);
        let b = digest_v2_preimage(source, config, Some(Seq::<u8>::empty()), files, ob);
        assert(fa.len() == 10 && fb.len() == 10);
        assert(fa[9] == 0u8 && fb[9] == 1u8);
        let sa = p + fa;
        let sb = p + fb;
        assert(sa[i] == fa[9]);
        assert(sb[i] == fb[9]);
        assert(a == (sa + Seq::<u8>::empty()) + snapshot_frames(files, oa, 0x05, 0x06, files.len() as int));
        assert((sa + Seq::<u8>::empty())[i] == sa[i]);
        assert(a[i] == (sa + Seq::<u8>::empty())[i]);
        assert(b == (sb + frame(0x04, Seq::<u8>::empty())) + snapshot_frames(files, ob, 0x05, 0x06, files.len() as int));
        assert((sb + frame(0x04, Seq::<u8>::empty()))[i] == sb[i]);
        assert(b[i] == (sb + frame(0x04, Seq::<u8>::empty()))[i]);
    }
}

} // verus!
