//! The decisions of capturing a version-2 checkout, and of verifying the
//! root before its edges are walked: where the checkout may lie, what its
//! governing config must declare, that its manifest did not change while it
//! was parsed, and that its corpus stays on one filesystem. Reading the
//! files is the caller's part.
use vstd::prelude::*;
use vstd::utf8::valid_utf8;

use crate::federation::{ParentCorpusError, ParentCorpusErrorCode};
use crate::federation_graph::{path_equal, path_starts_with, equal_paths, starts_with_path};
use crate::hashing::{bytes_of, utf8};
use crate::manifest::{limit_error, limit_message, V2_MAX_SOURCE_BYTES};
use crate::manifest_yaml::{parse_strict_v2_yaml, strict_v2_refusal, yaml_parse, YamlNode};
use crate::text::{concat3, owned, push_str, str_eq, views};
use crate::manifest::{split_char, split_on};

verus! {

pub const V2_MAX_MANIFEST_BYTES: usize = 1048576;
pub const V2_MAX_CONFIG_BYTES: usize = 1048576;

pub const NOT_CONTAINED: &'static str = "inherited materialisation must be strictly contained by the invocation repository";
pub const NODE_SOURCE_MISSING: &'static str = "version 2 graph nodes must declare corpus.source";
pub const ROOT_SOURCE_MISSING: &'static str = "version 2 root config must declare corpus.source";
pub const NODE_CONFIG_NOT_UTF8: &'static str = "version 2 governing config must be valid UTF-8";
pub const ROOT_CONFIG_NOT_UTF8: &'static str = "version 2 root config must be valid UTF-8";
pub const NODE_MANIFEST_CHANGED: &'static str = "federation manifest changed while it was parsed";
pub const ROOT_MANIFEST_CHANGED: &'static str = "root federation manifest changed while it was parsed";
pub const CORPUS_NOT_ON_DEVICE: &'static str = "inherited corpus must be a real directory on the materialisation filesystem";
pub const ROOT_CORPUS_CROSSES: &'static str = "root corpus crosses a filesystem boundary";

/// A checkout's root must lie strictly inside the invocation repository.
pub fn check_strictly_contained(repository_root: &str, invocation_root: &str) -> (r: Result<(), ParentCorpusError>)
    ensures
        r is Ok <==> (!path_equal(repository_root@, invocation_root@) && path_starts_with(repository_root@, invocation_root@)),
        r matches Err(e) ==> e.code == ParentCorpusErrorCode::PathEscape && e.message@ == NOT_CONTAINED@
            && (e.path matches Some(p) && p@ == repository_root@),
{
    if equal_paths(repository_root, invocation_root) || !starts_with_path(repository_root, invocation_root) {
        return Err(ParentCorpusError::at(ParentCorpusErrorCode::PathEscape, repository_root, NOT_CONTAINED));
    }
    Ok(())
}

/// Decodes bytes as UTF-8.
///
/// Calls `std::str::from_utf8`. Claimed, as its documentation says: it
/// succeeds exactly when the bytes are valid UTF-8, and the text it gives
/// encodes to those bytes.
#[verifier::external_body]
pub(crate) fn decode_utf8_text(bytes: &[u8]) -> (r: Option<String>)
    ensures
        r is Some <==> valid_utf8(bytes@),
        r matches Some(s) ==> utf8(s@) == bytes@,
{
    std::str::from_utf8(bytes).ok().map(|s| s.to_string())
}

/// The text of a governing config, which must be valid UTF-8.
pub fn config_text(config_path: &str, bytes: &[u8], root: bool) -> (r: Result<String, ParentCorpusError>)
    ensures
        r is Ok <==> valid_utf8(bytes@),
        r matches Ok(s) ==> utf8(s@) == bytes@,
        r matches Err(e) ==> e.code == ParentCorpusErrorCode::InvalidConfig
            && e.message@ == (if root { ROOT_CONFIG_NOT_UTF8@ } else { NODE_CONFIG_NOT_UTF8@ })
            && (e.path matches Some(p) && p@ == config_path@),
{
    match decode_utf8_text(bytes) {
        Some(s) => Ok(s),
        None => Err(ParentCorpusError::at(ParentCorpusErrorCode::InvalidConfig, config_path,
            if root { ROOT_CONFIG_NOT_UTF8 } else { NODE_CONFIG_NOT_UTF8 })),
    }
}

/// The value under the string key `key` of a mapping, the first such entry.
pub open spec fn entry_of(entries: Seq<(YamlNode, YamlNode)>, key: Seq<char>) -> Option<YamlNode>
    decreases entries.len(),
{
    if entries.len() == 0 {
        None
    } else if entries[0].0 matches YamlNode::String(k) && k@ == key {
        Some(entries[0].1)
    } else {
        entry_of(entries.drop_first(), key)
    }
}

/// The `corpus.source` string a parsed config declares, if it declares one.
pub open spec fn corpus_source_of(config: YamlNode) -> Option<Seq<char>> {
    match config {
        YamlNode::Mapping(top) => match entry_of(top@, "corpus"@) {
            Some(YamlNode::Mapping(corpus)) => match entry_of(corpus@, "source"@) {
                Some(YamlNode::String(s)) => Some(s@),
                _ => None,
            },
            _ => None,
        },
        _ => None,
    }
}

fn find_entry<'a>(entries: &'a Vec<(YamlNode, YamlNode)>, key: &str) -> (r: Option<&'a YamlNode>)
    ensures
        match r {
            Some(v) => entry_of(entries@, key@) == Some(*v),
            None => entry_of(entries@, key@) is None,
        },
{
    let mut i: usize = 0;
    assert(entries@.skip(0) =~= entries@);
    while i < entries.len()
        invariant
            i <= entries@.len(),
            entry_of(entries@, key@) == entry_of(entries@.skip(i as int), key@),
        decreases entries@.len() - i,
    {
        assert(entries@.skip(i as int).drop_first() =~= entries@.skip(i as int + 1));
        match &entries[i].0 {
            YamlNode::String(k) => {
                if str_eq(k.as_str(), key) {
                    return Some(&entries[i].1);
                }
            },
            _ => {},
        }
        i += 1;
    }
    None
}

/// The `corpus.source` a parsed config declares.
pub fn corpus_source(config: &YamlNode) -> (r: Option<String>)
    ensures
        match r {
            Some(s) => corpus_source_of(*config) == Some(s@),
            None => corpus_source_of(*config) is None,
        },
{
    match config {
        YamlNode::Mapping(top) => match find_entry(top, "corpus") {
            Some(YamlNode::Mapping(corpus)) => match find_entry(corpus, "source") {
                Some(YamlNode::String(s)) => Some(owned(s.as_str())),
                _ => None,
            },
            _ => None,
        },
        _ => None,
    }
}

/// Why a governing config's text yields no source: its strict parse is
/// refused, it declares no `corpus.source`, or the source is longer than
/// `V2_MAX_SOURCE_BYTES` bytes.
pub open spec fn source_refusal(config_path: Seq<char>, text: Seq<char>, root: bool) -> Option<(ParentCorpusErrorCode, Seq<char>)> {
    if strict_v2_refusal(config_path, text, "governing config"@) is Some {
        strict_v2_refusal(config_path, text, "governing config"@)
    } else {
        match yaml_parse(text) {
            Ok(n) => match corpus_source_of(n) {
                None => if root {
                    Some((ParentCorpusErrorCode::ChildSourceMissing, ROOT_SOURCE_MISSING@))
                } else {
                    Some((ParentCorpusErrorCode::ParentSourceMissing, NODE_SOURCE_MISSING@))
                },
                Some(s) => if utf8(s).len() > V2_MAX_SOURCE_BYTES {
                    Some((ParentCorpusErrorCode::LimitExceeded, limit_message("source-bytes"@, V2_MAX_SOURCE_BYTES as nat,
                        (V2_MAX_SOURCE_BYTES + 1) as nat)))
                } else {
                    None
                },
            },
            Err(_) => None,
        }
    }
}

/// The source a governing config declares, checked strictly: the config is
/// one version-2 YAML mapping with a `corpus.source` of at most
/// `V2_MAX_SOURCE_BYTES` bytes. `root` selects the root's wording and code.
pub fn declared_source(config_path: &str, text: &str, root: bool) -> (r: Result<String, ParentCorpusError>)
    ensures
        match source_refusal(config_path@, text@, root) {
            None => r matches Ok(s) && (yaml_parse(text@) matches Ok(n) && corpus_source_of(n) == Some(s@)),
            Some((code, message)) => r matches Err(e) && e.code == code && e.message@ == message
                && (e.path matches Some(p) && p@ == config_path@),
        },
{
    let (_, node) = parse_strict_v2_yaml(config_path, text, "governing config")?;
    match corpus_source(&node) {
        None => {
            if root {
                Err(ParentCorpusError::at(ParentCorpusErrorCode::ChildSourceMissing, config_path, ROOT_SOURCE_MISSING))
            } else {
                Err(ParentCorpusError::at(ParentCorpusErrorCode::ParentSourceMissing, config_path, NODE_SOURCE_MISSING))
            }
        },
        Some(s) => {
            if bytes_of(s.as_str()).len() > V2_MAX_SOURCE_BYTES {
                return Err(limit_error(config_path, "source-bytes", V2_MAX_SOURCE_BYTES, V2_MAX_SOURCE_BYTES + 1));
            }
            Ok(s)
        },
    }
}

pub open spec fn opt_seq(o: Option<&[u8]>) -> Option<Seq<u8>> {
    match o {
        Some(b) => Some(b@),
        None => None,
    }
}

fn same_bytes(a: &[u8], b: &[u8]) -> (r: bool)
    ensures
        r == (a@ == b@),
{
    if a.len() != b.len() {
        return false;
    }
    let mut i: usize = 0;
    while i < a.len()
        invariant
            i <= a@.len(),
            a@.len() == b@.len(),
            forall|k: int| 0 <= k < i ==> a@[k] == b@[k],
        decreases a@.len() - i,
    {
        if a[i] != b[i] {
            return false;
        }
        i += 1;
    }
    assert(a@ =~= b@);
    true
}

/// The manifest bytes that were parsed must be the bytes read again after
/// the parse (both absent, or equal). `root` selects the root's wording.
pub fn check_manifest_unchanged(manifest_path: &str, parsed: Option<&[u8]>, read: Option<&[u8]>, root: bool)
    -> (r: Result<(), ParentCorpusError>)
    ensures
        r is Ok <==> opt_seq(parsed) == opt_seq(read),
        r matches Err(e) ==> e.code == ParentCorpusErrorCode::SnapshotChanged
            && e.message@ == (if root { ROOT_MANIFEST_CHANGED@ } else { NODE_MANIFEST_CHANGED@ })
            && (e.path matches Some(p) && p@ == manifest_path@),
{
    let same = match (parsed, read) {
        (Some(a), Some(b)) => same_bytes(a, b),
        (None, None) => true,
        _ => false,
    };
    if !same {
        return Err(ParentCorpusError::at(ParentCorpusErrorCode::SnapshotChanged, manifest_path,
            if root { ROOT_MANIFEST_CHANGED } else { NODE_MANIFEST_CHANGED }));
    }
    Ok(())
}

/// An inherited corpus must be a directory on its checkout's filesystem.
pub fn check_corpus_directory(corpus_root: &str, is_dir: bool, device: u64, checkout_device: u64) -> (r: Result<(), ParentCorpusError>)
    ensures
        r is Ok <==> (is_dir && device == checkout_device),
        r matches Err(e) ==> e.code == ParentCorpusErrorCode::UnsupportedFilesystem && e.message@ == CORPUS_NOT_ON_DEVICE@
            && (e.path matches Some(p) && p@ == corpus_root@),
{
    if !is_dir || device != checkout_device {
        return Err(ParentCorpusError::at(ParentCorpusErrorCode::UnsupportedFilesystem, corpus_root, CORPUS_NOT_ON_DEVICE));
    }
    Ok(())
}

/// The root corpus must lie on the repository's filesystem.
pub fn check_root_corpus_device(root_corpus_root: &str, device: u64, repository_device: u64) -> (r: Result<(), ParentCorpusError>)
    ensures
        r is Ok <==> device == repository_device,
        r matches Err(e) ==> e.code == ParentCorpusErrorCode::UnsupportedFilesystem && e.message@ == ROOT_CORPUS_CROSSES@
            && (e.path matches Some(p) && p@ == root_corpus_root@),
{
    if device != repository_device {
        return Err(ParentCorpusError::at(ParentCorpusErrorCode::UnsupportedFilesystem, root_corpus_root, ROOT_CORPUS_CROSSES));
    }
    Ok(())
}

/// A walked entry is excluded when it is one of the excluded paths or lies
/// under one, component-wise.
pub open spec fn excluded_by(path: Seq<char>, exclusions: Seq<Seq<char>>) -> bool {
    exists|i: int| 0 <= i < exclusions.len() && (path_equal(path, #[trigger] exclusions[i]) || path_starts_with(path, exclusions[i]))
}

/// Whether a walked entry is excluded.
pub fn is_excluded(path: &str, exclusions: &Vec<String>) -> (r: bool)
    ensures
        r == excluded_by(path@, crate::text::views(exclusions@)),
{
    let ghost ex = crate::text::views(exclusions@);
    let mut i: usize = 0;
    while i < exclusions.len()
        invariant
            i <= exclusions@.len(),
            ex == crate::text::views(exclusions@),
            forall|k: int| 0 <= k < i ==> !(path_equal(path@, #[trigger] ex[k]) || path_starts_with(path@, ex[k])),
        decreases exclusions@.len() - i,
    {
        assert(ex[i as int] == exclusions@[i as int]@);
        if equal_paths(path, exclusions[i].as_str()) || starts_with_path(path, exclusions[i].as_str()) {
            return true;
        }
        i += 1;
    }
    false
}

/// The components a relative path names, lexically: `.` and empty
/// components are dropped.
pub open spec fn lexical_components(rel: Seq<char>) -> Seq<Seq<char>> {
    split_on(rel, '/').filter(|c: Seq<char>| c != ""@ && c != "."@)
}

/// Why a relative `field` value cannot be joined under a boundary: it is
/// absolute or climbs with `..`, or it names nothing and is not `.`.
pub open spec fn join_refusal(rel: Seq<char>, field: Seq<char>) -> Option<Seq<char>> {
    if (rel.len() > 0 && rel[0] == '/') || split_on(rel, '/').contains(".."@) {
        Some("parent "@ + field + " must be a relative path without '..': "@ + rel)
    } else if lexical_components(rel).len() == 0 && rel != "."@ {
        Some("parent "@ + field + " must be a non-empty relative path"@)
    } else {
        None
    }
}

/// The components of a relative `field` value to join under a boundary.
pub fn relative_components(rel: &str, field: &str) -> (r: Result<Vec<String>, ParentCorpusError>)
    ensures
        match join_refusal(rel@, field@) {
            None => r matches Ok(cs) && views(cs@) == lexical_components(rel@),
            Some(m) => r matches Err(e) && e.code == ParentCorpusErrorCode::PathEscape && e.message@ == m && e.path is None,
        },
{
    let cs = crate::text::chars_of(rel);
    let parts = split_char(rel, '/');
    let ghost sp = split_on(rel@, '/');
    let ghost pred = |c: Seq<char>| c != ""@ && c != "."@;
    let mut out: Vec<String> = Vec::new();
    let mut climbs = false;
    let mut i: usize = 0;
    proof {
        reveal(Seq::filter);
    }
    assert(sp.take(0).filter(pred) =~= Seq::<Seq<char>>::empty());
    while i < parts.len()
        invariant
            i <= parts@.len(),
            views(parts@) == sp,
            sp == split_on(rel@, '/'),
            pred == (|c: Seq<char>| c != ""@ && c != "."@),
            views(out@) == sp.take(i as int).filter(pred),
            climbs == sp.take(i as int).contains(".."@),
        decreases parts@.len() - i,
    {
        let ghost before = views(out@);
        assert(sp[i as int] == parts@[i as int]@);
        assert(sp.take(i as int + 1) =~= sp.take(i as int).push(sp[i as int]));
        assert(sp.take(i as int + 1).drop_last() =~= sp.take(i as int));
        assert(sp.take(i as int + 1).last() == sp[i as int]);
        proof {
            reveal(Seq::filter);
        }
        assert(sp.take(i as int + 1).filter(pred) == (if pred(sp[i as int]) {
            sp.take(i as int).filter(pred).push(sp[i as int])
        } else {
            sp.take(i as int).filter(pred)
        }));
        if str_eq(parts[i].as_str(), "..") {
            climbs = true;
        }
        if !str_eq(parts[i].as_str(), "") && !str_eq(parts[i].as_str(), ".") {
            out.push(owned(parts[i].as_str()));
            assert(views(out@) =~= before.push(sp[i as int]));
        }
        proof {
            let a = sp.take(i as int);
            let b = sp.take(i as int + 1);
            if b.contains(".."@) && !a.contains(".."@) {
                let k = choose|k: int| 0 <= k < b.len() && #[trigger] b[k] == ".."@;
                if k < i {
                    assert(a[k] == b[k]);
                }
            }
            if a.contains(".."@) {
                let k = choose|k: int| 0 <= k < a.len() && #[trigger] a[k] == ".."@;
                assert(b[k] == ".."@);
            }
            if sp[i as int] == ".."@ {
                assert(b[i as int] == ".."@);
            }
        }
        i += 1;
    }
    assert(sp.take(parts@.len() as int) =~= sp);
    if (cs.len() > 0 && cs[0] == '/') || climbs {
        let m = concat3("parent ", field, " must be a relative path without '..': ");
        let mut m = m;
        push_str(&mut m, rel);
        return Err(ParentCorpusError::new(ParentCorpusErrorCode::PathEscape, m.as_str()));
    }
    if out.len() == 0 && !str_eq(rel, ".") {
        let m = concat3("parent ", field, " must be a non-empty relative path");
        return Err(ParentCorpusError::new(ParentCorpusErrorCode::PathEscape, m.as_str()));
    }
    Ok(out)
}

pub open spec fn confinement_message(kind: Seq<char>, candidate: Seq<char>) -> Seq<char> {
    "parent "@ + kind + " escapes repository boundary: "@ + candidate
}

/// A canonical path must be the boundary or lie under it.
pub fn check_confined(canonical: &str, boundary: &str, candidate: &str, kind: &str) -> (r: Result<(), ParentCorpusError>)
    ensures
        r is Ok <==> (path_equal(canonical@, boundary@) || path_starts_with(canonical@, boundary@)),
        r matches Err(e) ==> e.code == ParentCorpusErrorCode::PathEscape && e.message@ == confinement_message(kind@, candidate@)
            && (e.path matches Some(p) && p@ == candidate@),
{
    if !equal_paths(canonical, boundary) && !starts_with_path(canonical, boundary) {
        let mut m = concat3("parent ", kind, " escapes repository boundary: ");
        push_str(&mut m, candidate);
        return Err(ParentCorpusError::at(ParentCorpusErrorCode::PathEscape, candidate, m.as_str()));
    }
    Ok(())
}

} // verus!
