//! The boundary between verification and composition: the failures a
//! federated load reports, and the rule that a composition with any finding
//! is refused as a whole.
use vstd::prelude::*;

use crate::composition::ComposedCorpus;
use crate::federation::{error_code_word, ParentCorpusError};
use crate::text::{concat2, owned};

verus! {

pub const PARENT_CORPUS_INVALID: &'static str = "parent-corpus-invalid";
pub const FEDERATED_CORPUS_SNAPSHOT_FAILED: &'static str = "federated-corpus-snapshot-failed";

/// One stable failure at the verification and composition boundary.
#[derive(Debug)]
pub enum FederatedCorpusError {
    Parent(ParentCorpusError),
    ParentInvalid { source: String, path: String, detail: String },
    LocalSnapshot { path: String, message: String },
    Composition { code: String, path: String, message: String },
}

/// The stable code of a boundary failure.
pub open spec fn corpus_error_code(e: FederatedCorpusError) -> Seq<char> {
    match e {
        FederatedCorpusError::Parent(p) => error_code_word(p.code),
        FederatedCorpusError::ParentInvalid { .. } => PARENT_CORPUS_INVALID@,
        FederatedCorpusError::LocalSnapshot { .. } => FEDERATED_CORPUS_SNAPSHOT_FAILED@,
        FederatedCorpusError::Composition { code, .. } => code@,
    }
}

impl FederatedCorpusError {
    /// The failure's stable code.
    pub fn stable_code(&self) -> (r: &str)
        ensures
            r@ == corpus_error_code(*self),
    {
        match self {
            FederatedCorpusError::Parent(error) => error.stable_code(),
            FederatedCorpusError::ParentInvalid { .. } => PARENT_CORPUS_INVALID,
            FederatedCorpusError::LocalSnapshot { .. } => FEDERATED_CORPUS_SNAPSHOT_FAILED,
            FederatedCorpusError::Composition { code, .. } => code.as_str(),
        }
    }

    /// The path the failure is reported at, if any.
    pub fn path(&self) -> (r: Option<&str>)
        ensures
            match *self {
                FederatedCorpusError::Parent(p) => match (p.path, r) {
                    (Some(x), Some(y)) => y@ == x@,
                    (None, None) => true,
                    _ => false,
                },
                FederatedCorpusError::ParentInvalid { path, .. } => r matches Some(y) && y@ == path@,
                FederatedCorpusError::LocalSnapshot { path, .. } => r matches Some(y) && y@ == path@,
                FederatedCorpusError::Composition { path, .. } => r matches Some(y) && y@ == path@,
            },
    {
        match self {
            FederatedCorpusError::Parent(error) => match &error.path {
                Some(p) => Some(p.as_str()),
                None => None,
            },
            FederatedCorpusError::ParentInvalid { path, .. } => Some(path.as_str()),
            FederatedCorpusError::LocalSnapshot { path, .. } => Some(path.as_str()),
            FederatedCorpusError::Composition { path, .. } => Some(path.as_str()),
        }
    }
}

/// The message a refused composition is reported with: its first finding's
/// message and both sources.
pub open spec fn refusal_message(finding_message: Seq<char>, child_source: Seq<char>, parent_source: Seq<char>) -> Seq<char> {
    finding_message + " (child source '"@ + child_source + "', parent source '"@ + parent_source + "')"@
}

/// A composition is served only when it holds no finding; otherwise the load
/// fails with the first finding's code, at the manifest's path.
pub fn accept_composition(corpus: ComposedCorpus, manifest_path: &str, child_source: &str, parent_source: &str)
    -> (r: Result<ComposedCorpus, FederatedCorpusError>)
    ensures
        (r is Ok) == (corpus.findings_view().len() == 0),
        match r {
            Ok(c) => c == corpus,
            Err(e) => e matches FederatedCorpusError::Composition { code, path, message }
                && code@ == corpus.findings_view()[0].code@
                && path@ == manifest_path@
                && message@ == refusal_message(corpus.findings_view()[0].message@, child_source@, parent_source@),
        },
{
    let findings = corpus.findings();
    if findings.len() > 0 {
        let first = &findings[0];
        let a = concat2(first.message.as_str(), " (child source '");
        let b = concat2(a.as_str(), child_source);
        let c = concat2(b.as_str(), "', parent source '");
        let d = concat2(c.as_str(), parent_source);
        let message = concat2(d.as_str(), "')");
        return Err(FederatedCorpusError::Composition {
            code: owned(first.code.as_str()),
            path: owned(manifest_path),
            message,
        });
    }
    Ok(corpus)
}

} // verus!
