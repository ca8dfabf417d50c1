//! Diagnostics. Resolution either produces a fully resolved spec or an
//! aggregated, deterministically ordered list of these errors — never both.

use vstd::prelude::*;
use crate::candidates::CandidateSet;
use crate::object::ObjectKind;
use crate::oid::{ObjectId, Prefix, views_of};
use crate::refs::Reference;

verus! {

/// A lookup capability that is reported as unsupported rather than left to
/// resolve wrongly.
#[derive(Clone, Copy, PartialEq, Eq, Structural, Debug)]
pub enum Feature {
    Reflog,
    NthCheckedOutBranch,
    SiblingBranch,
    Traversal,
    RegexFind,
    IndexLookup,
    RecursiveTagPeel,
}

/// One diagnostic.
#[derive(Debug)]
pub enum Error {
    /// No reference of the given name exists.
    RefNotFound { name: Vec<u8> },
    /// No object identifier starts with the given prefix.
    PrefixNotFound { prefix: Prefix },
    /// More than one resolution remains; the candidates are listed sorted by
    /// identifier.
    AmbiguousPrefix { prefix: Prefix, candidates: Vec<ObjectId> },
    /// The prefix is at the same time the name of an existing reference.
    AmbiguousRefAndObject { prefix: Prefix, reference: Reference },
    /// The object has, or peels to, a kind other than the requested one.
    ObjectKindMismatch { actual: ObjectKind, expected: ObjectKind, oid: ObjectId },
    /// No entry lies at the given path below the object; `tree` is the tree in
    /// which the walk stopped.
    PathNotFound { path: Vec<u8>, object: ObjectId, tree: ObjectId },
    /// The identifier names no object in the store.
    ObjectStoreLookupFailure { oid: ObjectId },
    /// The callback exists in the protocol but is not implemented here.
    UnsupportedFeature { which: Feature },
}

impl Error {
    /// The ambiguity diagnostic over a still-ambiguous candidate set.
    pub fn ambiguous(candidates: &CandidateSet, prefix: &Prefix) -> (r: Error)
        requires
            candidates.wf(),
        ensures
            is_ambiguous_prefix_error(r, prefix@, candidates@),
    {
        Error::AmbiguousPrefix {
            prefix: prefix.duplicate(),
            candidates: crate::oid::clone_ids(&candidates.ids),
        }
    }
}

/// `post` is `pre` with exactly `k` diagnostics appended.
pub open spec fn extends_by(post: Seq<Error>, pre: Seq<Error>, k: nat) -> bool {
    post.len() == pre.len() + k && post.take(pre.len() as int) == pre
}

pub open spec fn is_ref_not_found(e: Error, name: Seq<u8>) -> bool {
    match e {
        Error::RefNotFound { name: n } => n@ == name,
        _ => false,
    }
}

pub open spec fn is_prefix_not_found(e: Error, p: Seq<u8>) -> bool {
    match e {
        Error::PrefixNotFound { prefix } => prefix@ == p,
        _ => false,
    }
}

pub open spec fn is_ambiguous_ref_and_object(
    e: Error,
    p: Seq<u8>,
    refv: (Seq<u8>, bool, Seq<u8>),
) -> bool {
    match e {
        Error::AmbiguousRefAndObject { prefix, reference } => prefix@ == p && reference@ == refv,
        _ => false,
    }
}

pub open spec fn is_unsupported(e: Error, which: Feature) -> bool {
    match e {
        Error::UnsupportedFeature { which: w } => w == which,
        _ => false,
    }
}

/// `e` is the ambiguity diagnostic for prefix `p` over exactly the candidates
/// `cands`.
pub open spec fn is_ambiguous_prefix_error(e: Error, p: Seq<u8>, cands: Seq<Seq<u8>>) -> bool {
    match e {
        Error::AmbiguousPrefix { prefix, candidates } => prefix@ == p && views_of(candidates@)
            == cands,
        _ => false,
    }
}

} // verus!
