//! The resolution delegate: per-endpoint state for the grammar driver's
//! callbacks, the disambiguation and peeling operations, and the finalization
//! that assembles a resolved spec or the aggregated diagnostics.

use vstd::prelude::*;
use crate::candidates::CandidateSet;
use crate::error::{Error, Feature, extends_by, is_ref_not_found, is_unsupported};
use crate::object::{ObjectStore, ObjectKind, spec_peel, is_peel_failure_error, peel,
    require_object_kind, lemma_filter_element_index, lemma_filter_of_sorted_is_sorted};
use crate::oid::{ObjectId, Prefix, views_of, lex_lt, lemma_lex_lt_asymmetric};
use crate::refs::{Reference, RefStore, spec_find_ref, spec_ref_object, resolve_reference};

verus! {

/// How the named endpoints combine: one object included or excluded, a range,
/// a merge base, or parent-filtered forms.
#[derive(Clone, Copy, PartialEq, Eq, Structural, Debug)]
pub enum SpecKind {
    IncludeReachable,
    ExcludeReachable,
    RangeBetween,
    ReachableToMergeBase,
    IncludeReachableFromParents,
    ExcludeReachableFromParents,
}

/// Whether the spec kind names a second endpoint.
pub open spec fn two_endpoints(k: SpecKind) -> bool {
    k == SpecKind::RangeBetween || k == SpecKind::ReachableToMergeBase
}

/// The spec kind assumed when the driver set none.
pub open spec fn kind_or_default(k: Option<SpecKind>) -> SpecKind {
    match k {
        Option::Some(x) => x,
        Option::None => SpecKind::IncludeReachable,
    }
}

/// Every kind but a plain single-object include expects commit-like endpoints.
pub open spec fn committish_implied(k: Option<SpecKind>) -> bool {
    kind_or_default(k) != SpecKind::IncludeReachable
}

/// How a tie between a reference name and an object prefix is settled.
#[derive(Clone, Copy, PartialEq, Eq, Structural, Debug)]
pub enum RefsHint {
    /// Take the object when the prefix has full hash length, the ref otherwise.
    PreferObjectOnFullLengthHexShaUseRefOtherwise,
    PreferObject,
    PreferRef,
    /// Record the tie as an error and refuse to resolve the endpoint.
    Fail,
}

/// The object kind expected of an endpoint when nothing narrowed it.
#[derive(Clone, Copy, PartialEq, Eq, Structural, Debug)]
pub enum ObjectKindHint {
    /// Exactly a tree.
    Tree,
    /// Exactly a commit.
    Commit,
    /// Exactly a blob.
    Blob,
    /// Anything that peels to a tree.
    Treeish,
    /// Anything that peels to a commit.
    Committish,
}

/// Immutable resolution options, supplied at delegate construction.
#[derive(Clone, Copy)]
pub struct Options {
    pub refs_hint: RefsHint,
    pub object_kind_hint: Option<ObjectKindHint>,
}

/// The terminal resolved shape.
#[derive(Debug)]
pub enum Spec {
    Include(crate::oid::ObjectId),
    Exclude(crate::oid::ObjectId),
    Range { from: crate::oid::ObjectId, to: crate::oid::ObjectId },
    Merge { theirs: crate::oid::ObjectId, ours: crate::oid::ObjectId },
    IncludeOnlyParents { from_exclusive: crate::oid::ObjectId },
    ExcludeFromParents { from: crate::oid::ObjectId },
}

/// A resolved spec, with the references used per endpoint kept for display.
#[derive(Debug)]
pub struct RevSpec {
    pub first_ref: Option<Reference>,
    pub second_ref: Option<Reference>,
    pub inner: Spec,
}

/// The state of one endpoint slot.
pub struct Endpoint {
    /// The reference resolved for this endpoint, if any.
    pub reference: Option<Reference>,
    /// The candidate identifiers; more than one means still ambiguous.
    pub objs: Option<CandidateSet>,
    /// The candidates exactly as the prefix lookup produced them, kept to
    /// format ambiguity diagnostics.
    pub ambiguous_objs: Option<CandidateSet>,
    /// The prefix that produced the candidate set.
    pub prefix: Option<Prefix>,
    /// The most recent operation on this slot was a bare prefix
    /// disambiguation, not yet narrowed by a peel or kind filter.
    pub last_call_was_disambiguate_prefix: bool,
}

impl Endpoint {
    /// A candidate set, once present, is never empty: an operation that would
    /// empty it fails instead, before the empty state can be observed.
    pub open spec fn wf(&self) -> bool {
        &&& (self.objs matches Some(c) ==> c.wf() && c@.len() >= 1)
        &&& (self.ambiguous_objs matches Some(c) ==> c.wf() && c@.len() >= 1)
        &&& (self.reference matches Some(r) ==> r.wf())
        &&& (self.prefix matches Some(p) ==> p.wf())
    }

    pub open spec fn fresh(&self) -> bool {
        &&& self.reference is None
        &&& self.objs is None
        &&& self.ambiguous_objs is None
        &&& self.prefix is None
        &&& !self.last_call_was_disambiguate_prefix
    }

    fn new() -> (r: Endpoint)
        ensures
            r.fresh(),
            r.wf(),
    {
        Endpoint {
            reference: None,
            objs: None,
            ambiguous_objs: None,
            prefix: None,
            last_call_was_disambiguate_prefix: false,
        }
    }
}

/// The resolution delegate: two endpoint slots, the structural kind, the
/// accumulated diagnostics, and the options. One instance serves one spec
/// string: mutated during the single parse pass and consumed once.
pub struct Delegate {
    pub first: Endpoint,
    pub second: Endpoint,
    /// The endpoint being parsed: 0 or 1.
    pub idx: usize,
    pub kind: Option<SpecKind>,
    /// Diagnostics in the order they arose.
    pub err: Vec<Error>,
    pub opts: Options,
}

/// Nothing changes but the current endpoint and the diagnostics.
pub open spec fn frame_cur(pre: Delegate, post: Delegate) -> bool {
    &&& post.opts == pre.opts
    &&& post.kind == pre.kind
    &&& post.idx == pre.idx
    &&& (pre.idx == 0 ==> post.second == pre.second)
    &&& (pre.idx != 0 ==> post.first == pre.first)
}

impl Delegate {
    pub open spec fn wf(&self) -> bool {
        &&& self.first.wf()
        &&& self.second.wf()
        &&& self.idx <= 1
        &&& (self.kind is None ==> self.idx == 0)
    }

    /// The endpoint slot being parsed.
    pub open spec fn cur(&self) -> Endpoint {
        if self.idx == 0 {
            self.first
        } else {
            self.second
        }
    }

    pub open spec fn fresh(&self, opts: Options) -> bool {
        &&& self.first.fresh()
        &&& self.second.fresh()
        &&& self.idx == 0
        &&& self.kind is None
        &&& self.err@.len() == 0
        &&& self.opts == opts
    }

    /// A delegate ready for one parse pass.
    pub fn new(opts: Options) -> (r: Delegate)
        ensures
            r.fresh(opts),
            r.wf(),
    {
        Delegate {
            first: Endpoint::new(),
            second: Endpoint::new(),
            idx: 0,
            kind: None,
            err: Vec::new(),
            opts,
        }
    }

    /// Whether the structural kind makes the endpoints commit-like.
    pub fn kind_implies_committish(&self) -> (r: bool)
        ensures
            r == committish_implied(self.kind),
    {
        match self.kind {
            Some(k) => !matches!(k, SpecKind::IncludeReachable),
            None => false,
        }
    }

    /// Clears the current slot's bare-disambiguation flag.
    pub fn unset_disambiguate_call(&mut self)
        requires
            old(self).wf(),
        ensures
            final(self).wf(),
            *final(self) == flag_cleared(*old(self)),
    {
        if self.idx == 0 {
            self.first.last_call_was_disambiguate_prefix = false;
        } else {
            self.second.last_call_was_disambiguate_prefix = false;
        }
    }

    /// Resolves a reference by name for the current endpoint.
    pub fn find_ref(&mut self, refs: &RefStore, name: &Vec<u8>) -> (r: Option<()>)
        requires
            old(self).wf(),
            refs.wf(),
            old(self).err@.len() == 0 ==> old(self).cur().reference is None,
        ensures
            final(self).wf(),
            frame_cur(*old(self), *final(self)),
            ({
                let pre = flag_cleared(*old(self));
                if old(self).err@.len() > 0 && old(self).cur().reference is Some {
                    *final(self) == pre && r is None
                } else {
                    match spec_find_ref(refs.refs@, name@) {
                        Option::Some(orig) => {
                            &&& r is Some
                            &&& final(self).err@ == old(self).err@
                            &&& final(self).cur() == (Endpoint {
                                reference: final(self).cur().reference,
                                ..pre.cur()
                            })
                            &&& final(self).cur().reference matches Some(rf) && rf@ == orig@
                        },
                        Option::None => {
                            &&& r is None
                            &&& final(self).cur() == pre.cur()
                            &&& extends_by(final(self).err@, old(self).err@, 1)
                            &&& is_ref_not_found(final(self).err@.last(), name@)
                        },
                    }
                }
            }),
    {
        self.unset_disambiguate_call();
        if self.err.len() > 0 {
            let taken = if self.idx == 0 {
                self.first.reference.is_some()
            } else {
                self.second.reference.is_some()
            };
            if taken {
                return None;
            }
        }
        match refs.find(name) {
            Some(rf) => {
                if self.idx == 0 {
                    self.first.reference = Some(rf);
                } else {
                    self.second.reference = Some(rf);
                }
                Some(())
            },
            None => {
                self.err.push(Error::RefNotFound { name: crate::oid::clone_bytes(name) });
                assert(final(self).err@.take(old(self).err@.len() as int) =~= old(self).err@);
                None
            },
        }
    }
}

/// The exact kind a hint requires, or peels toward.
pub open spec fn hint_target(h: ObjectKindHint) -> ObjectKind {
    match h {
        ObjectKindHint::Tree => ObjectKind::Tree,
        ObjectKindHint::Treeish => ObjectKind::Tree,
        ObjectKindHint::Commit => ObjectKind::Commit,
        ObjectKindHint::Committish => ObjectKind::Commit,
        ObjectKindHint::Blob => ObjectKind::Blob,
    }
}

/// A strict hint requires the exact kind; a loose one tolerates peeling.
pub open spec fn hint_is_strict(h: ObjectKindHint) -> bool {
    h == ObjectKindHint::Tree || h == ObjectKindHint::Commit || h == ObjectKindHint::Blob
}

/// The candidate does not meet the hint.
pub open spec fn hint_fails(store: ObjectStore, h: ObjectKindHint, c: Seq<u8>) -> bool {
    if hint_is_strict(h) {
        !(store.spec_find(c) matches Some(d) && d.spec_kind() == hint_target(h))
    } else {
        !(spec_peel(store, c, hint_target(h)) is Ok)
    }
}

/// `e` explains why candidate `c` fails the hint.
pub open spec fn is_hint_error(e: Error, store: ObjectStore, h: ObjectKindHint, c: Seq<u8>) -> bool {
    if hint_is_strict(h) {
        match store.spec_find(c) {
            Option::None => e matches Error::ObjectStoreLookupFailure { oid } && oid@ == c,
            Option::Some(d) => e matches Error::ObjectKindMismatch { actual, expected, oid }
                && actual == d.spec_kind() && expected == hint_target(h) && oid@ == c,
        }
    } else {
        spec_peel(store, c, hint_target(h)) matches Err(f) && is_peel_failure_error(
            e,
            f,
            hint_target(h),
        )
    }
}

/// What the fallback kind-hint disambiguation does to one endpoint and the
/// diagnostics: nothing unless the slot's last operation was a bare prefix
/// disambiguation; then the failing candidates are explained and, as long as
/// any candidate survives, removed.
pub open spec fn fallback_applied(
    store: ObjectStore,
    hint: Option<ObjectKindHint>,
    pre: Endpoint,
    post: Endpoint,
    pre_err: Seq<Error>,
    post_err: Seq<Error>,
) -> bool {
    if !pre.last_call_was_disambiguate_prefix {
        post == pre && post_err == pre_err
    } else {
        let cleared = Endpoint { last_call_was_disambiguate_prefix: false, ..pre };
        match (pre.objs, hint) {
            (Option::Some(cobj), Option::Some(h)) => {
                let cands = cobj@;
                let failing = cands.filter(|c: Seq<u8>| hint_fails(store, h, c));
                &&& extends_by(post_err, pre_err, failing.len() as nat)
                &&& forall|t: int|
                    0 <= t < failing.len() ==> is_hint_error(
                        #[trigger] post_err[pre_err.len() + t],
                        store,
                        h,
                        failing[t],
                    )
                &&& if failing.len() == cands.len() {
                    post == cleared
                } else {
                    &&& post == (Endpoint { objs: post.objs, ..cleared })
                    &&& post.objs matches Some(c2)
                    &&& post.objs.unwrap().wf()
                    &&& post.objs.unwrap()@.len() >= 1
                    &&& forall|x: Seq<u8>|
                        post.objs.unwrap().has(x) <==> (cands.contains(x) && !hint_fails(
                            store,
                            h,
                            x,
                        ))
                }
            },
            _ => post == cleared && post_err == pre_err,
        }
    }
}

impl Delegate {
    /// Applies the fallback kind hint (an explicit option, or the commit-ish
    /// implication of the structural kind) to the current endpoint, if its
    /// last operation was a bare prefix disambiguation: candidates that do not
    /// meet the hint are explained and, as long as any candidate survives,
    /// removed.
    pub fn disambiguate_objects_by_fallback_hint(
        &mut self,
        store: &ObjectStore,
        hint: Option<ObjectKindHint>,
    )
        requires
            old(self).wf(),
            store.wf(),
        ensures
            final(self).wf(),
            frame_cur(*old(self), *final(self)),
            fallback_applied(
                *store,
                hint,
                old(self).cur(),
                final(self).cur(),
                old(self).err@,
                final(self).err@,
            ),
    {
        let flag = if self.idx == 0 {
            self.first.last_call_was_disambiguate_prefix
        } else {
            self.second.last_call_was_disambiguate_prefix
        };
        if !flag {
            return;
        }
        self.unset_disambiguate_call();
        let h = match hint {
            Some(h) => h,
            None => {
                return;
            },
        };
        let mut cands: CandidateSet = if self.idx == 0 {
            match &self.first.objs {
                Some(c) => c.duplicate(),
                None => {
                    return;
                },
            }
        } else {
            match &self.second.objs {
                Some(c) => c.duplicate(),
                None => {
                    return;
                },
            }
        };
        let ghost cands0 = cands@;
        let ghost pred = |c: Seq<u8>| hint_fails(*store, h, c);
        let ghost pre_err = self.err@;
        let target = match h {
            ObjectKindHint::Tree => ObjectKind::Tree,
            ObjectKindHint::Treeish => ObjectKind::Tree,
            ObjectKindHint::Commit => ObjectKind::Commit,
            ObjectKindHint::Committish => ObjectKind::Commit,
            ObjectKindHint::Blob => ObjectKind::Blob,
        };
        let strict = matches!(h, ObjectKindHint::Tree | ObjectKindHint::Commit | ObjectKindHint::Blob);
        let mut failing: Vec<ObjectId> = Vec::new();
        let mut i: usize = 0;
        proof {
            assert(cands0.take(0) =~= Seq::<Seq<u8>>::empty());
            reveal_with_fuel(Seq::filter, 1);
            assert(Seq::<Seq<u8>>::empty().filter(pred) =~= Seq::<Seq<u8>>::empty());
            assert(self.err@.take(pre_err.len() as int) =~= pre_err);
        }
        while i < cands.len()
            invariant
                self.wf(),
                store.wf(),
                *self == (Delegate { err: self.err, ..flag_cleared(*old(self)) }),
                cands.wf(),
                cands@ == cands0,
                cands0 == old(self).cur().objs.unwrap()@,
                i <= cands0.len(),
                strict == hint_is_strict(h),
                target == hint_target(h),
                pred == (|c: Seq<u8>| hint_fails(*store, h, c)),
                views_of(failing@) =~= cands0.take(i as int).filter(pred),
                forall|t: int| 0 <= t < failing@.len() ==> (#[trigger] failing@[t]).wf(),
                extends_by(self.err@, pre_err, failing@.len() as nat),
                forall|t: int|
                    0 <= t < failing@.len() ==> is_hint_error(
                        #[trigger] self.err@[pre_err.len() + t],
                        *store,
                        h,
                        views_of(failing@)[t],
                    ),
            decreases cands0.len() - i,
        {
            let ghost pre_fail = views_of(failing@);
            let c = cands.get(i);
            let fail_err: Option<Error> = if strict {
                match require_object_kind(store, c, target) {
                    Ok(_) => None,
                    Err(e) => Some(e),
                }
            } else {
                match peel(store, c, target) {
                    Ok(_) => None,
                    Err(e) => Some(e),
                }
            };
            let cdup = c.duplicate();
            match fail_err {
                Some(e) => {
                    assert(pred(cands0[i as int]));
                    failing.push(cdup);
                    self.err.push(e);
                    assert(self.err@.take(pre_err.len() as int) =~= pre_err);
                },
                None => {
                    assert(!pred(cands0[i as int]));
                },
            }
            proof {
                let taken = cands0.take(i as int);
                let next = cands0.take(i + 1);
                assert(next =~= taken + seq![cands0[i as int]]);
                Seq::<Seq<u8>>::filter_distributes_over_add(taken, seq![cands0[i as int]], pred);
                reveal_with_fuel(Seq::filter, 2);
                assert(seq![cands0[i as int]].drop_last() =~= Seq::<Seq<u8>>::empty());
                if pred(cands0[i as int]) {
                    assert(seq![cands0[i as int]].filter(pred) =~= seq![cands0[i as int]]);
                    assert(views_of(failing@) =~= pre_fail.push(cands0[i as int]));
                } else {
                    assert(seq![cands0[i as int]].filter(pred) =~= Seq::<Seq<u8>>::empty());
                }
                assert(views_of(failing@) =~= next.filter(pred));
            }
            i += 1;
        }
        proof {
            assert(cands0.take(cands0.len() as int) =~= cands0);
        }
        let ghost failing_views = views_of(failing@);
        if failing.len() == cands.len() {
            return;
        }
        // remove the failing candidates; at least one candidate survives
        proof {
            assert forall|a: int, b: int| 0 <= a < b < failing_views.len() implies lex_lt(
                failing_views[a],
                failing_views[b],
            ) by {
                lemma_filter_of_sorted_is_sorted(cands0, pred, a, b);
            }
            assert forall|t: int| 0 <= t < failing@.len() implies cands.has(
                #[trigger] failing_views[t],
            ) by {
                lemma_filter_element_index(cands0, pred, t);
            }
        }
        cands.remove_all(&failing);
        proof {
            assert forall|x: Seq<u8>| cands.has(x) <==> (cands0.contains(x) && !pred(x)) by {
                if cands0.contains(x) {
                    if pred(x) {
                        let w = choose|w: int| 0 <= w < cands0.len() && cands0[w] == x;
                        cands0.lemma_filter_contains(pred, w);
                    }
                    if failing_views.contains(x) {
                        let w = choose|w: int|
                            0 <= w < failing_views.len() && failing_views[w] == x;
                        cands0.lemma_filter_pred(pred, w);
                    }
                }
            }
        }
        if self.idx == 0 {
            self.first.objs = Some(cands);
        } else {
            self.second.objs = Some(cands);
        }
    }
}

/// What promoting one endpoint's reference to a candidate does: an endpoint
/// with a reference and no candidates yet gets the reference's concrete
/// identifier as a one-element candidate set; a failed promotion changes
/// nothing.
pub open spec fn promoted(refs: RefStore, store: ObjectStore, pre: Endpoint, post: Endpoint) -> bool {
    match pre.reference {
        Option::Some(r) => if pre.objs is None {
            match spec_ref_object(refs, store, r) {
                Option::Some(id) => {
                    &&& post == (Endpoint { objs: post.objs, ..pre })
                    &&& post.objs matches Some(c)
                    &&& post.objs.unwrap()@ =~= seq![id]
                    &&& post.objs.unwrap().wf()
                },
                Option::None => post == pre,
            }
        } else {
            post == pre
        },
        Option::None => post == pre,
    }
}

/// Promotes one endpoint's reference, if it has no candidates yet.
fn promote_endpoint(ep: &mut Endpoint, refs: &RefStore, store: &ObjectStore)
    requires
        old(ep).wf(),
        refs.wf(),
        store.wf(),
    ensures
        final(ep).wf(),
        promoted(*refs, *store, *old(ep), *final(ep)),
{
    let resolved: Option<crate::oid::ObjectId> = match (&ep.reference, &ep.objs) {
        (Some(r), None) => resolve_reference(refs, store, r),
        _ => None,
    };
    match resolved {
        Some(id) => {
            ep.objs = Some(CandidateSet::singleton(id));
        },
        None => {},
    }
}

/// The hint finalization falls back to: the structural kind's commit-ish
/// implication, else the option supplied at construction.
pub open spec fn done_hint(d: Delegate) -> Option<ObjectKindHint> {
    if committish_implied(d.kind) {
        Option::Some(ObjectKindHint::Committish)
    } else {
        d.opts.object_kind_hint
    }
}

impl Delegate {
    /// Gives every endpoint that holds a reference but no candidates yet a
    /// one-element candidate set from the reference's concrete identifier.
    pub fn follow_refs_to_objects_if_needed(&mut self, refs: &RefStore, store: &ObjectStore) -> (r:
        Option<()>)
        requires
            old(self).wf(),
            refs.wf(),
            store.wf(),
        ensures
            final(self).wf(),
            r is Some,
            promoted(*refs, *store, old(self).first, final(self).first),
            promoted(*refs, *store, old(self).second, final(self).second),
            final(self).idx == old(self).idx,
            final(self).kind == old(self).kind,
            final(self).opts == old(self).opts,
            final(self).err@ == old(self).err@,
    {
        promote_endpoint(&mut self.first, refs, store);
        promote_endpoint(&mut self.second, refs, store);
        Some(())
    }

    /// Finalization's state pass: promote references to candidate sets, then
    /// apply the strongest available kind hint to the current endpoint.
    pub fn done(&mut self, refs: &RefStore, store: &ObjectStore)
        requires
            old(self).wf(),
            refs.wf(),
            store.wf(),
        ensures
            final(self).wf(),
            final(self).idx == old(self).idx,
            final(self).kind == old(self).kind,
            final(self).opts == old(self).opts,
            exists|m1: Endpoint, m2: Endpoint|
                {
                    &&& promoted(*refs, *store, old(self).first, m1)
                    &&& promoted(*refs, *store, old(self).second, m2)
                    &&& fallback_applied(
                        *store,
                        done_hint(*old(self)),
                        if old(self).idx == 0 {
                            m1
                        } else {
                            m2
                        },
                        final(self).cur(),
                        old(self).err@,
                        final(self).err@,
                    )
                    &&& (old(self).idx == 0 ==> final(self).second == m2)
                    &&& (old(self).idx != 0 ==> final(self).first == m1)
                },
    {
        self.follow_refs_to_objects_if_needed(refs, store);
        let ghost m1 = self.first;
        let ghost m2 = self.second;
        let hint = if self.kind_implies_committish() {
            Some(ObjectKindHint::Committish)
        } else {
            self.opts.object_kind_hint
        };
        self.disambiguate_objects_by_fallback_hint(store, hint);
        proof {
            assert(promoted(*refs, *store, old(self).first, m1) && promoted(
                *refs,
                *store,
                old(self).second,
                m2,
            ));
        }
    }

    /// Reflog lookups are unsupported: the callback fails loudly.
    pub fn reflog(&mut self, entry: usize) -> (r: Option<()>)
        requires
            old(self).wf(),
        ensures
            final(self).wf(),
            refused(*old(self), *final(self), Feature::Reflog),
            r is None,
    {
        let _ = entry;
        self.refuse(Feature::Reflog)
    }

    /// Lookups of the Nth previously checked-out branch are unsupported.
    pub fn nth_checked_out_branch(&mut self, branch_no: usize) -> (r: Option<()>)
        requires
            old(self).wf(),
        ensures
            final(self).wf(),
            refused(*old(self), *final(self), Feature::NthCheckedOutBranch),
            r is None,
    {
        let _ = branch_no;
        self.refuse(Feature::NthCheckedOutBranch)
    }

    /// Sibling-branch lookups are unsupported.
    pub fn sibling_branch(&mut self) -> (r: Option<()>)
        requires
            old(self).wf(),
        ensures
            final(self).wf(),
            refused(*old(self), *final(self), Feature::SiblingBranch),
            r is None,
    {
        self.refuse(Feature::SiblingBranch)
    }

    /// Ancestry traversal is unsupported.
    pub fn traverse(&mut self) -> (r: Option<()>)
        requires
            old(self).wf(),
        ensures
            final(self).wf(),
            refused(*old(self), *final(self), Feature::Traversal),
            r is None,
    {
        self.refuse(Feature::Traversal)
    }

    /// Searching commits by regular expression is unsupported.
    pub fn find(&mut self, regex: &Vec<u8>, negated: bool) -> (r: Option<()>)
        requires
            old(self).wf(),
        ensures
            final(self).wf(),
            refused(*old(self), *final(self), Feature::RegexFind),
            r is None,
    {
        let _ = regex;
        let _ = negated;
        self.refuse(Feature::RegexFind)
    }

    /// Index-stage lookups are unsupported.
    pub fn index_lookup(&mut self, path: &Vec<u8>, stage: u8) -> (r: Option<()>)
        requires
            old(self).wf(),
        ensures
            final(self).wf(),
            refused(*old(self), *final(self), Feature::IndexLookup),
            r is None,
    {
        let _ = path;
        let _ = stage;
        self.refuse(Feature::IndexLookup)
    }

    /// Records an unsupported capability loudly and refuses the callback.
    fn refuse(&mut self, which: Feature) -> (r: Option<()>)
        requires
            old(self).wf(),
        ensures
            final(self).wf(),
            refused(*old(self), *final(self), which),
            r is None,
    {
        self.unset_disambiguate_call();
        self.err.push(Error::UnsupportedFeature { which });
        assert(final(self).err@.take(old(self).err@.len() as int) =~= old(self).err@);
        None
    }

    /// Sets the structural kind; when it is one that expects commit-like
    /// endpoints, the fallback hint runs at once, and when it names a second
    /// endpoint, parsing advances to the second slot.
    pub fn kind(&mut self, store: &ObjectStore, kind: SpecKind) -> (r: Option<()>)
        requires
            old(self).wf(),
            store.wf(),
            old(self).kind is None,
        ensures
            final(self).wf(),
            r is Some,
            final(self).kind == Some(kind),
            final(self).opts == old(self).opts,
            final(self).second == old(self).second,
            final(self).idx == (if two_endpoints(kind) {
                1usize
            } else {
                0usize
            }),
            if committish_implied(Some(kind)) {
                fallback_applied(
                    *store,
                    Option::Some(ObjectKindHint::Committish),
                    old(self).first,
                    final(self).first,
                    old(self).err@,
                    final(self).err@,
                )
            } else {
                final(self).first == old(self).first && final(self).err@ == old(self).err@
            },
    {
        self.kind = Some(kind);
        if self.kind_implies_committish() {
            self.disambiguate_objects_by_fallback_hint(store, Some(ObjectKindHint::Committish));
        }
        if matches!(kind, SpecKind::RangeBetween | SpecKind::ReachableToMergeBase) {
            self.idx = 1;
        }
        Some(())
    }
}

/// The policy adopts the object candidates without trying the prefix as a
/// reference name.
pub open spec fn prefix_prefers_object(opts: Options, plen: nat) -> bool {
    opts.refs_hint == RefsHint::PreferObject || (opts.refs_hint
        == RefsHint::PreferObjectOnFullLengthHexShaUseRefOtherwise && plen
        == crate::oid::HEX_LEN)
}

/// The endpoint adopted the candidate run `m`: both the working and the
/// diagnostic copy hold exactly `m`.
pub open spec fn adopted(post: Endpoint, keep: Endpoint, m: Seq<Seq<u8>>) -> bool {
    &&& post == (Endpoint { objs: post.objs, ambiguous_objs: post.ambiguous_objs, ..keep })
    &&& post.objs matches Some(c)
    &&& post.objs.unwrap()@ == m
    &&& post.objs.unwrap().wf()
    &&& post.ambiguous_objs matches Some(c2)
    &&& post.ambiguous_objs.unwrap()@ == m
    &&& post.ambiguous_objs.unwrap().wf()
}

impl Delegate {
    /// Queries the store for every identifier matching the prefix for the
    /// current endpoint, then settles the ref-versus-object tie by policy:
    /// adopt the candidates, adopt a reference literally named like the
    /// prefix, or record the tie as an error and refuse.
    pub fn disambiguate_prefix(&mut self, store: &ObjectStore, refs: &RefStore, prefix: Prefix) -> (r:
        Option<()>)
        requires
            old(self).wf(),
            store.wf(),
            refs.wf(),
            prefix.wf(),
            old(self).cur().objs is None,
            old(self).cur().reference is None,
        ensures
            final(self).wf(),
            frame_cur(*old(self), *final(self)),
            final(self).cur().last_call_was_disambiguate_prefix,
            final(self).cur().prefix matches Some(p) && p@ == prefix@,
            ({
                let m = store.matching(prefix@);
                let keep = Endpoint {
                    prefix: final(self).cur().prefix,
                    last_call_was_disambiguate_prefix: true,
                    ..old(self).cur()
                };
                if m.len() == 0 {
                    &&& r is None
                    &&& final(self).cur() == keep
                    &&& extends_by(final(self).err@, old(self).err@, 1)
                    &&& crate::error::is_prefix_not_found(final(self).err@.last(), prefix@)
                } else if prefix_prefers_object(old(self).opts, prefix@.len()) {
                    &&& r is Some
                    &&& adopted(final(self).cur(), keep, m)
                    &&& final(self).err@ == old(self).err@
                } else {
                    match spec_find_ref(refs.refs@, crate::oid::hex_chars(prefix@)) {
                        Option::Some(orig) => if old(self).opts.refs_hint == RefsHint::Fail {
                            &&& r is None
                            &&& final(self).cur() == (Endpoint {
                                reference: final(self).cur().reference,
                                ..keep
                            })
                            &&& final(self).cur().reference matches Some(rf) && rf@ == orig@
                            &&& extends_by(final(self).err@, old(self).err@, 2)
                            &&& crate::error::is_ambiguous_ref_and_object(
                                final(self).err@[old(self).err@.len() as int],
                                prefix@,
                                orig@,
                            )
                            &&& crate::error::is_ambiguous_prefix_error(
                                final(self).err@.last(),
                                prefix@,
                                m,
                            )
                        } else {
                            &&& r is Some
                            &&& final(self).cur() == (Endpoint {
                                reference: final(self).cur().reference,
                                ..keep
                            })
                            &&& final(self).cur().reference matches Some(rf) && rf@ == orig@
                            &&& final(self).err@ == old(self).err@
                        },
                        Option::None => {
                            &&& r is Some
                            &&& adopted(final(self).cur(), keep, m)
                            &&& final(self).err@ == old(self).err@
                        },
                    }
                }
            }),
    {
        if self.idx == 0 {
            self.first.last_call_was_disambiguate_prefix = true;
            self.first.prefix = Some(prefix.duplicate());
        } else {
            self.second.last_call_was_disambiguate_prefix = true;
            self.second.prefix = Some(prefix.duplicate());
        }
        match store.lookup_prefix(&prefix) {
            None => {
                self.err.push(Error::PrefixNotFound { prefix });
                assert(final(self).err@.take(old(self).err@.len() as int) =~= old(self).err@);
                None
            },
            Some(candidates) => {
                let full = prefix.hex_len() == crate::oid::HEX_LEN;
                let prefer_object = matches!(self.opts.refs_hint, RefsHint::PreferObject) || (
                matches!(self.opts.refs_hint, RefsHint::PreferObjectOnFullLengthHexShaUseRefOtherwise)
                    && full);
                if prefer_object {
                    let amb = candidates.duplicate();
                    if self.idx == 0 {
                        self.first.objs = Some(candidates);
                        self.first.ambiguous_objs = Some(amb);
                    } else {
                        self.second.objs = Some(candidates);
                        self.second.ambiguous_objs = Some(amb);
                    }
                    Some(())
                } else {
                    let name = prefix.to_hex_bytes();
                    match refs.find(&name) {
                        Some(rf) => {
                            if matches!(self.opts.refs_hint, RefsHint::Fail) {
                                let rf2 = rf.duplicate();
                                if self.idx == 0 {
                                    self.first.reference = Some(rf);
                                } else {
                                    self.second.reference = Some(rf);
                                }
                                self.err.push(
                                    Error::AmbiguousRefAndObject {
                                        prefix: prefix.duplicate(),
                                        reference: rf2,
                                    },
                                );
                                self.err.push(Error::ambiguous(&candidates, &prefix));
                                assert(final(self).err@.take(old(self).err@.len() as int)
                                    =~= old(self).err@);
                                None
                            } else {
                                if self.idx == 0 {
                                    self.first.reference = Some(rf);
                                } else {
                                    self.second.reference = Some(rf);
                                }
                                Some(())
                            }
                        },
                        None => {
                            let amb = candidates.duplicate();
                            if self.idx == 0 {
                                self.first.objs = Some(candidates);
                                self.first.ambiguous_objs = Some(amb);
                            } else {
                                self.second.objs = Some(candidates);
                                self.second.ambiguous_objs = Some(amb);
                            }
                            Some(())
                        },
                    }
                }
            },
        }
    }
}

/// What a peel operation asks for.
pub enum PeelTo {
    /// Verify that each candidate still exists in the store.
    ValidObject,
    /// Peel each candidate to the given kind.
    ObjectKind(ObjectKind),
    /// Peel each candidate to a tree, then walk the slash-separated path
    /// below it.
    Path(Vec<u8>),
    /// Peel to whatever a recursive tag dereference ends at; unsupported.
    RecursiveTagObject,
}

/// The candidate satisfies the peel request.
pub open spec fn peel_req_ok(store: ObjectStore, shape: PeelTo, c: Seq<u8>) -> bool {
    match shape {
        PeelTo::ValidObject => store.spec_find(c) is Some,
        PeelTo::ObjectKind(k) => spec_peel(store, c, k) is Ok,
        PeelTo::Path(p) => crate::object::spec_path_ok(store, c, p@) is Some,
        PeelTo::RecursiveTagObject => false,
    }
}

/// The identifier a satisfied peel request replaces the candidate with.
pub open spec fn peel_req_result(store: ObjectStore, shape: PeelTo, c: Seq<u8>) -> Seq<u8> {
    match shape {
        PeelTo::ValidObject => c,
        PeelTo::ObjectKind(k) => match spec_peel(store, c, k) {
            Result::Ok(x) => x,
            Result::Err(_) => c,
        },
        PeelTo::Path(p) => match crate::object::spec_path_ok(store, c, p@) {
            Option::Some(x) => x,
            Option::None => c,
        },
        PeelTo::RecursiveTagObject => c,
    }
}

/// `e` explains why the candidate fails the peel request.
pub open spec fn is_peel_req_error(e: Error, store: ObjectStore, shape: PeelTo, c: Seq<u8>) -> bool {
    match shape {
        PeelTo::ValidObject => e matches Error::ObjectStoreLookupFailure { oid } && oid@ == c,
        PeelTo::ObjectKind(k) => spec_peel(store, c, k) matches Err(f) && is_peel_failure_error(
            e,
            f,
            k,
        ),
        PeelTo::Path(p) => crate::object::is_path_failure_error(e, store, c, p@),
        PeelTo::RecursiveTagObject => false,
    }
}

/// Applies find-and-replace pairs to a set, in order: remove the sought
/// identifier, insert its replacement.
pub open spec fn replace_all(s: Set<Seq<u8>>, pairs: Seq<(Seq<u8>, Seq<u8>)>) -> Set<Seq<u8>>
    decreases pairs.len(),
{
    if pairs.len() == 0 {
        s
    } else {
        replace_all(s.remove(pairs[0].0).insert(pairs[0].1), pairs.skip(1))
    }
}

/// The candidates that survive the peel request.
pub open spec fn survivor_set(store: ObjectStore, shape: PeelTo, cands: Seq<Seq<u8>>) -> Set<
    Seq<u8>,
> {
    Set::new(|x: Seq<u8>| cands.contains(x) && peel_req_ok(store, shape, x))
}

/// The replacement pairs a peel request generates, in candidate order; a
/// valid-object check replaces nothing.
pub open spec fn peel_pairs(store: ObjectStore, shape: PeelTo, cands: Seq<Seq<u8>>) -> Seq<
    (Seq<u8>, Seq<u8>),
> {
    match shape {
        PeelTo::ValidObject => Seq::empty(),
        _ => cands.filter(|c: Seq<u8>| peel_req_ok(store, shape, c)).map_values(
            |c: Seq<u8>| (c, peel_req_result(store, shape, c)),
        ),
    }
}

/// The views of a run of identifier pairs.
pub open spec fn pair_views(s: Seq<(ObjectId, ObjectId)>) -> Seq<(Seq<u8>, Seq<u8>)> {
    s.map_values(|pr: (ObjectId, ObjectId)| (pr.0@, pr.1@))
}

/// The set of identifiers a candidate set holds.
pub open spec fn cs_set(c: CandidateSet) -> Set<Seq<u8>> {
    Set::new(|x: Seq<u8>| c.has(x))
}

/// What one peel operation does to the endpoint it reaches (after reference
/// promotion) and to the diagnostics: failing candidates are explained; all
/// failing aborts the endpoint; otherwise the failing leave the set and each
/// successful candidate is replaced by its peel result.
pub open spec fn peel_op_applied(
    store: ObjectStore,
    shape: PeelTo,
    mid: Endpoint,
    post: Endpoint,
    pre_err: Seq<Error>,
    post_err: Seq<Error>,
    r: Option<()>,
) -> bool {
    match mid.objs {
        Option::None => post == mid && post_err == pre_err && r is None,
        Option::Some(cobj) => if (shape matches PeelTo::RecursiveTagObject) {
            &&& post == mid
            &&& extends_by(post_err, pre_err, 1)
            &&& is_unsupported(post_err.last(), Feature::RecursiveTagPeel)
            &&& r is None
        } else {
            let cands = cobj@;
            let failing = cands.filter(|c: Seq<u8>| !peel_req_ok(store, shape, c));
            &&& extends_by(post_err, pre_err, failing.len() as nat)
            &&& (forall|t: int|
                0 <= t < failing.len() ==> is_peel_req_error(
                    #[trigger] post_err[pre_err.len() + t],
                    store,
                    shape,
                    failing[t],
                ))
            &&& if failing.len() == cands.len() {
                post == mid && r is None
            } else {
                &&& r is Some
                &&& post == (Endpoint { objs: post.objs, ..mid })
                &&& post.objs matches Some(c2)
                &&& post.objs.unwrap().wf()
                &&& post.objs.unwrap()@.len() >= 1
                &&& (forall|x: Seq<u8>|
                    post.objs.unwrap().has(x) <==> replace_all(
                        survivor_set(store, shape, cands),
                        peel_pairs(store, shape, cands),
                    ).contains(x))
            }
        },
    }
}

impl Delegate {
    /// Applies one peel request to every candidate of the current endpoint,
    /// after promoting references to candidates. Per-candidate failures are
    /// recorded; the endpoint fails only when every candidate fails, and
    /// otherwise continues with the surviving, replaced candidates.
    pub fn peel_until(&mut self, refs: &RefStore, store: &ObjectStore, kind: PeelTo) -> (r: Option<
        (),
    >)
        requires
            old(self).wf(),
            refs.wf(),
            store.wf(),
        ensures
            final(self).wf(),
            final(self).idx == old(self).idx,
            final(self).kind == old(self).kind,
            final(self).opts == old(self).opts,
            exists|m1: Endpoint, m2: Endpoint|
                {
                    &&& promoted(*refs, *store, flag_cleared(*old(self)).first, m1)
                    &&& promoted(*refs, *store, flag_cleared(*old(self)).second, m2)
                    &&& (old(self).idx == 0 ==> final(self).second == m2)
                    &&& (old(self).idx != 0 ==> final(self).first == m1)
                    &&& peel_op_applied(
                        *store,
                        kind,
                        if old(self).idx == 0 {
                            m1
                        } else {
                            m2
                        },
                        final(self).cur(),
                        old(self).err@,
                        final(self).err@,
                        r,
                    )
                },
    {
        self.unset_disambiguate_call();
        self.follow_refs_to_objects_if_needed(refs, store);
        let ghost m1 = self.first;
        let ghost m2 = self.second;
        let ghost mid = self.cur();
        let ghost pre_err = self.err@;
        let mut cands: CandidateSet = if self.idx == 0 {
            match &self.first.objs {
                Some(c) => c.duplicate(),
                None => {
                    return None;
                },
            }
        } else {
            match &self.second.objs {
                Some(c) => c.duplicate(),
                None => {
                    return None;
                },
            }
        };
        if matches!(kind, PeelTo::RecursiveTagObject) {
            self.err.push(Error::UnsupportedFeature { which: Feature::RecursiveTagPeel });
            assert(final(self).err@.take(old(self).err@.len() as int) =~= old(self).err@);
            return None;
        }
        let ghost cands0 = cands@;
        let ghost failpred = |c: Seq<u8>| !peel_req_ok(*store, kind, c);
        let ghost okpred = |c: Seq<u8>| peel_req_ok(*store, kind, c);
        let ghost pairfn = |c: Seq<u8>| (c, peel_req_result(*store, kind, c));
        let ghost base = *self;
        let mut failing: Vec<ObjectId> = Vec::new();
        let mut repl: crate::buffer::ReplacementBuf = crate::buffer::replacements_new();
        let mut i: usize = 0;
        proof {
            assert(cands0.take(0) =~= Seq::<Seq<u8>>::empty());
            reveal_with_fuel(Seq::filter, 1);
            assert(Seq::<Seq<u8>>::empty().filter(failpred) =~= Seq::<Seq<u8>>::empty());
            assert(Seq::<Seq<u8>>::empty().filter(okpred) =~= Seq::<Seq<u8>>::empty());
            assert(self.err@.take(pre_err.len() as int) =~= pre_err);
            assert(pair_views(Seq::<(ObjectId, ObjectId)>::empty()) =~= Seq::<
                (Seq<u8>, Seq<u8>),
            >::empty());
        }
        while i < cands.len()
            invariant
                self.wf(),
                store.wf(),
                *self == (Delegate { err: self.err, ..base }),
                cands.wf(),
                cands@ == cands0,
                i <= cands0.len(),
                !(kind matches PeelTo::RecursiveTagObject),
                failpred == (|c: Seq<u8>| !peel_req_ok(*store, kind, c)),
                okpred == (|c: Seq<u8>| peel_req_ok(*store, kind, c)),
                pairfn == (|c: Seq<u8>| (c, peel_req_result(*store, kind, c))),
                views_of(failing@) =~= cands0.take(i as int).filter(failpred),
                forall|t: int| 0 <= t < failing@.len() ==> (#[trigger] failing@[t]).wf(),
                extends_by(self.err@, pre_err, failing@.len() as nat),
                forall|t: int|
                    0 <= t < failing@.len() ==> is_peel_req_error(
                        #[trigger] self.err@[pre_err.len() + t],
                        *store,
                        kind,
                        views_of(failing@)[t],
                    ),
                pair_views(crate::buffer::replacement_items(repl)) =~= (
                if (kind matches PeelTo::ValidObject) {
                    Seq::<(Seq<u8>, Seq<u8>)>::empty()
                } else {
                    cands0.take(i as int).filter(okpred).map_values(pairfn)
                }),
                forall|t: int|
                    0 <= t < crate::buffer::replacement_items(repl).len() ==> (
                    #[trigger] crate::buffer::replacement_items(repl)[t]).0.wf()
                        && crate::buffer::replacement_items(repl)[t].1.wf(),
            decreases cands0.len() - i,
        {
            let ghost pre_fail = views_of(failing@);
            let ghost pre_items = crate::buffer::replacement_items(repl);
            let c = cands.get(i);
            match &kind {
                PeelTo::ValidObject => {
                    match store.find(c) {
                        Some(_) => {
                            proof {
                                assert(okpred(cands0[i as int]));
                            }
                        },
                        None => {
                            failing.push(c.duplicate());
                            self.err.push(Error::ObjectStoreLookupFailure { oid: c.duplicate() });
                            proof {
                                assert(failpred(cands0[i as int]));
                                assert(self.err@.take(pre_err.len() as int) =~= pre_err);
                            }
                        },
                    }
                },
                PeelTo::ObjectKind(k) => {
                    match peel(store, c, *k) {
                        Ok(x) => {
                            crate::buffer::replacements_push(&mut repl, c.duplicate(), x);
                            proof {
                                assert(okpred(cands0[i as int]));
                            }
                        },
                        Err(e) => {
                            failing.push(c.duplicate());
                            self.err.push(e);
                            proof {
                                assert(failpred(cands0[i as int]));
                                assert(self.err@.take(pre_err.len() as int) =~= pre_err);
                            }
                        },
                    }
                },
                PeelTo::Path(p) => {
                    match crate::object::lookup_path(store, c, p) {
                        Ok(x) => {
                            crate::buffer::replacements_push(&mut repl, c.duplicate(), x);
                            proof {
                                assert(okpred(cands0[i as int]));
                            }
                        },
                        Err(e) => {
                            failing.push(c.duplicate());
                            self.err.push(e);
                            proof {
                                assert(failpred(cands0[i as int]));
                                assert(self.err@.take(pre_err.len() as int) =~= pre_err);
                            }
                        },
                    }
                },
                PeelTo::RecursiveTagObject => {
                    proof {
                        assert(false);
                    }
                },
            }
            proof {
                let taken = cands0.take(i as int);
                let next = cands0.take(i + 1);
                assert(next =~= taken + seq![cands0[i as int]]);
                Seq::<Seq<u8>>::filter_distributes_over_add(
                    taken,
                    seq![cands0[i as int]],
                    failpred,
                );
                Seq::<Seq<u8>>::filter_distributes_over_add(taken, seq![cands0[i as int]], okpred);
                reveal_with_fuel(Seq::filter, 2);
                assert(seq![cands0[i as int]].drop_last() =~= Seq::<Seq<u8>>::empty());
                if failpred(cands0[i as int]) {
                    assert(seq![cands0[i as int]].filter(failpred) =~= seq![cands0[i as int]]);
                    assert(seq![cands0[i as int]].filter(okpred) =~= Seq::<Seq<u8>>::empty());
                    assert(views_of(failing@) =~= pre_fail.push(cands0[i as int]));
                } else {
                    assert(seq![cands0[i as int]].filter(failpred) =~= Seq::<Seq<u8>>::empty());
                    assert(seq![cands0[i as int]].filter(okpred) =~= seq![cands0[i as int]]);
                    if !(kind matches PeelTo::ValidObject) {
                        assert((taken.filter(okpred).push(cands0[i as int])).map_values(pairfn)
                            =~= taken.filter(okpred).map_values(pairfn).push(
                            pairfn(cands0[i as int]),
                        ));
                        assert(pair_views(crate::buffer::replacement_items(repl))
                            =~= pair_views(pre_items).push(pairfn(cands0[i as int])));
                    }
                }
                assert(views_of(failing@) =~= next.filter(failpred));
                if !(kind matches PeelTo::ValidObject) {
                    assert(pair_views(crate::buffer::replacement_items(repl)) =~= next.filter(
                        okpred,
                    ).map_values(pairfn));
                }
            }
            i += 1;
        }
        proof {
            assert(cands0.take(cands0.len() as int) =~= cands0);
        }
        let ghost failing_views = views_of(failing@);
        if failing.len() == cands.len() {
            return None;
        }
        proof {
            assert forall|a: int, b: int| 0 <= a < b < failing_views.len() implies lex_lt(
                failing_views[a],
                failing_views[b],
            ) by {
                lemma_filter_of_sorted_is_sorted(cands0, failpred, a, b);
            }
            assert forall|t: int| 0 <= t < failing@.len() implies cands.has(
                #[trigger] failing_views[t],
            ) by {
                lemma_filter_element_index(cands0, failpred, t);
            }
        }
        cands.remove_all(&failing);
        proof {
            assert forall|x: Seq<u8>| cands.has(x) <==> (cands0.contains(x) && okpred(x)) by {
                if cands0.contains(x) {
                    if failpred(x) {
                        let w = choose|w: int| 0 <= w < cands0.len() && cands0[w] == x;
                        cands0.lemma_filter_contains(failpred, w);
                    }
                    if failing_views.contains(x) {
                        let w = choose|w: int|
                            0 <= w < failing_views.len() && failing_views[w] == x;
                        cands0.lemma_filter_pred(failpred, w);
                    }
                }
            }
            assert(cs_set(cands) =~= survivor_set(*store, kind, cands0));
        }
        let ghost fullpairs = peel_pairs(*store, kind, cands0);
        let ghost target = replace_all(survivor_set(*store, kind, cands0), fullpairs);
        proof {
            assert(pair_views(crate::buffer::replacement_items(repl)) =~= fullpairs);
        }
        let pairs: Vec<(ObjectId, ObjectId)> = crate::buffer::replacements_into_vec(repl);
        let ghost pviews = pair_views(pairs@);
        proof {
            assert(pviews =~= fullpairs);
            assert(pviews.skip(0) =~= pviews);
        }
        let mut t: usize = 0;
        while t < pairs.len()
            invariant
                cands.wf(),
                t <= pairs@.len(),
                pviews == pair_views(pairs@),
                forall|u: int|
                    0 <= u < pairs@.len() ==> (#[trigger] pairs@[u]).0.wf() && pairs@[u].1.wf(),
                replace_all(cs_set(cands), pviews.skip(t as int)) == target,
                t > 0 ==> cands@.len() >= 1,
                t == 0 ==> cands@.len() == cands0.len() - failing_views.len(),
                failing_views.len() < cands0.len(),
            decreases pairs@.len() - t,
        {
            let ghost before = cands;
            let pr = &pairs[t];
            cands.remove(&pr.0);
            cands.insert(pr.1.duplicate());
            proof {
                assert(pviews[t as int] == (pr.0@, pr.1@));
                assert(cs_set(cands) =~= cs_set(before).remove(pviews[t as int].0).insert(
                    pviews[t as int].1,
                ));
                assert(pviews.skip(t as int)[0] == pviews[t as int]);
                assert(pviews.skip(t as int).skip(1) =~= pviews.skip(t + 1));
            }
            t += 1;
        }
        proof {
            assert(pviews.skip(t as int).len() == 0);
        }
        if self.idx == 0 {
            self.first.objs = Some(cands);
        } else {
            self.second.objs = Some(cands);
        }
        Some(())
    }
}

/// The delegate has refused a callback for an unsupported capability: the
/// flag is cleared and one diagnostic names the capability.
pub open spec fn refused(pre: Delegate, post: Delegate, which: Feature) -> bool {
    &&& frame_cur(pre, post)
    &&& post.cur() == flag_cleared(pre).cur()
    &&& extends_by(post.err@, pre.err@, 1)
    &&& is_unsupported(post.err@.last(), which)
}

/// The endpoint's recorded lookup was ambiguous and can be formatted: the
/// diagnostic copy of the candidates still holds more than one identifier and
/// the prefix that produced it is recorded.
pub open spec fn ambiguity_qualifies(ep: Endpoint) -> bool {
    ep.ambiguous_objs matches Some(c) && c@.len() > 1 && ep.prefix is Some
}

/// The endpoint's working candidate set still holds more than one identifier.
pub open spec fn objs_ambiguous(ep: Endpoint) -> bool {
    ep.objs matches Some(c) && c@.len() > 1
}

/// The resolved shape `s` combines the collapsed endpoints of `d` under its
/// structural kind, the first endpoint first.
pub open spec fn assembled(d: Delegate, s: Spec) -> bool {
    let id0 = d.first.objs.unwrap()@[0];
    match kind_or_default(d.kind) {
        SpecKind::IncludeReachable => s matches Spec::Include(x) && x@ == id0,
        SpecKind::ExcludeReachable => s matches Spec::Exclude(x) && x@ == id0,
        SpecKind::RangeBetween => s matches Spec::Range { from, to } && from@ == id0 && to@
            == d.second.objs.unwrap()@[0],
        SpecKind::ReachableToMergeBase => s matches Spec::Merge { theirs, ours } && theirs@ == id0
            && ours@ == d.second.objs.unwrap()@[0],
        SpecKind::IncludeReachableFromParents => s matches Spec::IncludeOnlyParents {
            from_exclusive,
        } && from_exclusive@ == id0,
        SpecKind::ExcludeReachableFromParents => s matches Spec::ExcludeFromParents { from }
            && from@ == id0,
    }
}

impl Delegate {
    /// Consumes the delegate after a failed parse: the aggregated diagnostics,
    /// with an ambiguity diagnostic per still-ambiguous recorded lookup
    /// inserted ahead of the others, the second endpoint's first.
    pub fn into_err(self) -> (r: Vec<Error>)
        requires
            self.wf(),
        ensures
            ({
                let n1: int = if ambiguity_qualifies(self.second) {
                    1
                } else {
                    0
                };
                let n0: int = if ambiguity_qualifies(self.first) {
                    1
                } else {
                    0
                };
                &&& r@.len() == self.err@.len() + n1 + n0
                &&& r@.skip(n1 + n0) == self.err@
                &&& (ambiguity_qualifies(self.second) ==> crate::error::is_ambiguous_prefix_error(
                    r@[0],
                    self.second.prefix.unwrap()@,
                    self.second.ambiguous_objs.unwrap()@,
                ))
                &&& (ambiguity_qualifies(self.first) ==> crate::error::is_ambiguous_prefix_error(
                    r@[n1],
                    self.first.prefix.unwrap()@,
                    self.first.ambiguous_objs.unwrap()@,
                ))
            }),
    {
        let mut out: Vec<Error> = Vec::new();
        match (&self.second.ambiguous_objs, &self.second.prefix) {
            (Some(c), Some(p)) => {
                if c.len() > 1 {
                    out.push(Error::ambiguous(c, p));
                }
            },
            _ => {},
        }
        match (&self.first.ambiguous_objs, &self.first.prefix) {
            (Some(c), Some(p)) => {
                if c.len() > 1 {
                    out.push(Error::ambiguous(c, p));
                }
            },
            _ => {},
        }
        let ghost front = out@;
        let mut rest = self.err;
        let ghost rest0 = rest@;
        let total = rest.len();
        let mut k: usize = 0;
        while rest.len() > 0
            invariant
                rest0.len() == total,
                k + rest@.len() == rest0.len(),
                rest@ == rest0.skip(k as int),
                out@ == front + rest0.take(k as int),
            decreases rest@.len(),
        {
            let e = rest.remove(0);
            proof {
                assert(rest0.skip(k as int).skip(1) =~= rest0.skip(k + 1));
                assert(rest0.take(k + 1) =~= rest0.take(k as int).push(rest0[k as int]));
                assert((front + rest0.take(k as int)).push(rest0[k as int]) =~= front + rest0.take(
                    k + 1,
                ));
            }
            out.push(e);
            k += 1;
        }
        proof {
            assert(rest0.take(k as int) =~= rest0);
            assert(out@.skip(front.len() as int) =~= rest0);
        }
        out
    }

    /// Consumes the delegate after a successful parse: collapses each
    /// endpoint's candidate set and combines the resolved identifiers under
    /// the structural kind, or fails with the aggregated diagnostics, a
    /// still-ambiguous endpoint's ahead of the others, the second endpoint's
    /// first.
    pub fn into_rev_spec(self) -> (r: Result<RevSpec, Vec<Error>>)
        requires
            self.wf(),
            objs_ambiguous(self.first) ==> self.first.prefix is Some,
            objs_ambiguous(self.second) ==> self.second.prefix is Some,
            (self.err@.len() == 0 && !objs_ambiguous(self.first) && !objs_ambiguous(self.second))
                ==> (self.first.objs is Some && (two_endpoints(kind_or_default(self.kind))
                ==> self.second.objs is Some)),
        ensures
            (r is Ok) == (self.err@.len() == 0 && !objs_ambiguous(self.first) && !objs_ambiguous(
                self.second,
            )),
            r matches Ok(rs) ==> {
                &&& rs.first_ref == self.first.reference
                &&& rs.second_ref == self.second.reference
                &&& assembled(self, rs.inner)
            },
            r matches Err(list) ==> ({
                let n1: int = if objs_ambiguous(self.second) {
                    1
                } else {
                    0
                };
                let n0: int = if objs_ambiguous(self.first) {
                    1
                } else {
                    0
                };
                &&& list@.len() == self.err@.len() + n1 + n0
                &&& list@.skip(n1 + n0) == self.err@
                &&& (objs_ambiguous(self.second) ==> crate::error::is_ambiguous_prefix_error(
                    list@[0],
                    self.second.prefix.unwrap()@,
                    self.second.objs.unwrap()@,
                ))
                &&& (objs_ambiguous(self.first) ==> crate::error::is_ambiguous_prefix_error(
                    list@[n1],
                    self.first.prefix.unwrap()@,
                    self.first.objs.unwrap()@,
                ))
            }),
    {
        let ambiguous1 = match &self.second.objs {
            Some(c) => c.len() > 1,
            None => false,
        };
        let ambiguous0 = match &self.first.objs {
            Some(c) => c.len() > 1,
            None => false,
        };
        if self.err.len() > 0 || ambiguous0 || ambiguous1 {
            let mut out: Vec<Error> = Vec::new();
            if ambiguous1 {
                match (&self.second.objs, &self.second.prefix) {
                    (Some(c), Some(p)) => out.push(Error::ambiguous(c, p)),
                    _ => {
                        proof {
                            assert(false);
                        }
                    },
                }
            }
            if ambiguous0 {
                match (&self.first.objs, &self.first.prefix) {
                    (Some(c), Some(p)) => out.push(Error::ambiguous(c, p)),
                    _ => {
                        proof {
                            assert(false);
                        }
                    },
                }
            }
            let ghost front = out@;
            let mut rest = self.err;
            let ghost rest0 = rest@;
            let total = rest.len();
            let mut k: usize = 0;
            while rest.len() > 0
                invariant
                    rest0.len() == total,
                    k + rest@.len() == rest0.len(),
                    rest@ == rest0.skip(k as int),
                    out@ == front + rest0.take(k as int),
                decreases rest@.len(),
            {
                let e = rest.remove(0);
                proof {
                    assert(rest0.skip(k as int).skip(1) =~= rest0.skip(k + 1));
                    assert(rest0.take(k + 1) =~= rest0.take(k as int).push(rest0[k as int]));
                    assert((front + rest0.take(k as int)).push(rest0[k as int]) =~= front
                        + rest0.take(k + 1));
                }
                out.push(e);
                k += 1;
            }
            proof {
                assert(rest0.take(k as int) =~= rest0);
                assert(out@.skip(front.len() as int) =~= rest0);
            }
            return Err(out);
        }
        let first_id: ObjectId = match &self.first.objs {
            Some(c) => c.get(0).duplicate(),
            None => {
                proof {
                    assert(false);
                }
                ObjectId { digits: Vec::new() }
            },
        };
        let k = match self.kind {
            Some(k) => k,
            None => SpecKind::IncludeReachable,
        };
        let inner = match k {
            SpecKind::IncludeReachable => Spec::Include(first_id),
            SpecKind::ExcludeReachable => Spec::Exclude(first_id),
            SpecKind::IncludeReachableFromParents => Spec::IncludeOnlyParents {
                from_exclusive: first_id,
            },
            SpecKind::ExcludeReachableFromParents => Spec::ExcludeFromParents { from: first_id },
            SpecKind::RangeBetween | SpecKind::ReachableToMergeBase => {
                let second_id: ObjectId = match &self.second.objs {
                    Some(c) => c.get(0).duplicate(),
                    None => {
                        proof {
                            assert(false);
                        }
                        ObjectId { digits: Vec::new() }
                    },
                };
                if matches!(k, SpecKind::RangeBetween) {
                    Spec::Range { from: first_id, to: second_id }
                } else {
                    Spec::Merge { theirs: first_id, ours: second_id }
                }
            },
        };
        Ok(RevSpec { first_ref: self.first.reference, second_ref: self.second.reference, inner })
    }
}

/// `d` with the current slot's bare-disambiguation flag cleared.
pub open spec fn flag_cleared(d: Delegate) -> Delegate {
    if d.idx == 0 {
        Delegate {
            first: Endpoint { last_call_was_disambiguate_prefix: false, ..d.first },
            ..d
        }
    } else {
        Delegate {
            second: Endpoint { last_call_was_disambiguate_prefix: false, ..d.second },
            ..d
        }
    }
}

} // verus!
