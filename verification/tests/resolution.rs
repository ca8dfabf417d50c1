//! End-to-end resolution scenarios through the delegate.

use revspec::delegate::{Delegate, ObjectKindHint, Options, PeelTo, RefsHint, Spec, SpecKind};
use revspec::error::{Error, Feature};
use revspec::object::{ObjectData, ObjectKind, ObjectStore};
use revspec::oid::{ObjectId, Prefix};
use revspec::refs::{RefStore, RefTarget, Reference};

fn id_with(front: &[u8], fill: u8) -> ObjectId {
    let mut digits = vec![fill; 40];
    let mut i = 0;
    while i < front.len() {
        digits[i] = front[i];
        i += 1;
    }
    ObjectId::from_digits(digits).expect("valid digits")
}

fn pfx(digits: &[u8]) -> Prefix {
    Prefix::from_digits(digits.to_vec()).expect("valid prefix")
}

fn opts(refs_hint: RefsHint) -> Options {
    Options {
        refs_hint,
        object_kind_hint: None,
    }
}

#[test]
fn unique_prefix_resolves_to_the_object() {
    let mut store = ObjectStore::new();
    let a = id_with(&[1, 2, 3], 0);
    let b = id_with(&[1, 9], 0);
    store.insert(a.duplicate(), ObjectData::Blob);
    store.insert(b.duplicate(), ObjectData::Blob);
    let refs = RefStore::new();

    // the shorter sub-prefix [1] is shared by two objects; [1, 2] is unique
    let mut d = Delegate::new(opts(RefsHint::PreferObject));
    assert!(d.disambiguate_prefix(&store, &refs, pfx(&[1, 2])).is_some());
    d.done(&refs, &store);
    let spec = d.into_rev_spec().expect("resolution succeeds");
    match spec.inner {
        Spec::Include(x) => assert!(x.equals(&a)),
        _ => panic!("expected a plain include"),
    }
    assert!(spec.first_ref.is_none());
}

#[test]
fn ambiguous_prefix_fails_with_sorted_candidates() {
    let mut store = ObjectStore::new();
    let a = id_with(&[1, 2], 0);
    let b = id_with(&[1, 3], 0);
    store.insert(b.duplicate(), ObjectData::Blob);
    store.insert(a.duplicate(), ObjectData::Blob);
    let refs = RefStore::new();

    let mut d = Delegate::new(opts(RefsHint::PreferObject));
    assert!(d.disambiguate_prefix(&store, &refs, pfx(&[1])).is_some());
    d.done(&refs, &store);
    let errors = d.into_rev_spec().err().expect("resolution fails");
    assert_eq!(errors.len(), 1);
    match &errors[0] {
        Error::AmbiguousPrefix { prefix, candidates } => {
            assert_eq!(prefix.hex_len(), 1);
            assert_eq!(candidates.len(), 2);
            // sorted by identifier, whatever the insertion order was
            assert!(candidates[0].equals(&a));
            assert!(candidates[1].equals(&b));
        }
        _ => panic!("expected an ambiguity diagnostic"),
    }
}

#[test]
fn fail_on_tie_records_both_diagnostics() {
    let mut store = ObjectStore::new();
    // digits [10, 11] render as the hex text "ab"
    let a = id_with(&[10, 11], 0);
    store.insert(a.duplicate(), ObjectData::Blob);
    let mut refs = RefStore::new();
    refs.add(Reference {
        name: b"ab".to_vec(),
        target: RefTarget::Direct(id_with(&[5], 0)),
    });

    let mut d = Delegate::new(opts(RefsHint::Fail));
    assert!(d.disambiguate_prefix(&store, &refs, pfx(&[10, 11])).is_none());
    let errors = d.into_err();
    assert_eq!(errors.len(), 2);
    match &errors[0] {
        Error::AmbiguousRefAndObject { reference, .. } => {
            assert_eq!(reference.name, b"ab".to_vec());
        }
        _ => panic!("expected the ref-and-object tie first"),
    }
    match &errors[1] {
        Error::AmbiguousPrefix { candidates, .. } => {
            assert_eq!(candidates.len(), 1);
            assert!(candidates[0].equals(&a));
        }
        _ => panic!("expected the prefix ambiguity second"),
    }
}

#[test]
fn prefer_ref_adopts_the_reference() {
    let mut store = ObjectStore::new();
    let a = id_with(&[10, 11], 0);
    store.insert(a.duplicate(), ObjectData::Blob);
    let target = id_with(&[7], 0);
    store.insert(target.duplicate(), ObjectData::Blob);
    let mut refs = RefStore::new();
    refs.add(Reference {
        name: b"ab".to_vec(),
        target: RefTarget::Direct(target.duplicate()),
    });

    let mut d = Delegate::new(opts(RefsHint::PreferRef));
    assert!(d.disambiguate_prefix(&store, &refs, pfx(&[10, 11])).is_some());
    d.done(&refs, &store);
    let spec = d.into_rev_spec().expect("the reference resolves");
    match spec.inner {
        Spec::Include(x) => assert!(x.equals(&target)),
        _ => panic!("expected a plain include"),
    }
    assert!(spec.first_ref.is_some());
}

#[test]
fn full_length_tie_prefers_the_object() {
    let mut store = ObjectStore::new();
    let a = id_with(&[10, 11], 0);
    store.insert(a.duplicate(), ObjectData::Blob);
    let mut refs = RefStore::new();
    // a reference named like the full forty-digit hex form
    let full = Prefix::of_id(&a);
    refs.add(Reference {
        name: full.to_hex_bytes(),
        target: RefTarget::Direct(id_with(&[9], 0)),
    });

    let mut d = Delegate::new(opts(RefsHint::PreferObjectOnFullLengthHexShaUseRefOtherwise));
    assert!(d.disambiguate_prefix(&store, &refs, full).is_some());
    d.done(&refs, &store);
    let spec = d.into_rev_spec().expect("the object wins the tie");
    match spec.inner {
        Spec::Include(x) => assert!(x.equals(&a)),
        _ => panic!("expected a plain include"),
    }
}

#[test]
fn short_tie_prefers_the_reference() {
    let mut store = ObjectStore::new();
    let a = id_with(&[10, 11], 0);
    store.insert(a.duplicate(), ObjectData::Blob);
    let target = id_with(&[7], 0);
    store.insert(target.duplicate(), ObjectData::Blob);
    let mut refs = RefStore::new();
    refs.add(Reference {
        name: b"ab".to_vec(),
        target: RefTarget::Direct(target.duplicate()),
    });

    let mut d = Delegate::new(opts(RefsHint::PreferObjectOnFullLengthHexShaUseRefOtherwise));
    assert!(d.disambiguate_prefix(&store, &refs, pfx(&[10, 11])).is_some());
    d.done(&refs, &store);
    let spec = d.into_rev_spec().expect("the reference wins the short tie");
    match spec.inner {
        Spec::Include(x) => assert!(x.equals(&target)),
        _ => panic!("expected a plain include"),
    }
}

#[test]
fn range_pairs_endpoints_in_driver_order() {
    let mut store = ObjectStore::new();
    let tree = id_with(&[15], 0);
    let c1 = id_with(&[1], 0);
    let c2 = id_with(&[2], 0);
    store.insert(tree.duplicate(), ObjectData::Tree { entries: vec![] });
    store.insert(
        c1.duplicate(),
        ObjectData::Commit {
            tree: tree.duplicate(),
        },
    );
    store.insert(
        c2.duplicate(),
        ObjectData::Commit {
            tree: tree.duplicate(),
        },
    );
    let mut refs = RefStore::new();
    refs.add(Reference {
        name: b"one".to_vec(),
        target: RefTarget::Direct(c1.duplicate()),
    });
    refs.add(Reference {
        name: b"two".to_vec(),
        target: RefTarget::Direct(c2.duplicate()),
    });

    let mut d = Delegate::new(opts(RefsHint::PreferObject));
    assert!(d.find_ref(&refs, &b"one".to_vec()).is_some());
    assert!(d.kind(&store, SpecKind::RangeBetween).is_some());
    assert!(d.find_ref(&refs, &b"two".to_vec()).is_some());
    d.done(&refs, &store);
    let spec = d.into_rev_spec().expect("both endpoints resolve");
    match spec.inner {
        Spec::Range { from, to } => {
            assert!(from.equals(&c1));
            assert!(to.equals(&c2));
        }
        _ => panic!("expected a range"),
    }
    assert_eq!(spec.first_ref.expect("first ref kept").name, b"one".to_vec());
    assert_eq!(spec.second_ref.expect("second ref kept").name, b"two".to_vec());
}

#[test]
fn symbolic_ref_follows_chain_and_untags() {
    let mut store = ObjectStore::new();
    let tree = id_with(&[15], 0);
    let commit = id_with(&[1], 0);
    let tag = id_with(&[2], 0);
    store.insert(tree.duplicate(), ObjectData::Tree { entries: vec![] });
    store.insert(
        commit.duplicate(),
        ObjectData::Commit {
            tree: tree.duplicate(),
        },
    );
    store.insert(
        tag.duplicate(),
        ObjectData::Tag {
            target: commit.duplicate(),
        },
    );
    let mut refs = RefStore::new();
    refs.add(Reference {
        name: b"HEAD".to_vec(),
        target: RefTarget::Symbolic(b"main".to_vec()),
    });
    refs.add(Reference {
        name: b"main".to_vec(),
        target: RefTarget::Direct(tag.duplicate()),
    });

    let mut d = Delegate::new(opts(RefsHint::PreferObject));
    assert!(d.find_ref(&refs, &b"HEAD".to_vec()).is_some());
    d.done(&refs, &store);
    let spec = d.into_rev_spec().expect("the chain resolves");
    match spec.inner {
        Spec::Include(x) => assert!(x.equals(&commit)),
        _ => panic!("expected a plain include"),
    }
}

#[test]
fn nested_tags_peel_to_the_commit() {
    let mut store = ObjectStore::new();
    let tree = id_with(&[15], 0);
    let commit = id_with(&[1], 0);
    let t3 = id_with(&[3], 0);
    let t2 = id_with(&[2], 0);
    let t1 = id_with(&[4], 0);
    store.insert(tree.duplicate(), ObjectData::Tree { entries: vec![] });
    store.insert(
        commit.duplicate(),
        ObjectData::Commit {
            tree: tree.duplicate(),
        },
    );
    store.insert(
        t3.duplicate(),
        ObjectData::Tag {
            target: commit.duplicate(),
        },
    );
    store.insert(
        t2.duplicate(),
        ObjectData::Tag {
            target: t3.duplicate(),
        },
    );
    store.insert(
        t1.duplicate(),
        ObjectData::Tag {
            target: t2.duplicate(),
        },
    );
    let refs = RefStore::new();

    let mut d = Delegate::new(opts(RefsHint::PreferObject));
    assert!(d
        .disambiguate_prefix(&store, &refs, Prefix::of_id(&t1))
        .is_some());
    assert!(d
        .peel_until(&refs, &store, PeelTo::ObjectKind(ObjectKind::Commit))
        .is_some());
    d.done(&refs, &store);
    let spec = d.into_rev_spec().expect("three layers unwrap");
    match spec.inner {
        Spec::Include(x) => assert!(x.equals(&commit)),
        _ => panic!("expected a plain include"),
    }
}

#[test]
fn partial_peel_failure_keeps_survivors_and_the_diagnostic() {
    let mut store = ObjectStore::new();
    let tree = id_with(&[15], 0);
    let commit = id_with(&[1, 1], 0);
    let blob = id_with(&[1, 2], 0);
    store.insert(tree.duplicate(), ObjectData::Tree { entries: vec![] });
    store.insert(
        commit.duplicate(),
        ObjectData::Commit {
            tree: tree.duplicate(),
        },
    );
    store.insert(blob.duplicate(), ObjectData::Blob);
    let refs = RefStore::new();

    let mut d = Delegate::new(opts(RefsHint::PreferObject));
    assert!(d.disambiguate_prefix(&store, &refs, pfx(&[1])).is_some());
    // the blob cannot peel to a commit and leaves the set; the commit stays
    assert!(d
        .peel_until(&refs, &store, PeelTo::ObjectKind(ObjectKind::Commit))
        .is_some());
    d.done(&refs, &store);
    // the recorded per-candidate diagnostic still fails finalization
    let errors = d.into_rev_spec().err().expect("the diagnostic is kept");
    assert_eq!(errors.len(), 1);
    match &errors[0] {
        Error::ObjectKindMismatch {
            actual, expected, ..
        } => {
            assert_eq!(*actual, ObjectKind::Blob);
            assert_eq!(*expected, ObjectKind::Commit);
        }
        _ => panic!("expected a kind mismatch"),
    }
}

#[test]
fn all_candidates_failing_aborts_the_endpoint() {
    let mut store = ObjectStore::new();
    let b1 = id_with(&[1, 1], 0);
    let b2 = id_with(&[1, 2], 0);
    store.insert(b1.duplicate(), ObjectData::Blob);
    store.insert(b2.duplicate(), ObjectData::Blob);
    let refs = RefStore::new();

    let mut d = Delegate::new(opts(RefsHint::PreferObject));
    assert!(d.disambiguate_prefix(&store, &refs, pfx(&[1])).is_some());
    assert!(d
        .peel_until(&refs, &store, PeelTo::ObjectKind(ObjectKind::Commit))
        .is_none());
    let errors = d.into_err();
    // one mismatch per candidate, and the still-ambiguous lookup ahead of them
    assert_eq!(errors.len(), 3);
    assert!(matches!(&errors[0], Error::AmbiguousPrefix { .. }));
    assert!(matches!(&errors[1], Error::ObjectKindMismatch { .. }));
    assert!(matches!(&errors[2], Error::ObjectKindMismatch { .. }));
}

#[test]
fn prefix_not_found_is_reported() {
    let mut store = ObjectStore::new();
    store.insert(id_with(&[2], 0), ObjectData::Blob);
    let refs = RefStore::new();

    let mut d = Delegate::new(opts(RefsHint::PreferObject));
    assert!(d.disambiguate_prefix(&store, &refs, pfx(&[3])).is_none());
    let errors = d.into_err();
    assert_eq!(errors.len(), 1);
    assert!(matches!(&errors[0], Error::PrefixNotFound { .. }));
}

#[test]
fn ref_not_found_is_reported() {
    let refs = RefStore::new();
    let mut d = Delegate::new(opts(RefsHint::PreferObject));
    assert!(d.find_ref(&refs, &b"missing".to_vec()).is_none());
    let errors = d.into_err();
    assert_eq!(errors.len(), 1);
    match &errors[0] {
        Error::RefNotFound { name } => assert_eq!(name, &b"missing".to_vec()),
        _ => panic!("expected a missing-reference diagnostic"),
    }
}

#[test]
fn unsupported_callbacks_fail_loudly() {
    let mut d = Delegate::new(opts(RefsHint::PreferObject));
    assert!(d.reflog(1).is_none());
    assert!(d.nth_checked_out_branch(2).is_none());
    assert!(d.sibling_branch().is_none());
    assert!(d.traverse().is_none());
    assert!(d.find(&b"fix.*bug".to_vec(), false).is_none());
    assert!(d.index_lookup(&b"a/b".to_vec(), 0).is_none());
    let errors = d.into_err();
    let expected = [
        Feature::Reflog,
        Feature::NthCheckedOutBranch,
        Feature::SiblingBranch,
        Feature::Traversal,
        Feature::RegexFind,
        Feature::IndexLookup,
    ];
    assert_eq!(errors.len(), expected.len());
    for (e, want) in errors.iter().zip(expected.iter()) {
        match e {
            Error::UnsupportedFeature { which } => assert_eq!(which, want),
            _ => panic!("expected an unsupported-capability diagnostic"),
        }
    }
}

#[test]
fn recursive_tag_peel_is_unsupported() {
    let mut store = ObjectStore::new();
    let a = id_with(&[1], 0);
    store.insert(a.duplicate(), ObjectData::Blob);
    let refs = RefStore::new();

    let mut d = Delegate::new(opts(RefsHint::PreferObject));
    assert!(d
        .disambiguate_prefix(&store, &refs, Prefix::of_id(&a))
        .is_some());
    assert!(d.peel_until(&refs, &store, PeelTo::RecursiveTagObject).is_none());
    let errors = d.into_err();
    assert_eq!(errors.len(), 1);
    match &errors[0] {
        Error::UnsupportedFeature { which } => assert_eq!(*which, Feature::RecursiveTagPeel),
        _ => panic!("expected an unsupported-capability diagnostic"),
    }
}

#[test]
fn committish_fallback_narrows_by_kind_hint() {
    let mut store = ObjectStore::new();
    let tree = id_with(&[15], 0);
    let commit = id_with(&[1, 1], 0);
    let blob = id_with(&[1, 2], 0);
    store.insert(tree.duplicate(), ObjectData::Tree { entries: vec![] });
    store.insert(
        commit.duplicate(),
        ObjectData::Commit {
            tree: tree.duplicate(),
        },
    );
    store.insert(blob.duplicate(), ObjectData::Blob);
    let refs = RefStore::new();

    let mut d = Delegate::new(Options {
        refs_hint: RefsHint::PreferObject,
        object_kind_hint: Some(ObjectKindHint::Committish),
    });
    assert!(d.disambiguate_prefix(&store, &refs, pfx(&[1])).is_some());
    d.done(&refs, &store);
    // the blob failed the hint and its diagnostic is kept
    let errors = d.into_rev_spec().err().expect("the diagnostic is kept");
    assert_eq!(errors.len(), 1);
    assert!(matches!(&errors[0], Error::ObjectKindMismatch { .. }));
}

#[test]
fn exclude_from_parents_uses_the_first_endpoint() {
    let mut store = ObjectStore::new();
    let tree = id_with(&[15], 0);
    let commit = id_with(&[1], 0);
    store.insert(tree.duplicate(), ObjectData::Tree { entries: vec![] });
    store.insert(
        commit.duplicate(),
        ObjectData::Commit {
            tree: tree.duplicate(),
        },
    );
    let refs = RefStore::new();

    let mut d = Delegate::new(opts(RefsHint::PreferObject));
    assert!(d
        .disambiguate_prefix(&store, &refs, Prefix::of_id(&commit))
        .is_some());
    assert!(d.kind(&store, SpecKind::ExcludeReachableFromParents).is_some());
    d.done(&refs, &store);
    let spec = d.into_rev_spec().expect("resolution succeeds");
    match spec.inner {
        Spec::ExcludeFromParents { from } => assert!(from.equals(&commit)),
        _ => panic!("expected the parent-excluding form"),
    }
}
