//! Store primitives: identifiers, prefix lookup, peeling, tree paths, and the
//! publishing-traversal decisions.

use revspec::object::{lookup_path, peel, ObjectData, ObjectKind, ObjectStore, TreeEntry};
use revspec::oid::{ObjectId, Prefix};
use revspec::error::Error;
use revspec::traverse::{classify_dependency, classify_user_selection, Kind, Mode, SkippedReason};

fn id_with(front: &[u8], fill: u8) -> ObjectId {
    let mut digits = vec![fill; 40];
    let mut i = 0;
    while i < front.len() {
        digits[i] = front[i];
        i += 1;
    }
    ObjectId::from_digits(digits).expect("valid digits")
}

fn pfx(digits: &[u8]) -> Prefix {
    Prefix::from_digits(digits.to_vec()).expect("valid prefix")
}

#[test]
fn malformed_identifiers_are_refused() {
    assert!(ObjectId::from_digits(vec![0; 39]).is_none());
    assert!(ObjectId::from_digits(vec![0; 41]).is_none());
    let mut bad = vec![0u8; 40];
    bad[7] = 16;
    assert!(ObjectId::from_digits(bad).is_none());
    assert!(ObjectId::from_digits(vec![15; 40]).is_some());
    assert!(Prefix::from_digits(vec![]).is_none());
    assert!(Prefix::from_digits(vec![0; 41]).is_none());
    assert!(Prefix::from_digits(vec![16]).is_none());
}

#[test]
fn prefixes_render_as_hex_text() {
    let p = pfx(&[10, 11, 0, 9, 15]);
    assert_eq!(p.to_hex_bytes(), b"ab09f".to_vec());
}

#[test]
fn full_length_hex_matches_exactly_one() {
    let mut store = ObjectStore::new();
    let a = id_with(&[1], 0);
    let b = id_with(&[1, 2], 0);
    store.insert(a.duplicate(), ObjectData::Blob);
    store.insert(b.duplicate(), ObjectData::Blob);
    let found = store
        .lookup_prefix(&Prefix::of_id(&a))
        .expect("the identifier is present");
    assert_eq!(found.len(), 1);
    assert!(found.get(0).equals(&a));
}

#[test]
fn lookup_prefix_returns_all_matches_sorted() {
    let mut store = ObjectStore::new();
    let a = id_with(&[1, 2], 0);
    let b = id_with(&[1, 4], 0);
    let c = id_with(&[1, 3], 0);
    let other = id_with(&[9], 0);
    store.insert(b.duplicate(), ObjectData::Blob);
    store.insert(other.duplicate(), ObjectData::Blob);
    store.insert(a.duplicate(), ObjectData::Blob);
    store.insert(c.duplicate(), ObjectData::Blob);
    assert_eq!(store.len(), 4);
    let found = store.lookup_prefix(&pfx(&[1])).expect("three match");
    assert_eq!(found.len(), 3);
    assert!(found.contains(&c));
    assert!(!found.contains(&other));
    assert!(found.get(0).equals(&a));
    assert!(found.get(1).equals(&c));
    assert!(found.get(2).equals(&b));
    assert!(store.lookup_prefix(&pfx(&[5])).is_none());
}

#[test]
fn peel_unwraps_tags_and_commits() {
    let mut store = ObjectStore::new();
    let tree = id_with(&[15], 0);
    let commit = id_with(&[1], 0);
    let tag = id_with(&[2], 0);
    store.insert(
        tree.duplicate(),
        ObjectData::Tree { entries: vec![] },
    );
    store.insert(
        commit.duplicate(),
        ObjectData::Commit {
            tree: tree.duplicate(),
        },
    );
    store.insert(
        tag.duplicate(),
        ObjectData::Tag {
            target: commit.duplicate(),
        },
    );
    let peeled = peel(&store, &tag, ObjectKind::Commit).expect("tag unwraps");
    assert!(peeled.equals(&commit));
    let treed = peel(&store, &tag, ObjectKind::Tree).expect("commit unwraps to tree");
    assert!(treed.equals(&tree));
    match peel(&store, &commit, ObjectKind::Blob) {
        Err(Error::ObjectKindMismatch {
            actual, expected, ..
        }) => {
            assert_eq!(actual, ObjectKind::Commit);
            assert_eq!(expected, ObjectKind::Blob);
        }
        _ => panic!("a commit does not peel to a blob"),
    }
    match peel(&store, &id_with(&[8], 0), ObjectKind::Blob) {
        Err(Error::ObjectStoreLookupFailure { oid }) => assert!(oid.equals(&id_with(&[8], 0))),
        _ => panic!("a missing object is a store failure"),
    }
}

#[test]
fn cyclic_tags_end_in_a_mismatch() {
    let mut store = ObjectStore::new();
    let t1 = id_with(&[1], 0);
    let t2 = id_with(&[2], 0);
    store.insert(
        t1.duplicate(),
        ObjectData::Tag {
            target: t2.duplicate(),
        },
    );
    store.insert(
        t2.duplicate(),
        ObjectData::Tag {
            target: t1.duplicate(),
        },
    );
    match peel(&store, &t1, ObjectKind::Commit) {
        Err(Error::ObjectKindMismatch { actual, .. }) => assert_eq!(actual, ObjectKind::Tag),
        _ => panic!("a tag cycle cannot reach a commit"),
    }
}

#[test]
fn path_lookup_walks_tree_entries() {
    let mut store = ObjectStore::new();
    let blob = id_with(&[1], 0);
    let tb = id_with(&[2], 0);
    let ta = id_with(&[3], 0);
    let root = id_with(&[4], 0);
    let commit = id_with(&[5], 0);
    store.insert(blob.duplicate(), ObjectData::Blob);
    store.insert(
        tb.duplicate(),
        ObjectData::Tree {
            entries: vec![TreeEntry {
                name: b"leaf".to_vec(),
                id: blob.duplicate(),
            }],
        },
    );
    store.insert(
        ta.duplicate(),
        ObjectData::Tree {
            entries: vec![TreeEntry {
                name: b"b".to_vec(),
                id: tb.duplicate(),
            }],
        },
    );
    store.insert(
        root.duplicate(),
        ObjectData::Tree {
            entries: vec![TreeEntry {
                name: b"a".to_vec(),
                id: ta.duplicate(),
            }],
        },
    );
    store.insert(
        commit.duplicate(),
        ObjectData::Commit {
            tree: root.duplicate(),
        },
    );
    let found = lookup_path(&store, &commit, &b"a/b/leaf".to_vec()).expect("the path exists");
    assert!(found.equals(&blob));
    // doubled separators are ignored
    let found = lookup_path(&store, &commit, &b"a//b/leaf".to_vec()).expect("the path exists");
    assert!(found.equals(&blob));
    // the empty path names the tree itself
    let found = lookup_path(&store, &commit, &b"".to_vec()).expect("the tree itself");
    assert!(found.equals(&root));
}

#[test]
fn path_not_found_names_the_deepest_tree() {
    let mut store = ObjectStore::new();
    let tb = id_with(&[2], 0);
    let ta = id_with(&[3], 0);
    let root = id_with(&[4], 0);
    let commit = id_with(&[5], 0);
    store.insert(tb.duplicate(), ObjectData::Tree { entries: vec![] });
    store.insert(
        ta.duplicate(),
        ObjectData::Tree {
            entries: vec![TreeEntry {
                name: b"b".to_vec(),
                id: tb.duplicate(),
            }],
        },
    );
    store.insert(
        root.duplicate(),
        ObjectData::Tree {
            entries: vec![TreeEntry {
                name: b"a".to_vec(),
                id: ta.duplicate(),
            }],
        },
    );
    store.insert(
        commit.duplicate(),
        ObjectData::Commit {
            tree: root.duplicate(),
        },
    );
    match lookup_path(&store, &commit, &b"a/b/c".to_vec()) {
        Err(Error::PathNotFound { path, object, tree }) => {
            assert_eq!(path, b"a/b/c".to_vec());
            assert!(object.equals(&commit));
            // the tree named is a/b's, not the root and not a store failure
            assert!(tree.equals(&tb));
        }
        _ => panic!("expected a path-not-found diagnostic"),
    }
}

#[test]
fn publishing_decisions_follow_change_and_version() {
    assert_eq!(classify_dependency(true, true, false), Mode::ToBePublished);
    assert_eq!(classify_dependency(true, false, true), Mode::ToBePublished);
    assert_eq!(
        classify_dependency(true, false, false),
        Mode::Skipped {
            reason: SkippedReason::DeniedAutopublishOfProductionCrate
        }
    );
    assert_eq!(
        classify_dependency(false, true, true),
        Mode::Skipped {
            reason: SkippedReason::Unchanged
        }
    );
    assert_eq!(classify_user_selection(true), Mode::ToBePublished);
    assert_eq!(
        classify_user_selection(false),
        Mode::Skipped {
            reason: SkippedReason::Unchanged
        }
    );
    assert_ne!(Kind::UserSelection, Kind::DependencyOfUserSelection);
}
