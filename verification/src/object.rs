//! The object store: content-addressed objects looked up by identifier or by
//! hex prefix, peeled toward a requested kind, and navigated by tree paths.

use vstd::prelude::*;
use crate::candidates::{CandidateSet, sorted_ids};
use crate::error::Error;
use crate::oid::{ObjectId, Prefix, lex_lt, lemma_lex_lt_asymmetric, lemma_lex_lt_trichotomy,
    lemma_lex_lt_transitive};

verus! {

/// The kind of a stored object.
#[derive(Clone, Copy, PartialEq, Eq, Structural, Debug)]
pub enum ObjectKind {
    Tag,
    Commit,
    Tree,
    Blob,
}

/// One name in a tree, with the identifier of the object it names.
#[derive(Debug)]
pub struct TreeEntry {
    pub name: Vec<u8>,
    pub id: ObjectId,
}

/// What the resolution logic reads of a stored object: its kind, and the
/// identifiers it wraps or contains.
#[derive(Debug)]
pub enum ObjectData {
    /// A commit, carrying the identifier of its root tree.
    Commit { tree: ObjectId },
    /// A tree, carrying its named entries.
    Tree { entries: Vec<TreeEntry> },
    /// A blob.
    Blob,
    /// An annotated tag, wrapping a target object.
    Tag { target: ObjectId },
}

impl ObjectData {
    pub open spec fn spec_kind(&self) -> ObjectKind {
        match self {
            ObjectData::Commit { .. } => ObjectKind::Commit,
            ObjectData::Tree { .. } => ObjectKind::Tree,
            ObjectData::Blob => ObjectKind::Blob,
            ObjectData::Tag { .. } => ObjectKind::Tag,
        }
    }

    pub open spec fn wf(&self) -> bool {
        match self {
            ObjectData::Commit { tree } => tree.wf(),
            ObjectData::Tree { entries } => forall|i: int|
                0 <= i < entries@.len() ==> (#[trigger] entries@[i]).id.wf(),
            ObjectData::Blob => true,
            ObjectData::Tag { target } => target.wf(),
        }
    }

    pub fn kind(&self) -> (k: ObjectKind)
        ensures
            k == self.spec_kind(),
    {
        match self {
            ObjectData::Commit { .. } => ObjectKind::Commit,
            ObjectData::Tree { .. } => ObjectKind::Tree,
            ObjectData::Blob => ObjectKind::Blob,
            ObjectData::Tag { .. } => ObjectKind::Tag,
        }
    }
}

/// An object together with its identifier.
#[derive(Debug)]
pub struct StoreEntry {
    pub id: ObjectId,
    pub data: ObjectData,
}

/// First object of the given identifier, if any.
pub open spec fn find_in(s: Seq<StoreEntry>, id: Seq<u8>) -> Option<ObjectData>
    decreases s.len(),
{
    if s.len() == 0 {
        Option::None
    } else if s[0].id@ == id {
        Option::Some(s[0].data)
    } else {
        find_in(s.skip(1), id)
    }
}

/// In a store with distinct identifiers, `find_in` returns the entry at the
/// matching position.
pub proof fn lemma_find_in_at(s: Seq<StoreEntry>, i: int)
    requires
        0 <= i < s.len(),
        forall|a: int, b: int|
            0 <= a < b < s.len() ==> (#[trigger] s[a].id@) != (#[trigger] s[b].id@),
    ensures
        find_in(s, s[i].id@) == Option::Some(s[i].data),
    decreases s.len(),
{
    if i > 0 {
        assert(s[0].id@ != s[i].id@);
        assert(s.skip(1)[i - 1] == s[i]);
        assert(forall|a: int, b: int|
            0 <= a < b < s.skip(1).len() ==> (#[trigger] s.skip(1)[a].id@) != (#[trigger] s.skip(
                1,
            )[b].id@)) by {
            assert(forall|a: int| 0 <= a < s.skip(1).len() ==> #[trigger] s.skip(1)[a] == s[a + 1]);
        }
        lemma_find_in_at(s.skip(1), i - 1);
    }
}

/// An identifier at no position is not found.
pub proof fn lemma_find_in_absent(s: Seq<StoreEntry>, id: Seq<u8>)
    requires
        forall|i: int| 0 <= i < s.len() ==> (#[trigger] s[i].id@) != id,
    ensures
        find_in(s, id) is None,
    decreases s.len(),
{
    if s.len() > 0 {
        assert(forall|i: int| 0 <= i < s.skip(1).len() ==> #[trigger] s.skip(1)[i] == s[i + 1]);
        lemma_find_in_absent(s.skip(1), id);
    }
}

/// Whatever `find_in` returns out of well-formed entries is well-formed.
pub proof fn lemma_find_in_wf(s: Seq<StoreEntry>, id: Seq<u8>)
    requires
        forall|i: int| 0 <= i < s.len() ==> (#[trigger] s[i]).data.wf(),
    ensures
        match find_in(s, id) {
            Option::Some(d) => d.wf(),
            Option::None => true,
        },
    decreases s.len(),
{
    if s.len() > 0 && s[0].id@ != id {
        assert(forall|i: int| 0 <= i < s.skip(1).len() ==> #[trigger] s.skip(1)[i] == s[i + 1]);
        lemma_find_in_wf(s.skip(1), id);
    }
}

/// A store of objects, kept sorted by identifier so that enumeration order,
/// and with it every diagnostic, is deterministic.
pub struct ObjectStore {
    pub entries: Vec<StoreEntry>,
}

impl ObjectStore {
    /// The identifiers in the store, in their stored (ascending) order.
    pub open spec fn ids(&self) -> Seq<Seq<u8>> {
        self.entries@.map_values(|e: StoreEntry| e.id@)
    }

    pub open spec fn wf(&self) -> bool {
        &&& sorted_ids(self.ids())
        &&& forall|i: int| 0 <= i < self.entries@.len() ==> (#[trigger] self.entries@[i]).id.wf()
        &&& forall|i: int| 0 <= i < self.entries@.len() ==> (#[trigger] self.entries@[i]).data.wf()
    }

    pub open spec fn spec_find(&self, id: Seq<u8>) -> Option<ObjectData> {
        find_in(self.entries@, id)
    }

    pub open spec fn contains_id(&self, id: Seq<u8>) -> bool {
        self.ids().contains(id)
    }

    /// The identifiers matching a prefix, in ascending order.
    pub open spec fn matching(&self, p: Seq<u8>) -> Seq<Seq<u8>> {
        self.ids().filter(|id: Seq<u8>| p.is_prefix_of(id))
    }

    pub fn new() -> (r: ObjectStore)
        ensures
            r.entries@.len() == 0,
            r.wf(),
    {
        ObjectStore { entries: Vec::new() }
    }

    pub fn len(&self) -> (r: usize)
        ensures
            r == self.entries@.len(),
    {
        self.entries.len()
    }

    /// Looks an object up by its identifier.
    pub fn find(&self, id: &ObjectId) -> (r: Option<&ObjectData>)
        ensures
            (r is Some) == (self.spec_find(id@) is Some),
            r matches Some(d) ==> self.spec_find(id@) == Option::Some(*d),
    {
        let mut i: usize = 0;
        assert(self.entries@.skip(0) =~= self.entries@);
        while i < self.entries.len()
            invariant
                i <= self.entries@.len(),
                find_in(self.entries@, id@) == find_in(self.entries@.skip(i as int), id@),
            decreases self.entries.len() - i,
        {
            if self.entries[i].id.equals(id) {
                assert(self.entries@.skip(i as int)[0] == self.entries@[i as int]);
                return Some(&self.entries[i].data);
            }
            proof {
                assert(self.entries@.skip(i as int)[0] == self.entries@[i as int]);
                assert(self.entries@.skip(i as int).skip(1) =~= self.entries@.skip(i + 1));
            }
            i += 1;
        }
        assert(self.entries@.skip(i as int).len() == 0);
        None
    }

    /// Adds an object under a new identifier; an already-present identifier
    /// leaves the store unchanged.
    pub fn insert(&mut self, id: ObjectId, data: ObjectData)
        requires
            old(self).wf(),
            id.wf(),
            data.wf(),
        ensures
            final(self).wf(),
            old(self).contains_id(id@) ==> *final(self) == *old(self),
            !old(self).contains_id(id@) ==> {
                &&& final(self).spec_find(id@) == Option::Some(data)
                &&& forall|x: Seq<u8>|
                    x != id@ ==> final(self).spec_find(x) == old(self).spec_find(x)
                &&& forall|x: Seq<u8>|
                    final(self).contains_id(x) <==> (old(self).contains_id(x) || x == id@)
            },
    {
        let ghost pre = self.ids();
        let ghost pre_entries = self.entries@;
        proof {
            assert forall|a: int, b: int|
                0 <= a < b < pre_entries.len() implies (#[trigger] pre_entries[a].id@) != (
            #[trigger] pre_entries[b].id@) by {
                assert(lex_lt(pre[a], pre[b]));
                lemma_lex_lt_asymmetric(pre[a], pre[b]);
            }
        }
        let mut k: usize = 0;
        while k < self.entries.len() && self.entries[k].id.lex_less(&id)
            invariant
                self.entries@ == pre_entries,
                old(self).wf(),
                k <= self.entries@.len(),
                forall|j: int| 0 <= j < k ==> lex_lt(self.ids()[j], id@),
            decreases self.entries.len() - k,
        {
            k += 1;
        }
        if k < self.entries.len() && self.entries[k].id.equals(&id) {
            assert(old(self).contains_id(id@)) by {
                assert(pre[k as int] == id@);
            }
            return;
        }
        proof {
            if k < self.entries@.len() {
                lemma_lex_lt_trichotomy(pre[k as int], id@);
                assert(lex_lt(id@, pre[k as int]));
            }
            if old(self).contains_id(id@) {
                let w = choose|w: int| 0 <= w < pre.len() && pre[w] == id@;
                if w < k {
                    lemma_lex_lt_asymmetric(pre[w], id@);
                } else {
                    assert(k < self.entries@.len());
                    if w > k {
                        lemma_lex_lt_asymmetric(id@, pre[k as int]);
                        lemma_lex_lt_transitive(id@, pre[k as int], pre[w]);
                        lemma_lex_lt_asymmetric(id@, pre[w]);
                    }
                }
                assert(false);
            }
        }
        let ghost de = data;
        self.entries.insert(k, StoreEntry { id, data });
        proof {
            let post = self.entries@;
            assert(post.len() == pre_entries.len() + 1);
            assert(forall|j: int| 0 <= j < k ==> post[j] == pre_entries[j]);
            assert(post[k as int].id@ == id@ && post[k as int].data == de);
            assert(forall|j: int| k < j < post.len() ==> post[j] == pre_entries[j - 1]);
            // sortedness
            assert forall|i: int, j: int| 0 <= i < j < self.ids().len() implies lex_lt(
                self.ids()[i],
                self.ids()[j],
            ) by {
                if j < k {
                    assert(lex_lt(pre[i], pre[j]));
                } else if j == k {
                    assert(lex_lt(pre[i], id@));
                } else if i < k {
                    assert(lex_lt(pre[i], pre[j - 1]));
                } else if i == k {
                    if j - 1 > k {
                        assert(lex_lt(pre[k as int], pre[j - 1]));
                        lemma_lex_lt_transitive(id@, pre[k as int], pre[j - 1]);
                    }
                } else {
                    assert(lex_lt(pre[i - 1], pre[j - 1]));
                }
            }
            // distinctness of the result, for the find lemmas
            assert forall|a: int, b: int|
                0 <= a < b < post.len() implies (#[trigger] post[a].id@) != (
            #[trigger] post[b].id@) by {
                assert(lex_lt(self.ids()[a], self.ids()[b]));
                lemma_lex_lt_asymmetric(self.ids()[a], self.ids()[b]);
            }
            lemma_find_in_at(post, k as int);
            assert forall|x: Seq<u8>| x != id@ implies find_in(post, x) == find_in(
                pre_entries,
                x,
            ) by {
                if exists|w: int| 0 <= w < pre_entries.len() && pre_entries[w].id@ == x {
                    let w = choose|w: int|
                        0 <= w < pre_entries.len() && pre_entries[w].id@ == x;
                    lemma_find_in_at(pre_entries, w);
                    if w < k {
                        lemma_find_in_at(post, w);
                    } else {
                        lemma_find_in_at(post, w + 1);
                    }
                } else {
                    assert(forall|i: int|
                        0 <= i < pre_entries.len() ==> (#[trigger] pre_entries[i].id@) != x);
                    lemma_find_in_absent(pre_entries, x);
                    assert forall|i: int| 0 <= i < post.len() implies (#[trigger] post[i].id@)
                        != x by {
                        if i < k {
                            assert(post[i] == pre_entries[i]);
                        } else if i > k {
                            assert(post[i] == pre_entries[i - 1]);
                        }
                    }
                    lemma_find_in_absent(post, x);
                }
            }
            assert forall|x: Seq<u8>| final(self).contains_id(x) implies (old(self).contains_id(x)
                || x == id@) by {
                let w = choose|w: int| 0 <= w < self.ids().len() && self.ids()[w] == x;
                if w < k {
                    assert(pre[w] == x);
                } else if w > k {
                    assert(pre[w - 1] == x);
                }
            }
            assert forall|x: Seq<u8>| (old(self).contains_id(x) || x == id@) implies final(self).contains_id(
                x,
            ) by {
                if pre.contains(x) {
                    let w = choose|w: int| 0 <= w < pre.len() && pre[w] == x;
                    if w < k {
                        assert(self.ids()[w] == x);
                    } else {
                        assert(self.ids()[w + 1] == x);
                    }
                } else {
                    assert(self.ids()[k as int] == x);
                }
            }
        }
    }

    /// Every identifier in the store that the prefix matches, in ascending
    /// order; nothing when none matches.
    pub fn lookup_prefix(&self, p: &Prefix) -> (r: Option<CandidateSet>)
        requires
            self.wf(),
            p.wf(),
        ensures
            (r is Some) == (self.matching(p@).len() > 0),
            r matches Some(c) ==> c@ =~= self.matching(p@) && c.wf(),
    {
        let ghost pred = |id: Seq<u8>| p@.is_prefix_of(id);
        let mut out: Vec<ObjectId> = Vec::new();
        let mut i: usize = 0;
        proof {
            assert(self.ids().take(0) =~= Seq::<Seq<u8>>::empty());
            reveal_with_fuel(Seq::filter, 2);
        }
        while i < self.entries.len()
            invariant
                self.wf(),
                p.wf(),
                i <= self.entries@.len(),
                out@.map_values(|o: ObjectId| o@) =~= self.ids().take(i as int).filter(pred),
                pred == (|id: Seq<u8>| p@.is_prefix_of(id)),
                forall|j: int| 0 <= j < out@.len() ==> (#[trigger] out@[j]).wf(),
                forall|j: int|
                    0 <= j < out@.len() ==> exists|t: int|
                        0 <= t < i && (#[trigger] out@[j])@ == self.ids()[t],
            decreases self.entries.len() - i,
        {
            let ghost pre_out = out@;
            if p.matches(&self.entries[i].id) {
                out.push(self.entries[i].id.duplicate());
                assert((out@[out@.len() - 1])@ == self.ids()[i as int]);
            }
            proof {
                let taken = self.ids().take(i as int);
                let next = self.ids().take(i + 1);
                assert(next =~= taken + seq![self.ids()[i as int]]);
                Seq::<Seq<u8>>::filter_distributes_over_add(
                    taken,
                    seq![self.ids()[i as int]],
                    pred,
                );
                reveal_with_fuel(Seq::filter, 2);
                assert(seq![self.ids()[i as int]].drop_last() =~= Seq::<Seq<u8>>::empty());
                if pred(self.ids()[i as int]) {
                    assert(seq![self.ids()[i as int]].filter(pred) =~= seq![
                        self.ids()[i as int],
                    ]);
                    assert(out@.map_values(|o: ObjectId| o@) =~= next.filter(pred));
                } else {
                    assert(seq![self.ids()[i as int]].filter(pred) =~= Seq::<Seq<u8>>::empty());
                    assert(out@.map_values(|o: ObjectId| o@) =~= next.filter(pred));
                }
            }
            i += 1;
        }
        assert(self.ids().take(self.entries@.len() as int) =~= self.ids());
        if out.len() == 0 {
            return None;
        }
        let r = CandidateSet { ids: out };
        proof {
            assert forall|a: int, b: int| 0 <= a < b < r@.len() implies lex_lt(r@[a], r@[b]) by {
                let ta = choose|t: int| 0 <= t < self.entries@.len() && r.ids@[a]@ == self.ids()[t];
                let tb = choose|t: int| 0 <= t < self.entries@.len() && r.ids@[b]@ == self.ids()[t];
                assert(r@[a] == self.matching(p@)[a]);
                assert(r@[b] == self.matching(p@)[b]);
                lemma_filter_of_sorted_is_sorted(self.ids(), pred, a, b);
            }
        }
        Some(r)
    }
}

/// Outcome of peeling `id` toward `kind` with `fuel` dereference steps left:
/// the reached identifier, or the identifier at which peeling stopped together
/// with what was found there (`None`: missing from the store; `Some(k)`: an
/// object of kind `k` that cannot be peeled further, or a chain longer than
/// the store itself, which must revisit an identifier).
pub open spec fn peel_steps(store: ObjectStore, id: Seq<u8>, kind: ObjectKind, fuel: nat) -> Result<
    Seq<u8>,
    (Seq<u8>, Option<ObjectKind>),
>
    decreases fuel,
{
    match store.spec_find(id) {
        Option::None => Result::Err((id, Option::None)),
        Option::Some(data) => if data.spec_kind() == kind {
            Result::Ok(id)
        } else {
            match data {
                ObjectData::Tag { target } => if fuel == 0 {
                    Result::Err((id, Option::Some(ObjectKind::Tag)))
                } else {
                    peel_steps(store, target@, kind, (fuel - 1) as nat)
                },
                ObjectData::Commit { tree } => if kind == ObjectKind::Tree {
                    if fuel == 0 {
                        Result::Err((id, Option::Some(ObjectKind::Commit)))
                    } else {
                        peel_steps(store, tree@, kind, (fuel - 1) as nat)
                    }
                } else {
                    Result::Err((id, Option::Some(ObjectKind::Commit)))
                },
                _ => Result::Err((id, Option::Some(data.spec_kind()))),
            }
        },
    }
}

/// Enough fuel to peel any acyclic chain in the store: a longer chain must
/// revisit an identifier.
pub open spec fn peel_fuel(store: ObjectStore) -> nat {
    store.entries@.len()
}

/// Peeling `id` toward `kind`: dereference annotated tags, and unwrap a commit
/// to its tree when a tree is wanted, until the kind is reached or no step is
/// possible.
pub open spec fn spec_peel(store: ObjectStore, id: Seq<u8>, kind: ObjectKind) -> Result<
    Seq<u8>,
    (Seq<u8>, Option<ObjectKind>),
> {
    peel_steps(store, id, kind, peel_fuel(store))
}

/// `e` is the diagnostic for the peel failure `fail` toward `expected`.
pub open spec fn is_peel_failure_error(
    e: Error,
    fail: (Seq<u8>, Option<ObjectKind>),
    expected: ObjectKind,
) -> bool {
    match fail.1 {
        Option::None => match e {
            Error::ObjectStoreLookupFailure { oid } => oid@ == fail.0,
            _ => false,
        },
        Option::Some(k) => match e {
            Error::ObjectKindMismatch { actual, expected: exp, oid } => actual == k && exp
                == expected && oid@ == fail.0,
            _ => false,
        },
    }
}

/// Peels `obj` toward `kind` in the store.
pub fn peel(store: &ObjectStore, obj: &ObjectId, kind: ObjectKind) -> (r: Result<ObjectId, Error>)
    requires
        store.wf(),
        obj.wf(),
    ensures
        (r is Ok) == (spec_peel(*store, obj@, kind) is Ok),
        r matches Ok(id) ==> spec_peel(*store, obj@, kind) == Result::<
            Seq<u8>,
            (Seq<u8>, Option<ObjectKind>),
        >::Ok(id@) && id.wf(),
        r matches Err(e) ==> (spec_peel(*store, obj@, kind) matches Err(f)
            && is_peel_failure_error(e, f, kind)),
{
    let mut cur: ObjectId = obj.duplicate();
    let mut steps: usize = 0;
    loop
        invariant
            store.wf(),
            obj.wf(),
            cur.wf(),
            steps <= store.entries@.len(),
            peel_steps(*store, obj@, kind, peel_fuel(*store)) == peel_steps(
                *store,
                cur@,
                kind,
                (peel_fuel(*store) - steps) as nat,
            ),
        decreases store.entries@.len() - steps,
    {
        let ghost fuel = (peel_fuel(*store) - steps) as nat;
        match store.find(&cur) {
            None => {
                return Err(Error::ObjectStoreLookupFailure { oid: cur });
            },
            Some(data) => {
                let k = data.kind();
                if k == kind {
                    return Ok(cur);
                }
                match data {
                    ObjectData::Tag { target } => {
                        if steps >= store.entries.len() {
                            return Err(
                                Error::ObjectKindMismatch {
                                    actual: ObjectKind::Tag,
                                    expected: kind,
                                    oid: cur,
                                },
                            );
                        }
                        let next = target.duplicate();
                        proof {
                            lemma_find_in_wf(store.entries@, cur@);
                            assert(fuel != 0);
                            assert(peel_steps(*store, cur@, kind, fuel) == peel_steps(
                                *store,
                                next@,
                                kind,
                                (fuel - 1) as nat,
                            ));
                        }
                        cur = next;
                        steps += 1;
                    },
                    ObjectData::Commit { tree } => {
                        if kind == ObjectKind::Tree {
                            if steps >= store.entries.len() {
                                return Err(
                                    Error::ObjectKindMismatch {
                                        actual: ObjectKind::Commit,
                                        expected: kind,
                                        oid: cur,
                                    },
                                );
                            }
                            let next = tree.duplicate();
                            proof {
                                lemma_find_in_wf(store.entries@, cur@);
                                assert(fuel != 0);
                                assert(peel_steps(*store, cur@, kind, fuel) == peel_steps(
                                    *store,
                                    next@,
                                    kind,
                                    (fuel - 1) as nat,
                                ));
                            }
                            cur = next;
                            steps += 1;
                        } else {
                            return Err(
                                Error::ObjectKindMismatch {
                                    actual: ObjectKind::Commit,
                                    expected: kind,
                                    oid: cur,
                                },
                            );
                        }
                    },
                    _ => {
                        return Err(
                            Error::ObjectKindMismatch { actual: k, expected: kind, oid: cur },
                        );
                    },
                }
            },
        }
    }
}

/// Checks that `obj` exists and has exactly the requested kind, without
/// peeling.
pub fn require_object_kind(store: &ObjectStore, obj: &ObjectId, kind: ObjectKind) -> (r: Result<
    (),
    Error,
>)
    requires
        store.wf(),
        obj.wf(),
    ensures
        (r is Ok) == (store.spec_find(obj@) matches Some(d) && d.spec_kind() == kind),
        r matches Err(e) ==> match store.spec_find(obj@) {
            Option::None => e matches Error::ObjectStoreLookupFailure { oid } && oid@ == obj@,
            Option::Some(d) => e matches Error::ObjectKindMismatch { actual, expected, oid }
                && actual == d.spec_kind() && expected == kind && oid@ == obj@,
        },
{
    match store.find(obj) {
        None => Err(Error::ObjectStoreLookupFailure { oid: obj.duplicate() }),
        Some(data) => {
            let k = data.kind();
            if k == kind {
                Ok(())
            } else {
                Err(Error::ObjectKindMismatch { actual: k, expected: kind, oid: obj.duplicate() })
            }
        },
    }
}

/// Length of the leading path component: the run of bytes before the first
/// slash.
pub open spec fn comp_len(s: Seq<u8>) -> nat
    decreases s.len(),
{
    if s.len() == 0 {
        0
    } else if s[0] == 47 {
        0
    } else {
        1 + comp_len(s.skip(1))
    }
}

pub proof fn lemma_comp_len_bound(s: Seq<u8>)
    ensures
        comp_len(s) <= s.len(),
    decreases s.len(),
{
    if s.len() != 0 && s[0] != 47 {
        lemma_comp_len_bound(s.skip(1));
    }
}

/// The leading component runs to position `m`: no slash before it, and a
/// slash or the end at it.
pub proof fn lemma_comp_len_value(s: Seq<u8>, m: int)
    requires
        0 <= m <= s.len(),
        forall|t: int| 0 <= t < m ==> s[t] != 47,
        m == s.len() || s[m] == 47,
    ensures
        comp_len(s) == m,
    decreases s.len(),
{
    if m > 0 {
        assert(s[0] != 47);
        assert(forall|t: int| 0 <= t < s.skip(1).len() ==> #[trigger] s.skip(1)[t] == s[t + 1]);
        lemma_comp_len_value(s.skip(1), m - 1);
    }
}

/// A path split at slashes into its nonempty components, in order.
pub open spec fn split_path(s: Seq<u8>) -> Seq<Seq<u8>>
    decreases s.len(),
    via split_path_decreases
{
    if s.len() == 0 {
        Seq::empty()
    } else if s[0] == 47 {
        split_path(s.skip(1))
    } else {
        seq![s.take(comp_len(s) as int)] + split_path(s.skip(comp_len(s) as int))
    }
}

#[via_fn]
proof fn split_path_decreases(s: Seq<u8>) {
    if s.len() != 0 && s[0] != 47 {
        lemma_comp_len_bound(s);
        assert(comp_len(s) >= 1);
    }
}

/// Splits a path into its nonempty components; empty runs between slashes are
/// dropped.
pub fn split_path_bytes(path: &Vec<u8>) -> (r: Vec<Vec<u8>>)
    ensures
        r@.map_values(|c: Vec<u8>| c@) =~= split_path(path@),
{
    let mut out: Vec<Vec<u8>> = Vec::new();
    let mut i: usize = 0;
    proof {
        assert(path@.skip(0) =~= path@);
        assert(out@.map_values(|c: Vec<u8>| c@) =~= Seq::<Seq<u8>>::empty());
    }
    while i < path.len()
        invariant
            i <= path@.len(),
            split_path(path@) == out@.map_values(|c: Vec<u8>| c@) + split_path(
                path@.skip(i as int),
            ),
        decreases path@.len() - i,
    {
        let ghost pre_views = out@.map_values(|c: Vec<u8>| c@);
        if path[i] == 47 {
            proof {
                assert(path@.skip(i as int)[0] == 47);
                assert(path@.skip(i as int).skip(1) =~= path@.skip(i + 1));
            }
            i += 1;
        } else {
            let mut comp: Vec<u8> = Vec::new();
            let start: usize = i;
            while i < path.len() && path[i] != 47
                invariant
                    start <= i <= path@.len(),
                    start < path@.len(),
                    comp@ =~= path@.subrange(start as int, i as int),
                    forall|t: int| start <= t < i ==> path@[t] != 47,
                decreases path@.len() - i,
            {
                comp.push(path[i]);
                assert(comp@ =~= path@.subrange(start as int, i + 1 as int));
                i += 1;
            }
            proof {
                let sfx = path@.skip(start as int);
                let m: int = i - start;
                assert(forall|t: int| 0 <= t < sfx.len() ==> sfx[t] == path@[t + start]);
                lemma_comp_len_value(sfx, m);
                assert(sfx[0] != 47);
                assert(split_path(sfx) == seq![sfx.take(m)] + split_path(sfx.skip(m)));
                assert(sfx.take(m) =~= path@.subrange(start as int, i as int));
                assert(sfx.skip(m) =~= path@.skip(i as int));
                assert(comp@ == sfx.take(m));
            }
            out.push(comp);
            proof {
                assert(out@.map_values(|c: Vec<u8>| c@) =~= pre_views.push(
                    path@.skip(start as int).take(i - start),
                ));
                assert(pre_views + (seq![path@.skip(start as int).take(i - start)] + split_path(
                    path@.skip(i as int),
                )) =~= out@.map_values(|c: Vec<u8>| c@) + split_path(path@.skip(i as int)));
            }
        }
    }
    proof {
        assert(path@.skip(i as int).len() == 0);
        assert(split_path(path@.skip(i as int)) =~= Seq::<Seq<u8>>::empty());
        assert(out@.map_values(|c: Vec<u8>| c@) + split_path(path@.skip(i as int))
            =~= out@.map_values(|c: Vec<u8>| c@));
    }
    out
}

/// First entry of the given name in a tree's entry run, if any.
pub open spec fn find_entry(es: Seq<TreeEntry>, name: Seq<u8>) -> Option<Seq<u8>>
    decreases es.len(),
{
    if es.len() == 0 {
        Option::None
    } else if es[0].name@ == name {
        Option::Some(es[0].id@)
    } else {
        find_entry(es.skip(1), name)
    }
}

/// Looks a name up among tree entries.
fn find_tree_entry(entries: &Vec<TreeEntry>, name: &Vec<u8>) -> (r: Option<ObjectId>)
    requires
        forall|i: int| 0 <= i < entries@.len() ==> (#[trigger] entries@[i]).id.wf(),
    ensures
        (r is Some) == (find_entry(entries@, name@) is Some),
        r matches Some(id) ==> find_entry(entries@, name@) == Option::Some(id@) && id.wf(),
{
    let mut i: usize = 0;
    assert(entries@.skip(0) =~= entries@);
    while i < entries.len()
        invariant
            forall|t: int| 0 <= t < entries@.len() ==> (#[trigger] entries@[t]).id.wf(),
            i <= entries@.len(),
            find_entry(entries@, name@) == find_entry(entries@.skip(i as int), name@),
        decreases entries.len() - i,
    {
        if crate::oid::bytes_equal(&entries[i].name, name) {
            assert(entries@.skip(i as int)[0] == entries@[i as int]);
            return Some(entries[i].id.duplicate());
        }
        proof {
            assert(entries@.skip(i as int)[0] == entries@[i as int]);
            assert(entries@.skip(i as int).skip(1) =~= entries@.skip(i + 1));
        }
        i += 1;
    }
    assert(entries@.skip(i as int).len() == 0);
    None
}

/// Walks tree entries component by component from the tree `tree`; the error
/// carries the identifier of the tree in which the walk stopped.
pub open spec fn walk_path(store: ObjectStore, tree: Seq<u8>, comps: Seq<Seq<u8>>) -> Result<
    Seq<u8>,
    Seq<u8>,
>
    decreases comps.len(),
{
    if comps.len() == 0 {
        Result::Ok(tree)
    } else {
        match store.spec_find(tree) {
            Option::Some(data) => match data {
                ObjectData::Tree { entries } => match find_entry(entries@, comps[0]) {
                    Option::Some(eid) => if comps.len() == 1 {
                        Result::Ok(eid)
                    } else {
                        walk_path(store, eid, comps.skip(1))
                    },
                    Option::None => Result::Err(tree),
                },
                _ => Result::Err(tree),
            },
            Option::None => Result::Err(tree),
        }
    }
}

/// Peeling `id` to a tree and then walking the path's components succeeds at
/// this identifier, if at all.
pub open spec fn spec_path_ok(store: ObjectStore, id: Seq<u8>, path: Seq<u8>) -> Option<Seq<u8>> {
    match spec_peel(store, id, ObjectKind::Tree) {
        Result::Err(_) => Option::None,
        Result::Ok(t) => match walk_path(store, t, split_path(path)) {
            Result::Err(_) => Option::None,
            Result::Ok(x) => Option::Some(x),
        },
    }
}

/// `e` is the diagnostic for the failed path lookup of `path` below `id`.
pub open spec fn is_path_failure_error(
    e: Error,
    store: ObjectStore,
    id: Seq<u8>,
    path: Seq<u8>,
) -> bool {
    match spec_peel(store, id, ObjectKind::Tree) {
        Result::Err(f) => is_peel_failure_error(e, f, ObjectKind::Tree),
        Result::Ok(t) => match walk_path(store, t, split_path(path)) {
            Result::Err(stopped) => match e {
                Error::PathNotFound { path: p, object, tree } => p@ == path && object@ == id
                    && tree@ == stopped,
                _ => false,
            },
            Result::Ok(_) => false,
        },
    }
}

/// Peels `obj` to a tree, then resolves the slash-separated path below it to
/// the identifier of the entry at that path.
pub fn lookup_path(store: &ObjectStore, obj: &ObjectId, path: &Vec<u8>) -> (r: Result<
    ObjectId,
    Error,
>)
    requires
        store.wf(),
        obj.wf(),
    ensures
        (r is Ok) == (spec_path_ok(*store, obj@, path@) is Some),
        r matches Ok(id) ==> spec_path_ok(*store, obj@, path@) == Option::Some(id@) && id.wf(),
        r matches Err(e) ==> is_path_failure_error(e, *store, obj@, path@),
{
    let root = match peel(store, obj, ObjectKind::Tree) {
        Ok(t) => t,
        Err(e) => {
            return Err(e);
        },
    };
    let ghost root0 = root@;
    let comps = split_path_bytes(path);
    let ghost cviews = comps@.map_values(|c: Vec<u8>| c@);
    let mut cur: ObjectId = root;
    let mut j: usize = 0;
    proof {
        assert(cviews.skip(0) =~= cviews);
    }
    loop
        invariant
            store.wf(),
            obj.wf(),
            cur.wf(),
            j <= comps@.len(),
            spec_peel(*store, obj@, ObjectKind::Tree) == Result::<
                Seq<u8>,
                (Seq<u8>, Option<ObjectKind>),
            >::Ok(root0),
            cviews == comps@.map_values(|c: Vec<u8>| c@),
            cviews =~= split_path(path@),
            walk_path(*store, root0, cviews) == walk_path(*store, cur@, cviews.skip(j as int)),
        decreases comps@.len() - j,
    {
        if j == comps.len() {
            assert(cviews.skip(j as int).len() == 0);
            return Ok(cur);
        }
        proof {
            assert(cviews.skip(j as int)[0] == cviews[j as int]);
            assert(comps@[j as int]@ == cviews[j as int]);
        }
        match store.find(&cur) {
            Some(data) => match data {
                ObjectData::Tree { entries } => {
                    proof {
                        lemma_find_in_wf(store.entries@, cur@);
                    }
                    match find_tree_entry(entries, &comps[j]) {
                        Some(eid) => {
                            if j == comps.len() - 1 {
                                assert(cviews.skip(j as int).len() == 1);
                                return Ok(eid);
                            }
                            proof {
                                assert(cviews.skip(j as int).skip(1) =~= cviews.skip(j + 1));
                            }
                            cur = eid;
                            j += 1;
                        },
                        None => {
                            return Err(
                                Error::PathNotFound {
                                    path: crate::oid::clone_bytes(path),
                                    object: obj.duplicate(),
                                    tree: cur,
                                },
                            );
                        },
                    }
                },
                _ => {
                    return Err(
                        Error::PathNotFound {
                            path: crate::oid::clone_bytes(path),
                            object: obj.duplicate(),
                            tree: cur,
                        },
                    );
                },
            },
            None => {
                return Err(
                    Error::PathNotFound {
                        path: crate::oid::clone_bytes(path),
                        object: obj.duplicate(),
                        tree: cur,
                    },
                );
            },
        }
    }
}

/// In the filtered form of a strictly sorted sequence, earlier elements stay
/// strictly below later ones.
pub proof fn lemma_filter_of_sorted_is_sorted(
    s: Seq<Seq<u8>>,
    pred: spec_fn(Seq<u8>) -> bool,
    a: int,
    b: int,
)
    requires
        sorted_ids(s),
        0 <= a < b < s.filter(pred).len(),
    ensures
        lex_lt(s.filter(pred)[a], s.filter(pred)[b]),
    decreases s.len(),
{
    reveal_with_fuel(Seq::filter, 2);
    if s.len() > 0 {
        let last = s.last();
        let butlast = s.drop_last();
        assert(s =~= butlast.push(last));
        assert(forall|i: int| 0 <= i < butlast.len() ==> #[trigger] butlast[i] == s[i]);
        assert(sorted_ids(butlast));
        if pred(last) {
            // s.filter == butlast.filter.push(last)
            if b < s.filter(pred).len() - 1 {
                lemma_filter_of_sorted_is_sorted(butlast, pred, a, b);
            } else {
                // s.filter[b] == last; s.filter[a] is an element of butlast
                let fa = s.filter(pred)[a];
                assert(fa == butlast.filter(pred)[a]);
                lemma_filter_element_index(butlast, pred, a);
                let w = choose|w: int|
                    0 <= w < butlast.len() && butlast[w] == butlast.filter(pred)[a];
                assert(lex_lt(s[w], last));
            }
        } else {
            lemma_filter_of_sorted_is_sorted(butlast, pred, a, b);
        }
    }
}

/// Every element of a filtered sequence stands at some index of the sequence
/// it was filtered from.
pub proof fn lemma_filter_element_index(s: Seq<Seq<u8>>, pred: spec_fn(Seq<u8>) -> bool, a: int)
    requires
        0 <= a < s.filter(pred).len(),
    ensures
        exists|w: int| 0 <= w < s.len() && s[w] == s.filter(pred)[a],
    decreases s.len(),
{
    reveal_with_fuel(Seq::filter, 2);
    if s.len() > 0 {
        let butlast = s.drop_last();
        if pred(s.last()) && a == s.filter(pred).len() - 1 {
            assert(s[s.len() - 1] == s.filter(pred)[a]);
        } else {
            lemma_filter_element_index(butlast, pred, a);
            let w = choose|w: int| 0 <= w < butlast.len() && butlast[w] == butlast.filter(pred)[a];
            assert(s[w] == s.filter(pred)[a]);
        }
    }
}

} // verus!
