//! References: named pointers that carry either a direct object identifier or
//! the name of another reference, and the store that finds them by name.

use vstd::prelude::*;
use crate::oid::ObjectId;
use crate::object::{ObjectStore, ObjectData};

verus! {

/// What a reference points at: a concrete object, or another reference.
#[derive(Debug)]
pub enum RefTarget {
    Direct(ObjectId),
    Symbolic(Vec<u8>),
}

/// A named reference.
#[derive(Debug)]
pub struct Reference {
    pub name: Vec<u8>,
    pub target: RefTarget,
}

impl View for Reference {
    type V = (Seq<u8>, bool, Seq<u8>);

    /// Name, whether the target is direct, and the target id or name.
    open spec fn view(&self) -> (Seq<u8>, bool, Seq<u8>) {
        match self.target {
            RefTarget::Direct(id) => (self.name@, true, id@),
            RefTarget::Symbolic(n) => (self.name@, false, n@),
        }
    }
}

impl Reference {
    pub open spec fn wf(&self) -> bool {
        match self.target {
            RefTarget::Direct(id) => id.wf(),
            RefTarget::Symbolic(_) => true,
        }
    }

    /// Copies the reference.
    pub fn duplicate(&self) -> (r: Reference)
        ensures
            r@ == self@,
            r.wf() == self.wf(),
    {
        let name = crate::oid::clone_bytes(&self.name);
        match &self.target {
            RefTarget::Direct(id) => Reference { name, target: RefTarget::Direct(id.duplicate()) },
            RefTarget::Symbolic(n) => Reference {
                name,
                target: RefTarget::Symbolic(crate::oid::clone_bytes(n)),
            },
        }
    }
}

/// First reference of the given name, if any.
pub open spec fn spec_find_ref(refs: Seq<Reference>, name: Seq<u8>) -> Option<Reference>
    decreases refs.len(),
{
    if refs.len() == 0 {
        Option::None
    } else if refs[0].name@ == name {
        Option::Some(refs[0])
    } else {
        spec_find_ref(refs.skip(1), name)
    }
}

/// A store of references, searched by exact name.
pub struct RefStore {
    pub refs: Vec<Reference>,
}

impl RefStore {
    pub open spec fn wf(&self) -> bool {
        forall|i: int| 0 <= i < self.refs@.len() ==> (#[trigger] self.refs@[i]).wf()
    }

    pub fn new() -> (r: RefStore)
        ensures
            r.refs@.len() == 0,
            r.wf(),
    {
        RefStore { refs: Vec::new() }
    }

    /// Adds a reference; later lookups still return the earliest of a name.
    pub fn add(&mut self, r: Reference)
        requires
            old(self).wf(),
            r.wf(),
        ensures
            final(self).wf(),
            final(self).refs@ == old(self).refs@.push(r),
    {
        self.refs.push(r);
    }

    /// Finds a reference by name; the returned value is a copy.
    pub fn find(&self, name: &Vec<u8>) -> (r: Option<Reference>)
        requires
            self.wf(),
        ensures
            (r is Some) == (spec_find_ref(self.refs@, name@) is Some),
            r matches Some(rf) ==> spec_find_ref(self.refs@, name@) matches Some(orig) && rf@
                == orig@ && rf.wf(),
    {
        let mut i: usize = 0;
        assert(self.refs@.skip(0) =~= self.refs@);
        while i < self.refs.len()
            invariant
                self.wf(),
                i <= self.refs@.len(),
                spec_find_ref(self.refs@, name@) == spec_find_ref(
                    self.refs@.skip(i as int),
                    name@,
                ),
            decreases self.refs.len() - i,
        {
            if crate::oid::bytes_equal(&self.refs[i].name, name) {
                assert(self.refs@.skip(i as int)[0] == self.refs@[i as int]);
                return Some(self.refs[i].duplicate());
            }
            proof {
                assert(self.refs@.skip(i as int)[0] == self.refs@[i as int]);
                assert(self.refs@.skip(i as int).skip(1) =~= self.refs@.skip(i + 1));
            }
            i += 1;
        }
        assert(self.refs@.skip(i as int).len() == 0);
        None
    }
}

/// The direct identifier reached from the named reference by following
/// symbolic indirections, with `fuel` hops left.
pub open spec fn follow_symbolic(rs: RefStore, name: Seq<u8>, fuel: nat) -> Option<Seq<u8>>
    decreases fuel,
{
    match spec_find_ref(rs.refs@, name) {
        Option::None => Option::None,
        Option::Some(r) => match r.target {
            RefTarget::Direct(id) => Option::Some(id@),
            RefTarget::Symbolic(n) => if fuel == 0 {
                Option::None
            } else {
                follow_symbolic(rs, n@, (fuel - 1) as nat)
            },
        },
    }
}

/// Unwraps annotated-tag layers down to the first non-tag object, with `fuel`
/// layers left; a longer chain must revisit an identifier.
pub open spec fn untag(store: ObjectStore, id: Seq<u8>, fuel: nat) -> Option<Seq<u8>>
    decreases fuel,
{
    match store.spec_find(id) {
        Option::None => Option::None,
        Option::Some(data) => match data {
            ObjectData::Tag { target } => if fuel == 0 {
                Option::None
            } else {
                untag(store, target@, (fuel - 1) as nat)
            },
            _ => Option::Some(id),
        },
    }
}

/// What promoting a reference to an object yields: a direct target stands as
/// it is; a symbolic target is followed through the reference chain and then
/// peeled of its tag layers.
pub open spec fn spec_ref_object(rs: RefStore, store: ObjectStore, r: Reference) -> Option<
    Seq<u8>,
> {
    match r.target {
        RefTarget::Direct(id) => Option::Some(id@),
        RefTarget::Symbolic(n) => match follow_symbolic(rs, n@, rs.refs@.len() as nat) {
            Option::None => Option::None,
            Option::Some(id) => untag(store, id, store.entries@.len() as nat),
        },
    }
}

/// Follows symbolic indirections from `start` to a direct identifier.
fn follow_symbolic_refs(rs: &RefStore, start: &Vec<u8>) -> (out: Option<ObjectId>)
    requires
        rs.wf(),
    ensures
        (out is Some) == (follow_symbolic(*rs, start@, rs.refs@.len() as nat) is Some),
        out matches Some(id) ==> follow_symbolic(*rs, start@, rs.refs@.len() as nat)
            == Option::Some(id@) && id.wf(),
{
    let mut name: Vec<u8> = crate::oid::clone_bytes(start);
    let mut hops: usize = 0;
    loop
        invariant
            rs.wf(),
            hops <= rs.refs@.len(),
            follow_symbolic(*rs, start@, rs.refs@.len() as nat) == follow_symbolic(
                *rs,
                name@,
                (rs.refs@.len() - hops) as nat,
            ),
        decreases rs.refs@.len() - hops,
    {
        let ghost fuel = (rs.refs@.len() - hops) as nat;
        match rs.find(&name) {
            None => {
                return None;
            },
            Some(rf) => match rf.target {
                RefTarget::Direct(id) => {
                    return Some(id);
                },
                RefTarget::Symbolic(n) => {
                    if hops >= rs.refs.len() {
                        assert(fuel == 0);
                        return None;
                    }
                    assert(fuel != 0);
                    name = n;
                    hops += 1;
                },
            },
        }
    }
}

/// Unwraps annotated-tag layers down to the first non-tag object.
fn untag_in_store(store: &ObjectStore, start: ObjectId) -> (out: Option<ObjectId>)
    requires
        store.wf(),
        start.wf(),
    ensures
        (out is Some) == (untag(*store, start@, store.entries@.len() as nat) is Some),
        out matches Some(id) ==> untag(*store, start@, store.entries@.len() as nat)
            == Option::Some(id@) && id.wf(),
{
    let mut cur: ObjectId = start;
    let mut steps: usize = 0;
    loop
        invariant
            store.wf(),
            cur.wf(),
            steps <= store.entries@.len(),
            untag(*store, start@, store.entries@.len() as nat) == untag(
                *store,
                cur@,
                (store.entries@.len() - steps) as nat,
            ),
        decreases store.entries@.len() - steps,
    {
        let ghost fuel = (store.entries@.len() - steps) as nat;
        match store.find(&cur) {
            None => {
                return None;
            },
            Some(data) => match data {
                ObjectData::Tag { target } => {
                    if steps >= store.entries.len() {
                        assert(fuel == 0);
                        return None;
                    }
                    let next = target.duplicate();
                    proof {
                        crate::object::lemma_find_in_wf(store.entries@, cur@);
                        assert(fuel != 0);
                    }
                    cur = next;
                    steps += 1;
                },
                _ => {
                    return Some(cur);
                },
            },
        }
    }
}

/// Promotes a reference to a concrete object identifier, if that is possible.
pub fn resolve_reference(rs: &RefStore, store: &ObjectStore, r: &Reference) -> (out: Option<
    ObjectId,
>)
    requires
        rs.wf(),
        store.wf(),
        r.wf(),
    ensures
        (out is Some) == (spec_ref_object(*rs, *store, *r) is Some),
        out matches Some(id) ==> spec_ref_object(*rs, *store, *r) == Option::Some(id@) && id.wf(),
{
    match &r.target {
        RefTarget::Direct(id) => Some(id.duplicate()),
        RefTarget::Symbolic(n) => match follow_symbolic_refs(rs, n) {
            None => None,
            Some(direct) => untag_in_store(store, direct),
        },
    }
}

} // verus!
