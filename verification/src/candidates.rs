//! Candidate sets: the object identifiers still considered possible
//! resolutions of one endpoint.
//!
//! A set is kept as a strictly sorted vector, so iteration and diagnostic
//! formatting are deterministic, and more than one element means the endpoint
//! is still ambiguous. No operation of this module leaves an empty set behind
//! out of a nonempty one except an explicit removal.

use vstd::prelude::*;
use crate::oid::{ObjectId, views_of, lex_lt, lemma_lex_lt_asymmetric, lemma_lex_lt_trichotomy,
    lemma_lex_lt_transitive};

verus! {

/// Strictly ascending lexicographic order: sorted and duplicate-free.
pub open spec fn sorted_ids(s: Seq<Seq<u8>>) -> bool {
    forall|i: int, j: int| 0 <= i < j < s.len() ==> lex_lt(s[i], s[j])
}

/// A sorted, duplicate-free set of candidate object identifiers.
#[derive(Debug)]
pub struct CandidateSet {
    pub ids: Vec<ObjectId>,
}

impl View for CandidateSet {
    type V = Seq<Seq<u8>>;

    open spec fn view(&self) -> Seq<Seq<u8>> {
        self.ids@.map_values(|o: ObjectId| o@)
    }
}

impl CandidateSet {
    pub open spec fn wf(&self) -> bool {
        sorted_ids(self@) && forall|i: int|
            0 <= i < self.ids@.len() ==> (#[trigger] self.ids@[i]).wf()
    }

    /// The set holding exactly one identifier.
    pub fn singleton(id: ObjectId) -> (r: CandidateSet)
        requires
            id.wf(),
        ensures
            r@ =~= seq![id@],
            r.wf(),
    {
        let mut ids: Vec<ObjectId> = Vec::new();
        ids.push(id);
        CandidateSet { ids }
    }

    pub fn len(&self) -> (r: usize)
        ensures
            r == self@.len(),
    {
        self.ids.len()
    }

    /// Read access for iteration in identifier order.
    pub fn get(&self, i: usize) -> (r: &ObjectId)
        requires
            i < self@.len(),
        ensures
            r@ == self@[i as int],
            self.wf() ==> r.wf(),
    {
        &self.ids[i]
    }

    /// Copies the whole set.
    pub fn duplicate(&self) -> (r: CandidateSet)
        requires
            self.wf(),
        ensures
            r@ =~= self@,
            r.wf(),
    {
        let mut ids: Vec<ObjectId> = Vec::new();
        let mut i: usize = 0;
        while i < self.ids.len()
            invariant
                self.wf(),
                i <= self.ids@.len(),
                ids@.len() == i,
                forall|j: int| 0 <= j < i ==> (#[trigger] ids@[j])@ == self.ids@[j]@,
                forall|j: int| 0 <= j < i ==> (#[trigger] ids@[j]).wf(),
            decreases self.ids.len() - i,
        {
            ids.push(self.ids[i].duplicate());
            i += 1;
        }
        let r = CandidateSet { ids };
        assert(r@ =~= self@);
        assert(sorted_ids(r@));
        r
    }

    pub open spec fn has(&self, x: Seq<u8>) -> bool {
        self@.contains(x)
    }

    /// Whether the set holds `id`.
    pub fn contains(&self, id: &ObjectId) -> (r: bool)
        ensures
            r == self.has(id@),
    {
        let mut i: usize = 0;
        while i < self.ids.len()
            invariant
                i <= self.ids@.len(),
                forall|j: int| 0 <= j < i ==> self@[j] != id@,
            decreases self.ids.len() - i,
        {
            if self.ids[i].equals(id) {
                assert(self@[i as int] == id@);
                return true;
            }
            i += 1;
        }
        false
    }

    /// Inserts `id`, keeping the sorted order; a present identifier leaves the
    /// set unchanged.
    pub fn insert(&mut self, id: ObjectId)
        requires
            old(self).wf(),
            id.wf(),
        ensures
            final(self).wf(),
            forall|x: Seq<u8>|
                final(self).has(x) <==> (old(self).has(x) || x == id@),
            final(self)@.len() >= 1,
            old(self).has(id@) ==> final(self)@ =~= old(self)@,
            !old(self).has(id@) ==> final(self)@.len() == old(self)@.len() + 1,
    {
        let mut k: usize = 0;
        while k < self.ids.len() && self.ids[k].lex_less(&id)
            invariant
                self.ids@ == old(self).ids@,
                old(self).wf(),
                k <= self.ids@.len(),
                forall|j: int| 0 <= j < k ==> lex_lt(self@[j], id@),
            decreases self.ids.len() - k,
        {
            k += 1;
        }
        if k < self.ids.len() && self.ids[k].equals(&id) {
            assert(self.has(id@)) by {
                assert(self@[k as int] == id@);
            }
            return;
        }
        proof {
            if k < self.ids@.len() {
                lemma_lex_lt_trichotomy(self@[k as int], id@);
                assert(lex_lt(id@, self@[k as int]));
            }
            if old(self).has(id@) {
                let w = choose|w: int| 0 <= w < self@.len() && self@[w] == id@;
                if w < k {
                    lemma_lex_lt_asymmetric(self@[w], id@);
                } else {
                    assert(k < self.ids@.len());
                    if w > k {
                        lemma_lex_lt_asymmetric(id@, self@[k as int]);
                        lemma_lex_lt_transitive(id@, self@[k as int], self@[w]);
                        lemma_lex_lt_asymmetric(id@, self@[w]);
                    }
                }
                assert(false);
            }
        }
        let ghost pre = self@;
        let ghost pre_ids = self.ids@;
        self.ids.insert(k, id);
        proof {
            assert forall|i: int| 0 <= i < self.ids@.len() implies (#[trigger] self.ids@[i]).wf() by {
                if i < k {
                    assert(self.ids@[i] == pre_ids[i]);
                } else if i > k {
                    assert(self.ids@[i] == pre_ids[i - 1]);
                }
            }
            assert(self@.len() == pre.len() + 1);
            assert(forall|j: int| 0 <= j < k ==> self@[j] == pre[j]);
            assert(self@[k as int] == id@);
            assert(forall|j: int| k < j < self@.len() ==> self@[j] == pre[j - 1]);
            assert forall|i: int, j: int| 0 <= i < j < self@.len() implies lex_lt(
                self@[i],
                self@[j],
            ) by {
                if j < k {
                    assert(lex_lt(pre[i], pre[j]));
                } else if j == k {
                    assert(lex_lt(pre[i], id@));
                } else if i < k {
                    assert(lex_lt(pre[i], pre[j - 1]));
                } else if i == k {
                    if j - 1 > k {
                        assert(lex_lt(pre[k as int], pre[j - 1]));
                        lemma_lex_lt_transitive(id@, pre[k as int], pre[j - 1]);
                    }
                } else {
                    assert(lex_lt(pre[i - 1], pre[j - 1]));
                }
            }
            assert forall|x: Seq<u8>| final(self).has(x) implies (pre.contains(x) || x == id@) by {
                let w = choose|w: int| 0 <= w < self@.len() && self@[w] == x;
                if w < k {
                    assert(pre[w] == x);
                } else if w > k {
                    assert(pre[w - 1] == x);
                }
            }
            assert forall|x: Seq<u8>| (pre.contains(x) || x == id@) implies final(self).has(x) by {
                if pre.contains(x) {
                    let w = choose|w: int| 0 <= w < pre.len() && pre[w] == x;
                    if w < k {
                        assert(self@[w] == x);
                    } else {
                        assert(self@[w + 1] == x);
                    }
                } else {
                    assert(self@[k as int] == x);
                }
            }
        }
    }

    /// Removes every identifier of `ids` (strictly sorted, all present) from
    /// the set.
    pub fn remove_all(&mut self, ids: &Vec<ObjectId>)
        requires
            old(self).wf(),
            sorted_ids(views_of(ids@)),
            forall|t: int| 0 <= t < ids@.len() ==> old(self).has(#[trigger] views_of(ids@)[t]),
        ensures
            final(self).wf(),
            final(self)@.len() == old(self)@.len() - ids@.len(),
            forall|x: Seq<u8>|
                final(self).has(x) <==> (old(self).has(x) && !views_of(ids@).contains(x)),
    {
        let ghost iv = views_of(ids@);
        let mut t: usize = 0;
        proof {
            assert(iv.take(0) =~= Seq::<Seq<u8>>::empty());
        }
        while t < ids.len()
            invariant
                self.wf(),
                iv == views_of(ids@),
                sorted_ids(iv),
                forall|u: int| 0 <= u < iv.len() ==> old(self).has(#[trigger] iv[u]),
                t <= iv.len(),
                self@.len() == old(self)@.len() - t,
                forall|x: Seq<u8>|
                    self.has(x) <==> (old(self).has(x) && !iv.take(t as int).contains(x)),
            decreases ids@.len() - t,
        {
            proof {
                if iv.take(t as int).contains(iv[t as int]) {
                    let w = choose|w: int| 0 <= w < t && iv.take(t as int)[w] == iv[t as int];
                    assert(lex_lt(iv[w], iv[t as int]));
                    lemma_lex_lt_asymmetric(iv[w], iv[t as int]);
                }
                assert(self.has(iv[t as int]));
            }
            let id = &ids[t];
            self.remove(id);
            proof {
                let prev = iv.take(t as int);
                let now = iv.take(t + 1);
                assert(now =~= prev.push(iv[t as int]));
                assert forall|x: Seq<u8>|
                    now.contains(x) <==> (prev.contains(x) || x == iv[t as int]) by {
                    if now.contains(x) {
                        let w = choose|w: int| 0 <= w < now.len() && now[w] == x;
                        if w < t {
                            assert(prev[w] == x);
                        }
                    }
                    if prev.contains(x) {
                        let w = choose|w: int| 0 <= w < prev.len() && prev[w] == x;
                        assert(now[w] == x);
                    }
                    if x == iv[t as int] {
                        assert(now[t as int] == x);
                    }
                }
            }
            t += 1;
        }
        proof {
            assert(iv.take(iv.len() as int) =~= iv);
        }
    }

    /// Removes `id` if present; an absent identifier leaves the set unchanged.
    pub fn remove(&mut self, id: &ObjectId)
        requires
            old(self).wf(),
        ensures
            final(self).wf(),
            forall|x: Seq<u8>|
                final(self).has(x) <==> (old(self).has(x) && x != id@),
            old(self).has(id@) ==> final(self)@.len() == old(self)@.len() - 1,
            !old(self).has(id@) ==> final(self)@ =~= old(self)@,
    {
        let mut k: usize = 0;
        while k < self.ids.len()
            invariant
                self.ids@ == old(self).ids@,
                old(self).wf(),
                k <= self.ids@.len(),
                forall|j: int| 0 <= j < k ==> self@[j] != id@,
            decreases self.ids.len() - k,
        {
            if self.ids[k].equals(id) {
                assert(self@[k as int] == id@);
                let ghost pre = self@;
                proof {
                    assert forall|j: int| 0 <= j < pre.len() && j != k implies pre[j] != id@ by {
                        if j < k {
                            assert(lex_lt(pre[j], pre[k as int]));
                            lemma_lex_lt_asymmetric(pre[j], pre[k as int]);
                        } else {
                            assert(lex_lt(pre[k as int], pre[j]));
                            lemma_lex_lt_asymmetric(pre[k as int], pre[j]);
                        }
                    }
                }
                let ghost pre_ids = self.ids@;
                self.ids.remove(k);
                proof {
                    assert(self@.len() == pre.len() - 1);
                    assert(forall|j: int| 0 <= j < k ==> self@[j] == pre[j]);
                    assert(forall|j: int|
                        k <= j < self@.len() ==> self@[j] == pre[j + 1]);
                    assert forall|i: int| 0 <= i < self.ids@.len() implies (#[trigger] self.ids@[i]).wf() by {
                        if i < k {
                            assert(self.ids@[i] == pre_ids[i]);
                        } else {
                            assert(self.ids@[i] == pre_ids[i + 1]);
                        }
                    }
                    assert forall|i: int, j: int| 0 <= i < j < self@.len() implies lex_lt(
                        self@[i],
                        self@[j],
                    ) by {
                        let pi: int = if i < k { i } else { i + 1 };
                        let pj: int = if j < k { j } else { j + 1 };
                        assert(lex_lt(pre[pi], pre[pj]));
                    }
                    assert forall|x: Seq<u8>| final(self).has(x) implies (pre.contains(x) && x
                        != id@) by {
                        let w = choose|w: int| 0 <= w < self@.len() && self@[w] == x;
                        if w < k {
                            assert(pre[w] == x);
                        } else {
                            assert(pre[w + 1] == x);
                        }
                    }
                    assert forall|x: Seq<u8>| (pre.contains(x) && x != id@) implies final(self).has(
                        x,
                    ) by {
                        let w = choose|w: int| 0 <= w < pre.len() && pre[w] == x;
                        if w < k {
                            assert(self@[w] == x);
                        } else {
                            assert(w != k);
                            assert(self@[w - 1] == x);
                        }
                    }
                }
                return;
            }
            k += 1;
        }
    }
}

} // verus!
