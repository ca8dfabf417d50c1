//! Object identifiers and shortened hexadecimal prefixes.
//!
//! An identifier is a fixed number of hexadecimal digits; a prefix is a
//! shorter run of digits that matches every identifier it is a prefix of.
//! Candidate sets and diagnostics order identifiers lexicographically so that
//! the same input always produces the same output.

use vstd::prelude::*;

verus! {

/// Number of hex digits in a full object identifier.
pub const HEX_LEN: usize = 40;

/// Every element of `s` is a hex digit value (below 16).
pub open spec fn valid_digits(s: Seq<u8>) -> bool {
    forall|i: int| 0 <= i < s.len() ==> s[i] < 16
}

/// Strict lexicographic order on digit sequences.
pub open spec fn lex_lt(a: Seq<u8>, b: Seq<u8>) -> bool
    decreases a.len(),
{
    if b.len() == 0 {
        false
    } else if a.len() == 0 {
        true
    } else if a[0] < b[0] {
        true
    } else if a[0] > b[0] {
        false
    } else {
        lex_lt(a.skip(1), b.skip(1))
    }
}

pub proof fn lemma_lex_lt_asymmetric(a: Seq<u8>, b: Seq<u8>)
    ensures
        !(lex_lt(a, b) && lex_lt(b, a)),
        lex_lt(a, b) ==> a != b,
    decreases a.len(),
{
    if a.len() != 0 && b.len() != 0 && a[0] == b[0] {
        lemma_lex_lt_asymmetric(a.skip(1), b.skip(1));
        if lex_lt(a, b) {
            assert(a.skip(1) != b.skip(1));
            assert(a != b) by {
                if a == b {
                    assert(a.skip(1) =~= b.skip(1));
                }
            }
        }
    }
}

pub proof fn lemma_lex_lt_trichotomy(a: Seq<u8>, b: Seq<u8>)
    ensures
        lex_lt(a, b) || lex_lt(b, a) || a =~= b,
    decreases a.len(),
{
    if a.len() != 0 && b.len() != 0 && a[0] == b[0] {
        lemma_lex_lt_trichotomy(a.skip(1), b.skip(1));
        if !lex_lt(a, b) && !lex_lt(b, a) {
            assert(a.skip(1) =~= b.skip(1));
            assert forall|i: int| 1 <= i < a.len() implies a[i] == b[i] by {
                assert(a[i] == a.skip(1)[i - 1]);
                assert(b[i] == b.skip(1)[i - 1]);
            }
            assert(a =~= b);
        }
    }
}

pub proof fn lemma_lex_lt_transitive(a: Seq<u8>, b: Seq<u8>, c: Seq<u8>)
    requires
        lex_lt(a, b),
        lex_lt(b, c),
    ensures
        lex_lt(a, c),
    decreases a.len(),
{
    if a.len() != 0 && b.len() != 0 && c.len() != 0 {
        if a[0] == b[0] && b[0] == c[0] {
            lemma_lex_lt_transitive(a.skip(1), b.skip(1), c.skip(1));
        }
    }
}

/// One unfolding step of `lex_lt` under a common equal prefix of length `i`.
pub proof fn lemma_lex_lt_skip_step(a: Seq<u8>, b: Seq<u8>, i: int)
    requires
        0 <= i < a.len(),
        0 <= i < b.len(),
        a[i] == b[i],
    ensures
        lex_lt(a.skip(i), b.skip(i)) == lex_lt(a.skip(i + 1), b.skip(i + 1)),
{
    assert(a.skip(i).skip(1) =~= a.skip(i + 1));
    assert(b.skip(i).skip(1) =~= b.skip(i + 1));
    assert(a.skip(i)[0] == a[i]);
    assert(b.skip(i)[0] == b[i]);
}

/// Copies a byte vector.
pub fn clone_bytes(v: &Vec<u8>) -> (r: Vec<u8>)
    ensures
        r@ =~= v@,
{
    let mut out: Vec<u8> = Vec::new();
    let mut i: usize = 0;
    while i < v.len()
        invariant
            i <= v.len(),
            out@ =~= v@.subrange(0, i as int),
        decreases v.len() - i,
    {
        out.push(v[i]);
        assert(out@ =~= v@.subrange(0, i + 1 as int));
        i += 1;
    }
    assert(v@.subrange(0, v.len() as int) =~= v@);
    out
}

/// Compares two byte vectors for equality.
pub fn bytes_equal(a: &Vec<u8>, b: &Vec<u8>) -> (r: bool)
    ensures
        r == (a@ =~= b@),
{
    if a.len() != b.len() {
        return false;
    }
    let mut i: usize = 0;
    while i < a.len()
        invariant
            i <= a.len(),
            a@.len() == b@.len(),
            forall|j: int| 0 <= j < i ==> a@[j] == b@[j],
        decreases a.len() - i,
    {
        if a[i] != b[i] {
            return false;
        }
        i += 1;
    }
    assert(a@ =~= b@);
    true
}

/// Strict lexicographic comparison of two digit vectors.
fn digits_lex_less(a: &Vec<u8>, b: &Vec<u8>) -> (r: bool)
    ensures
        r == lex_lt(a@, b@),
{
    let mut i: usize = 0;
    assert(a@.skip(0) =~= a@);
    assert(b@.skip(0) =~= b@);
    loop
        invariant
            i <= a.len(),
            i <= b.len(),
            lex_lt(a@, b@) == lex_lt(a@.skip(i as int), b@.skip(i as int)),
        decreases a.len() - i,
    {
        if i == b.len() {
            assert(b@.skip(i as int).len() == 0);
            return false;
        }
        if i == a.len() {
            assert(a@.skip(i as int).len() == 0);
            assert(b@.skip(i as int).len() != 0);
            return true;
        }
        if a[i] < b[i] {
            assert(a@.skip(i as int)[0] == a@[i as int]);
            assert(b@.skip(i as int)[0] == b@[i as int]);
            return true;
        }
        if a[i] > b[i] {
            assert(a@.skip(i as int)[0] == a@[i as int]);
            assert(b@.skip(i as int)[0] == b@[i as int]);
            return false;
        }
        proof {
            lemma_lex_lt_skip_step(a@, b@, i as int);
        }
        i += 1;
    }
}

/// ASCII code of the lower-case hex character for a digit value.
pub open spec fn hex_char(d: u8) -> u8 {
    if d < 10 {
        (48 + d) as u8
    } else {
        (87 + d) as u8
    }
}

/// Digit values rendered as ASCII hex characters.
pub open spec fn hex_chars(s: Seq<u8>) -> Seq<u8> {
    s.map_values(|d: u8| hex_char(d))
}

/// A full object identifier.
#[derive(Debug)]
pub struct ObjectId {
    pub digits: Vec<u8>,
}

impl View for ObjectId {
    type V = Seq<u8>;

    open spec fn view(&self) -> Seq<u8> {
        self.digits@
    }
}

impl ObjectId {
    /// A well-formed identifier has exactly `HEX_LEN` hex digits.
    pub open spec fn wf(&self) -> bool {
        self@.len() == HEX_LEN && valid_digits(self@)
    }

    /// Builds an identifier from digit values, refusing malformed input.
    pub fn from_digits(digits: Vec<u8>) -> (r: Option<ObjectId>)
        ensures
            (r is Some) == (digits@.len() == HEX_LEN && valid_digits(digits@)),
            r is Some ==> r.unwrap()@ =~= digits@ && r.unwrap().wf(),
    {
        if digits.len() != HEX_LEN {
            return None;
        }
        let mut i: usize = 0;
        while i < digits.len()
            invariant
                i <= digits.len(),
                forall|j: int| 0 <= j < i ==> digits@[j] < 16,
            decreases digits.len() - i,
        {
            if digits[i] >= 16 {
                return None;
            }
            i += 1;
        }
        Some(ObjectId { digits })
    }

    /// Copies the identifier.
    pub fn duplicate(&self) -> (r: ObjectId)
        ensures
            r@ =~= self@,
    {
        ObjectId { digits: clone_bytes(&self.digits) }
    }

    /// Digit-wise equality.
    pub fn equals(&self, other: &ObjectId) -> (r: bool)
        ensures
            r == (self@ =~= other@),
    {
        bytes_equal(&self.digits, &other.digits)
    }

    /// Strict lexicographic comparison.
    pub fn lex_less(&self, other: &ObjectId) -> (r: bool)
        ensures
            r == lex_lt(self@, other@),
    {
        digits_lex_less(&self.digits, &other.digits)
    }
}

/// A shortened hexadecimal identifier: between one and `HEX_LEN` digits.
#[derive(Debug)]
pub struct Prefix {
    pub digits: Vec<u8>,
}

impl View for Prefix {
    type V = Seq<u8>;

    open spec fn view(&self) -> Seq<u8> {
        self.digits@
    }
}

impl Prefix {
    pub open spec fn wf(&self) -> bool {
        1 <= self@.len() <= HEX_LEN && valid_digits(self@)
    }

    /// Builds a prefix from digit values, refusing malformed input.
    pub fn from_digits(digits: Vec<u8>) -> (r: Option<Prefix>)
        ensures
            (r is Some) == (1 <= digits@.len() <= HEX_LEN && valid_digits(digits@)),
            r is Some ==> r.unwrap()@ =~= digits@ && r.unwrap().wf(),
    {
        if digits.len() < 1 || digits.len() > HEX_LEN {
            return None;
        }
        let mut i: usize = 0;
        while i < digits.len()
            invariant
                i <= digits.len(),
                forall|j: int| 0 <= j < i ==> digits@[j] < 16,
            decreases digits.len() - i,
        {
            if digits[i] >= 16 {
                return None;
            }
            i += 1;
        }
        Some(Prefix { digits })
    }

    /// The full-length hex form of an identifier, as a prefix.
    pub fn of_id(id: &ObjectId) -> (r: Prefix)
        requires
            id.wf(),
        ensures
            r@ =~= id@,
            r.wf(),
    {
        Prefix { digits: clone_bytes(&id.digits) }
    }

    /// Copies the prefix.
    pub fn duplicate(&self) -> (r: Prefix)
        ensures
            r@ =~= self@,
    {
        Prefix { digits: clone_bytes(&self.digits) }
    }

    /// Number of hex digits in the prefix.
    pub fn hex_len(&self) -> (r: usize)
        ensures
            r == self@.len(),
    {
        self.digits.len()
    }

    /// The prefix's textual hex form, as bytes: the name under which a
    /// reference may shadow the prefix.
    pub fn to_hex_bytes(&self) -> (r: Vec<u8>)
        requires
            self.wf(),
        ensures
            r@ =~= hex_chars(self@),
    {
        let mut out: Vec<u8> = Vec::new();
        let mut i: usize = 0;
        while i < self.digits.len()
            invariant
                self.wf(),
                i <= self@.len(),
                out@.len() == i,
                forall|j: int| 0 <= j < i ==> out@[j] == hex_char(self@[j]),
            decreases self.digits.len() - i,
        {
            let d = self.digits[i];
            assert(d < 16);
            if d < 10 {
                out.push(48 + d);
            } else {
                out.push(87 + d);
            }
            i += 1;
        }
        assert(out@ =~= hex_chars(self@));
        out
    }

    /// Whether this prefix matches the given identifier.
    pub fn matches(&self, id: &ObjectId) -> (r: bool)
        ensures
            r == self@.is_prefix_of(id@),
    {
        if self.digits.len() > id.digits.len() {
            return false;
        }
        let mut i: usize = 0;
        while i < self.digits.len()
            invariant
                i <= self@.len(),
                self@.len() <= id@.len(),
                forall|j: int| 0 <= j < i ==> self@[j] == id@[j],
            decreases self.digits.len() - i,
        {
            if self.digits[i] != id.digits[i] {
                assert(!(self@ =~= id@.subrange(0, self@.len() as int)));
                return false;
            }
            i += 1;
        }
        assert(self@ =~= id@.subrange(0, self@.len() as int));
        true
    }
}

/// The digit sequences of a run of identifiers.
pub open spec fn views_of(s: Seq<ObjectId>) -> Seq<Seq<u8>> {
    s.map_values(|o: ObjectId| o@)
}

/// Copies a run of identifiers.
pub fn clone_ids(v: &Vec<ObjectId>) -> (r: Vec<ObjectId>)
    ensures
        views_of(r@) =~= views_of(v@),
        forall|i: int| 0 <= i < r@.len() ==> (#[trigger] r@[i])@ == v@[i]@,
{
    let mut out: Vec<ObjectId> = Vec::new();
    let mut i: usize = 0;
    while i < v.len()
        invariant
            i <= v.len(),
            out@.len() == i,
            forall|j: int| 0 <= j < i ==> (#[trigger] out@[j])@ == v@[j]@,
        decreases v.len() - i,
    {
        out.push(v[i].duplicate());
        i += 1;
    }
    assert(views_of(out@) =~= views_of(v@));
    out
}

} // verus!
