//! Block and transaction identities.
//!
//! A `Digest` is a fixed-width opaque byte string used both as a block
//! identity and as the key of ledger entries. The only structure the rest of
//! the crate relies on is its total order, defined lexicographically over the
//! bytes.

use vstd::prelude::*;

verus! {

/// Number of bytes in a digest.
pub const DIGEST_SIZE: usize = 32;

/// A fixed-width opaque identity, ordered lexicographically over its bytes.
#[derive(Clone, Copy)]
pub struct Digest {
    bytes: [u8; 32],
}

/// Result of a three-way comparison of two digests.
#[derive(Clone, Copy)]
pub enum Cmp {
    Less,
    Equal,
    Greater,
}

/// Lexicographic strict order on byte strings, read from position `i` on:
/// the first position where the strings differ decides, and a strict prefix
/// precedes every extension of it.
pub open spec fn lex_lt_from(a: Seq<u8>, b: Seq<u8>, i: int) -> bool
    decreases b.len() - i,
{
    if i >= b.len() {
        false
    } else if i >= a.len() {
        true
    } else if a[i] < b[i] {
        true
    } else if a[i] > b[i] {
        false
    } else {
        lex_lt_from(a, b, i + 1)
    }
}

/// Lexicographic strict order on byte strings.
pub open spec fn lex_lt(a: Seq<u8>, b: Seq<u8>) -> bool {
    lex_lt_from(a, b, 0)
}

/// The order never holds of a string and itself.
pub proof fn lemma_lex_lt_irreflexive(a: Seq<u8>)
    ensures
        !lex_lt(a, a),
{
    lemma_lex_lt_irreflexive_from(a, 0);
}

proof fn lemma_lex_lt_irreflexive_from(a: Seq<u8>, i: int)
    ensures
        !lex_lt_from(a, a, i),
    decreases a.len() - i,
{
    if i < a.len() {
        lemma_lex_lt_irreflexive_from(a, i + 1);
    }
}

/// The order is irreflexive and asymmetric.
pub proof fn lemma_lex_lt_asymmetric(a: Seq<u8>, b: Seq<u8>)
    requires
        lex_lt(a, b),
    ensures
        !lex_lt(b, a),
        !(a =~= b),
{
    lemma_lex_lt_asymmetric_from(a, b, 0);
    if a =~= b {
        lemma_lex_lt_irreflexive(a);
    }
}

proof fn lemma_lex_lt_asymmetric_from(a: Seq<u8>, b: Seq<u8>, i: int)
    requires
        lex_lt_from(a, b, i),
    ensures
        !lex_lt_from(b, a, i),
    decreases b.len() - i,
{
    if i >= b.len() {
        // contradiction with lex_lt_from(a, b, i)
    } else if i >= a.len() {
        // b continues where a ends, so b cannot precede a here
    } else if a[i] < b[i] || a[i] > b[i] {
        // the deciding position decides both directions
    } else {
        lemma_lex_lt_asymmetric_from(a, b, i + 1);
    }
}

/// Any two byte strings are comparable: one precedes the other, or they are
/// the same string.
pub proof fn lemma_lex_lt_total(a: Seq<u8>, b: Seq<u8>)
    ensures
        lex_lt(a, b) || lex_lt(b, a) || a =~= b,
{
    lemma_lex_lt_total_from(a, b, 0);
    if !lex_lt(a, b) && !lex_lt(b, a) {
        assert(a =~= b);
    }
}

proof fn lemma_lex_lt_total_from(a: Seq<u8>, b: Seq<u8>, i: int)
    requires
        0 <= i,
        i <= a.len(),
        i <= b.len(),
    ensures
        lex_lt_from(a, b, i) || lex_lt_from(b, a, i) || (a.len() == b.len() && forall|j: int|
            i <= j < a.len() ==> a[j] == b[j]),
    decreases b.len() - i,
{
    if i >= b.len() {
        // either a is exhausted too, and the strings agree from i on, or b
        // is a strict prefix of a and b precedes a
    } else if i >= a.len() {
        // a exhausted first: lex_lt_from(a, b, i)
    } else if a[i] == b[i] {
        lemma_lex_lt_total_from(a, b, i + 1);
    }
}

/// The order is transitive.
pub proof fn lemma_lex_lt_transitive(a: Seq<u8>, b: Seq<u8>, c: Seq<u8>)
    requires
        lex_lt(a, b),
        lex_lt(b, c),
    ensures
        lex_lt(a, c),
{
    lemma_lex_lt_transitive_from(a, b, c, 0);
}

proof fn lemma_lex_lt_transitive_from(a: Seq<u8>, b: Seq<u8>, c: Seq<u8>, i: int)
    requires
        lex_lt_from(a, b, i),
        lex_lt_from(b, c, i),
    ensures
        lex_lt_from(a, c, i),
    decreases c.len() - i,
{
    if i >= c.len() {
        // contradiction with lex_lt_from(b, c, i)
    } else if i >= b.len() {
        // contradiction with lex_lt_from(a, b, i), unless i >= a.len()
    } else if i >= a.len() {
        // a exhausted: lex_lt_from(a, c, i) holds
    } else if a[i] < b[i] || b[i] < c[i] {
        // the deciding position carries over to a vs c
    } else {
        lemma_lex_lt_transitive_from(a, b, c, i + 1);
    }
}

impl View for Digest {
    type V = Seq<u8>;

    closed spec fn view(&self) -> Seq<u8> {
        self.bytes@
    }
}

impl Digest {
    /// Builds a digest from explicit bytes.
    pub fn from_bytes(bytes: [u8; 32]) -> (r: Self)
        ensures
            r@ == bytes@,
    {
        Digest { bytes }
    }

    /// Hands the bytes back out.
    pub fn to_bytes(&self) -> (r: [u8; 32])
        ensures
            r@ == self@,
    {
        self.bytes
    }

    /// A digest holds exactly `DIGEST_SIZE` bytes.
    pub proof fn lemma_size(self)
        ensures
            self@.len() == DIGEST_SIZE,
    {
    }

    /// Three-way comparison realising the lexicographic order.
    pub fn compare(&self, other: &Self) -> (c: Cmp)
        ensures
            match c {
                Cmp::Less => lex_lt(self@, other@),
                Cmp::Equal => self@ =~= other@,
                Cmp::Greater => lex_lt(other@, self@),
            },
    {
        let mut i: usize = 0;
        while i < 32
            invariant
                0 <= i <= 32,
                forall|j: int| 0 <= j < i ==> self@[j] == other@[j],
                lex_lt(self@, other@) == lex_lt_from(self@, other@, i as int),
                lex_lt(other@, self@) == lex_lt_from(other@, self@, i as int),
            decreases 32 - i,
        {
            let x = self.bytes[i];
            let y = other.bytes[i];
            if x < y {
                return Cmp::Less;
            }
            if x > y {
                return Cmp::Greater;
            }
            proof {
                lemma_lex_lt_step(self@, other@, i as int);
                lemma_lex_lt_step(other@, self@, i as int);
            }
            i += 1;
        }
        proof {
            assert(self@ =~= other@);
        }
        Cmp::Equal
    }

    /// Byte-wise equality of two digests.
    pub fn equals(&self, other: &Self) -> (r: bool)
        ensures
            r <==> self@ =~= other@,
            r ==> self@ == other@,
    {
        let c = self.compare(other);
        match c {
            Cmp::Equal => true,
            Cmp::Less => {
                proof {
                    lemma_lex_lt_asymmetric(self@, other@);
                }
                false
            },
            Cmp::Greater => {
                proof {
                    lemma_lex_lt_asymmetric(other@, self@);
                }
                false
            },
        }
    }
}

/// Reading one further pair of equal bytes leaves the order undecided.
proof fn lemma_lex_lt_step(a: Seq<u8>, b: Seq<u8>, i: int)
    requires
        0 <= i,
        i < a.len(),
        i < b.len(),
        a[i] == b[i],
    ensures
        lex_lt_from(a, b, i) == lex_lt_from(a, b, i + 1),
{
}

} // verus!
