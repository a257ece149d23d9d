//! Base pairs `(i, j)` with `i < j`, and their packed 32-bit keys.
use vstd::prelude::*;

use crate::loop_table::{lemma_opens_before_nonneg, opens_before};
use crate::pair_table::{opens_at, partner, table_wf, PairTable};

verus! {

/// Sequence position: 16 bits, so that two of them pack into one key.
pub type NAIDX = u16;

/// Packed pair key: `(i << 16) | j`.
pub type P1KEY = u32;

/// The key of the pair `(i, j)`.
pub open spec fn key_of(i: int, j: int) -> int {
    i * 65536 + j
}

/// The 5'-side index packed in a key.
pub open spec fn key_i(k: int) -> int {
    k / 65536
}

/// The 3'-side index packed in a key.
pub open spec fn key_j(k: int) -> int {
    k % 65536
}

/// A key that decodes to a proper pair `i < j`.
pub open spec fn valid_key(k: int) -> bool {
    0 <= k < 0x1_0000_0000 && key_i(k) < key_j(k)
}

/// A base pair (i, j) with i < j.
#[derive(Debug, Clone, Copy, PartialEq, Eq, Hash, Structural)]
pub struct Pair {
    i: NAIDX,
    j: NAIDX,
}

impl View for Pair {
    type V = (int, int);

    closed spec fn view(&self) -> (int, int) {
        (self.i as int, self.j as int)
    }
}

impl Pair {
    #[verifier::type_invariant]
    closed spec fn ordered(self) -> bool {
        self.i < self.j
    }

    /// Both ends of a pair are positions.
    pub proof fn lemma_in_range(self)
        ensures
            0 <= self@.0 < 65536,
            0 <= self@.1 < 65536,
    {
    }

    /// Create the pair (i, j).
    pub fn new(i: NAIDX, j: NAIDX) -> (r: Self)
        requires
            i < j,
        ensures
            r@ == (i as int, j as int),
    {
        Pair { i, j }
    }

    /// The 5'-side index.
    pub fn i(&self) -> (r: NAIDX)
        ensures
            r as int == self@.0,
            self@.0 < self@.1,
    {
        proof { use_type_invariant(self); }
        self.i
    }

    /// The 3'-side index.
    pub fn j(&self) -> (r: NAIDX)
        ensures
            r as int == self@.1,
            self@.0 < self@.1,
    {
        proof { use_type_invariant(self); }
        self.j
    }

    /// Compact 32-bit key encoding both indices.
    pub fn key(&self) -> (r: P1KEY)
        ensures
            r as int == key_of(self@.0, self@.1),
            valid_key(r as int),
            key_i(r as int) == self@.0,
            key_j(r as int) == self@.1,
    {
        proof { use_type_invariant(self); }
        let i = self.i;
        let j = self.j;
        let r = ((i as P1KEY) << 16u32) | (j as P1KEY);
        proof {
            assert(((i as u32) << 16u32) | (j as u32) == (i as u32) * 65536 + (j as u32))
                by (bit_vector)
                requires
                    i <= 0xffff,
                    j <= 0xffff,
            ;
        }
        r
    }

    /// Decode a key back into a pair.
    pub fn from_key(key: P1KEY) -> (r: Self)
        requires
            key_i(key as int) < key_j(key as int),
        ensures
            r@ == (key_i(key as int), key_j(key as int)),
    {
        let i = (key >> 16u32) as NAIDX;
        let j = (key & 0xFFFFu32) as NAIDX;
        proof {
            assert(key >> 16u32 == key / 65536) by (bit_vector);
            assert(key & 0xFFFFu32 == key % 65536) by (bit_vector);
        }
        Pair { i, j }
    }
}

/// Decoding the key of a pair `(i, j)` with `i < j` gives the pair back.
pub proof fn lemma_key_round_trip(p: Pair)
    requires
        p@.0 < p@.1,
    ensures
        valid_key(key_of(p@.0, p@.1)),
        (key_i(key_of(p@.0, p@.1)), key_j(key_of(p@.0, p@.1))) == p@,
{
    p.lemma_in_range();
    let k = key_of(p@.0, p@.1);
    assert(k / 65536 == p@.0 && k % 65536 == p@.1) by (nonlinear_arith)
        requires
            k == p@.0 * 65536 + p@.1,
            0 <= p@.0 < 65536,
            0 <= p@.1 < 65536,
    ;
}

/// Two pairs with equal views are the same value.
pub proof fn lemma_pair_view_injective(p: Pair, q: Pair)
    requires
        p@ == q@,
    ensures
        p == q,
{
}

/// The pairs of a structure, numbered from one rather than zero.
#[derive(Debug, Clone, PartialEq, Eq)]
pub struct PairList {
    pub(crate) length: usize,
    pub(crate) pairs: Vec<Pair>,
}

impl View for PairList {
    type V = (nat, Seq<Pair>);

    closed spec fn view(&self) -> (nat, Seq<Pair>) {
        (self.length as nat, self.pairs@)
    }
}

impl PairList {
    /// The pairs, 1-based.
    pub fn pairs(&self) -> (r: &Vec<Pair>)
        ensures
            r@ == self@.1,
    {
        &self.pairs
    }

    /// Length of the structure the pairs were taken from.
    pub fn length(&self) -> (r: usize)
        ensures
            r == self@.0,
    {
        self.length
    }
}

impl PairList {
    /// The pairs of a well-formed table in order of their 5' ends, numbered from one.
    pub fn from(pt: &PairTable) -> (r: PairList)
        requires
            table_wf(pt@),
        ensures
            r@.0 == pt@.len(),
            r@.1.len() == opens_before(pt@, pt@.len() as int),
            forall|a: int|
                0 <= a < pt@.len() && #[trigger] opens_at(pt@, a) ==> opens_before(pt@, a) < r@.1.len()
                    && r@.1[opens_before(pt@, a)]@ == (
                    a + 1,
                    partner(pt@, a) + 1,
                ),
    {
        let n = pt.len();
        let mut pairs: Vec<Pair> = Vec::new();
        let mut i: usize = 0;
        while i < n
            invariant
                n == pt@.len(),
                table_wf(pt@),
                i <= n,
                pairs@.len() == opens_before(pt@, i as int),
                forall|a: int|
                    0 <= a < i && #[trigger] opens_at(pt@, a) ==> opens_before(pt@, a) < pairs@.len()
                        && pairs@[opens_before(pt@, a)]@ == (
                        a + 1,
                        partner(pt@, a) + 1,
                    ),
            decreases n - i,
        {
            let ghost before = pairs@;
            match pt.get(i) {
                Some(j) => {
                    if (i as NAIDX) < j {
                        assert(opens_at(pt@, i as int));
                        pairs.push(Pair::new(i as NAIDX + 1, j + 1));
                        assert(pairs@[before.len() as int]@ == (i + 1, partner(pt@, i as int) + 1));
                    }
                },
                None => {},
            }
            assert(forall|x: int| 0 <= x < before.len() ==> pairs@[x] == before[x]);
            assert forall|a: int|
                0 <= a < i + 1 && #[trigger] opens_at(pt@, a) implies opens_before(pt@, a)
                < pairs@.len() && pairs@[opens_before(pt@, a)]@ == (a + 1, partner(pt@, a) + 1) by {
                if a < i {
                    let x = opens_before(pt@, a);
                    lemma_opens_before_nonneg(pt@, a);
                    assert(pairs@[x] == before[x]);
                }
            }
            assert(opens_before(pt@, i + 1) == opens_before(pt@, i as int) + if opens_at(
                pt@,
                i as int,
            ) {
                1int
            } else {
                0int
            });
            i += 1;
        }
        PairList { length: n, pairs }
    }
}

} // verus!
