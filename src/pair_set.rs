//! Sets of base pairs, stored as packed keys.
use vstd::prelude::*;

use nohash_hasher::IntSet;

use vstd::string::*;

use crate::text::{decimal, push_decimal};
use crate::int_hash::{int_set_contains, int_set_insert, int_set_keys, int_set_len};
use crate::pair::{key_i, key_j, key_of, valid_key, Pair, NAIDX, P1KEY};
use crate::pair_table::{opens_at, partner, table_wf, PairTable};

verus! {

/// Relies on `slice::sort_unstable`: the same keys in ascending order.
#[verifier::external_body]
fn sort_keys(v: &mut Vec<P1KEY>)
    ensures
        final(v)@.to_multiset() == old(v)@.to_multiset(),
        forall|x: int, y: int| 0 <= x < y < final(v)@.len() ==> final(v)@[x] <= final(v)@[y],
{
    v.sort_unstable();
}

/// The keys of the pairs a table holds.
pub open spec fn table_keys(t: Seq<Option<NAIDX>>) -> Set<P1KEY> {
    Set::new(
        |k: P1KEY|
            exists|a: int|
                0 <= a < t.len() && #[trigger] opens_at(t, a) && k as int == key_of(a, partner(t, a)),
    )
}

/// The key of a pair, as a key value.
pub open spec fn pair_key(p: Pair) -> P1KEY {
    key_of(p@.0, p@.1) as P1KEY
}

/// The text `(i,j)` of one pair.
pub open spec fn pair_text(p: Pair) -> Seq<char> {
    seq!['('] + decimal(p@.0 as nat) + seq![','] + decimal(p@.1 as nat) + seq![')']
}

/// The first `k` pairs as text, separated by commas.
pub open spec fn pairs_text(ps: Seq<Pair>, k: int) -> Seq<char>
    decreases k,
{
    if k <= 0 {
        Seq::empty()
    } else if k == 1 {
        pair_text(ps[0])
    } else {
        pairs_text(ps, k - 1) + seq![','] + pair_text(ps[k - 1])
    }
}

/// A set of base pairs over a structure of a given length.
#[derive(Debug)]
pub struct PairSet {
    length: usize,
    pairs: IntSet<P1KEY>,
}

impl View for PairSet {
    /// The length of the structure, and the keys of the pairs.
    type V = (nat, Set<P1KEY>);

    closed spec fn view(&self) -> (nat, Set<P1KEY>) {
        (self.length as nat, self.pairs@)
    }
}

impl PairSet {
    /// Every key is a pair that fits the length.
    pub open spec fn wf(&self) -> bool {
        forall|k: P1KEY|
            #[trigger] self@.1.contains(k) ==> valid_key(k as int) && key_j(k as int) < self@.0
    }

    /// An empty set for a structure of the given length.
    pub fn new(length: usize) -> (r: Self)
        ensures
            r@ == (length as nat, Set::<P1KEY>::empty()),
            r.wf(),
    {
        PairSet { length, pairs: IntSet::default() }
    }

    /// Number of pairs in the set.
    pub fn len(&self) -> (r: usize)
        ensures
            r == self@.1.len(),
    {
        int_set_len(&self.pairs)
    }

    /// Whether the set holds no pair.
    pub fn is_empty(&self) -> (r: bool)
        ensures
            r == (self@.1.len() == 0),
    {
        int_set_len(&self.pairs) == 0
    }

    /// Add a pair; answers whether it was new.
    pub fn insert(&mut self, pair: Pair) -> (r: bool)
        requires
            old(self).wf(),
            pair@.1 < old(self)@.0,
        ensures
            final(self).wf(),
            final(self)@ == (old(self)@.0, old(self)@.1.insert(key_of(pair@.0, pair@.1) as P1KEY)),
            r == !old(self)@.1.contains(key_of(pair@.0, pair@.1) as P1KEY),
    {
        let k = pair.key();
        int_set_insert(&mut self.pairs, k)
    }

    /// Whether the set holds the pair.
    pub fn contains(&self, pair: &Pair) -> (r: bool)
        ensures
            r == self@.1.contains(key_of(pair@.0, pair@.1) as P1KEY),
    {
        int_set_contains(&self.pairs, pair.key())
    }

    /// The keys of the pairs, in the set's own order.
    pub fn keys(&self) -> (r: Vec<P1KEY>)
        ensures
            r@.to_set() == self@.1,
            r@.no_duplicates(),
    {
        int_set_keys(&self.pairs)
    }

    /// All pairs, ordered by `(i, j)`.
    pub fn to_vec(&self) -> (r: Vec<Pair>)
        requires
            self.wf(),
        ensures
            r@.len() == self@.1.len(),
            forall|x: int|
                0 <= x < r@.len() ==> self@.1.contains(#[trigger] pair_key(r@[x])),
            forall|k: P1KEY| #[trigger] self@.1.contains(k) ==> exists|x: int|
                0 <= x < r@.len() && key_of(r@[x]@.0, r@[x]@.1) == k,
            forall|x: int, y: int|
                0 <= x < y < r@.len() ==> key_of(r@[x]@.0, r@[x]@.1) < key_of(r@[y]@.0, r@[y]@.1),
    {
        let mut keys = int_set_keys(&self.pairs);
        let ghost k0 = keys@;
        proof {
            k0.unique_seq_to_set();
        }
        sort_keys(&mut keys);
        proof {
            k0.to_multiset_ensures();
            keys@.to_multiset_ensures();
            k0.lemma_multiset_has_no_duplicates();
            assert forall|v: P1KEY| keys@.to_multiset().contains(v) implies keys@.to_multiset().count(v)
                == 1 by {
                assert(k0.to_multiset().contains(v));
            }
            keys@.lemma_multiset_has_no_duplicates_conv();
            assert forall|x: int| 0 <= x < keys@.len() implies self@.1.contains(#[trigger] keys@[x]) by {
                assert(keys@.contains(keys@[x]));
                assert(keys@.to_multiset().count(keys@[x]) > 0);
                assert(k0.to_multiset().count(keys@[x]) > 0);
                assert(k0.contains(keys@[x]));
                assert(k0.to_set().contains(keys@[x]));
            }
            assert forall|x: int, y: int| 0 <= x < y < keys@.len() implies keys@[x] < keys@[y] by {
                assert(keys@[x] != keys@[y]);
            }
        }
        let mut out: Vec<Pair> = Vec::new();
        let n = keys.len();
        let mut x: usize = 0;
        while x < n
            invariant
                n == keys@.len(),
                x <= n,
                out@.len() == x,
                forall|y: int| 0 <= y < keys@.len() ==> self@.1.contains(#[trigger] keys@[y]),
                forall|y: int| 0 <= y < x ==> key_of(out@[y]@.0, out@[y]@.1) == keys@[y],
                forall|y: int, z: int| 0 <= y < z < keys@.len() ==> keys@[y] < keys@[z],
                self.wf(),
            decreases n - x,
        {
            let k = keys[x];
            assert(self@.1.contains(k));
            let p = Pair::from_key(k);
            proof {
                assert(key_of(key_i(k as int), key_j(k as int)) == k) by (nonlinear_arith)
                    requires 0 <= k;
            }
            out.push(p);
            x += 1;
        }
        proof {
            assert forall|k: P1KEY| #[trigger] self@.1.contains(k) implies exists|x: int|
                0 <= x < out@.len() && key_of(out@[x]@.0, out@[x]@.1) == k by {
                assert(k0.to_set().contains(k));
                assert(k0.contains(k));
                assert(k0.to_multiset().count(k) > 0);
                assert(keys@.to_multiset().count(k) > 0);
                assert(keys@.contains(k));
                let y = choose|y: int| 0 <= y < keys@.len() && keys@[y] == k;
                assert(key_of(out@[y]@.0, out@[y]@.1) == k);
            }
            assert(keys@.len() == k0.len());
            assert forall|x: int| 0 <= x < out@.len() implies self@.1.contains(
                #[trigger] pair_key(out@[x]),
            ) by {
                assert(self@.1.contains(keys@[x]));
            }
            assert forall|x: int, y: int| 0 <= x < y < out@.len() implies key_of(
                out@[x]@.0,
                out@[x]@.1,
            ) < key_of(out@[y]@.0, out@[y]@.1) by {
                assert(keys@[x] < keys@[y]);
            }
        }
        out
    }

    /// The pairs as `(i,j)`, ordered by `(i, j)` and separated by commas.
    pub fn to_string(&self) -> (r: String)
        requires
            self.wf(),
        ensures
            exists|ps: Seq<Pair>| {
                &&& ps.len() == self@.1.len()
                &&& forall|x: int| 0 <= x < ps.len() ==> self@.1.contains(#[trigger] pair_key(ps[x]))
                &&& forall|x: int, y: int|
                    0 <= x < y < ps.len() ==> pair_key(ps[x]) < pair_key(ps[y])
                &&& r@ == pairs_text(ps, ps.len() as int)
            },
    {
        let ps = self.to_vec();
        let mut out = String::new();
        let mut x: usize = 0;
        while x < ps.len()
            invariant
                x <= ps@.len(),
                out@ == pairs_text(ps@, x as int),
            decreases ps@.len() - x,
        {
            proof {
                reveal_strlit(",");
                reveal_strlit("(");
                reveal_strlit(")");
            }
            if x > 0 {
                out.append(",");
            }
            out.append("(");
            push_decimal(&mut out, ps[x].i() as u64);
            out.append(",");
            push_decimal(&mut out, ps[x].j() as u64);
            out.append(")");
            assert(out@ =~= pairs_text(ps@, x + 1));
            x += 1;
        }
        proof {
            assert forall|x: int, y: int| 0 <= x < y < ps@.len() implies pair_key(ps@[x]) < pair_key(ps@[y]) by {
                assert(key_of(ps@[x]@.0, ps@[x]@.1) < key_of(ps@[y]@.0, ps@[y]@.1));
                ps@[x].lemma_in_range();
                ps@[y].lemma_in_range();
            }
        }
        out
    }

    /// Length of the structure the set belongs to.
    pub fn length(&self) -> (r: usize)
        ensures
            r == self@.0,
    {
        self.length
    }

    /// The pairs of a well-formed table.
    pub fn from(pt: &PairTable) -> (r: PairSet)
        requires
            table_wf(pt@),
        ensures
            r.wf(),
            r@ == (pt@.len(), table_keys(pt@)),
    {
        let n = pt.len();
        let mut pairs: IntSet<P1KEY> = IntSet::default();
        let mut i: usize = 0;
        while i < n
            invariant
                n == pt@.len(),
                table_wf(pt@),
                i <= n,
                pairs@ == Set::new(
                    |k: P1KEY|
                        exists|a: int|
                            0 <= a < i && #[trigger] opens_at(pt@, a) && k as int == key_of(
                                a,
                                partner(pt@, a),
                            ),
                ),
            decreases n - i,
        {
            let ghost before = pairs@;
            match pt.get(i) {
                Some(j) => {
                    if (i as NAIDX) < j {
                        let p = Pair::new(i as NAIDX, j);
                        let k = p.key();
                        int_set_insert(&mut pairs, k);
                    }
                },
                None => {},
            }
            let ghost target = Set::new(
                |k: P1KEY|
                    exists|a: int|
                        0 <= a < i + 1 && #[trigger] opens_at(pt@, a) && k as int == key_of(
                            a,
                            partner(pt@, a),
                        ),
            );
            assert forall|k: P1KEY| target.contains(k) implies #[trigger] pairs@.contains(k) by {
                let a = choose|a: int|
                    0 <= a < i + 1 && #[trigger] opens_at(pt@, a) && k as int == key_of(
                        a,
                        partner(pt@, a),
                    );
                if a < i {
                    assert(before.contains(k));
                }
            }
            assert forall|k: P1KEY| #[trigger] pairs@.contains(k) implies target.contains(k) by {
                if before.contains(k) {
                    let a = choose|a: int|
                        0 <= a < i && #[trigger] opens_at(pt@, a) && k as int == key_of(
                            a,
                            partner(pt@, a),
                        );
                    assert(0 <= a < i + 1 && opens_at(pt@, a));
                } else {
                    assert(opens_at(pt@, i as int));
                }
            }
            assert(pairs@ =~= Set::new(
                |k: P1KEY|
                    exists|a: int|
                        0 <= a < i + 1 && #[trigger] opens_at(pt@, a) && k as int == key_of(
                            a,
                            partner(pt@, a),
                        ),
            ));
            i += 1;
        }
        let r = PairSet { length: n, pairs };
        proof {
            assert(r@.1 =~= table_keys(pt@));
            assert forall|k: P1KEY| #[trigger] r@.1.contains(k) implies valid_key(k as int) && key_j(
                k as int,
            ) < r@.0 by {
                let a = choose|a: int|
                    0 <= a < n && #[trigger] opens_at(pt@, a) && k as int == key_of(a, partner(pt@, a));
                let b = partner(pt@, a);
                assert(key_i(k as int) == a && key_j(k as int) == b) by (nonlinear_arith)
                    requires
                        k as int == a * 65536 + b,
                        0 <= a < 65536,
                        0 <= b < 65536,
                ;
            }
        }
        r
    }
}

} // verus!
