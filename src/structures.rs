//! Structures as ascending sequences of pair keys, and their scores.
use vstd::prelude::*;

use crate::nussinov::{best_split, lemma_best_split_ge, lemma_opt_mono, lemma_opt_nonneg, opt, pair_term};
use crate::pair::{key_i, key_j, key_of, valid_key, NAIDX, P1KEY};
use crate::pair_set::table_keys;
use crate::pair_table::{opens_at, partner, table_wf, PairTable};

verus! {

/// Two pairs neither share a position nor cross.
pub open spec fn compatible(k1: int, k2: int) -> bool {
    let (a, b) = (key_i(k1), key_j(k1));
    let (c, d) = (key_i(k2), key_j(k2));
    b < c || d < a || (a < c && d < b) || (c < a && b < d)
}

/// The keys ascend, each is a pair within `i..=j`, and the pairs are nested.
pub open spec fn structure_within(s: Seq<P1KEY>, i: int, j: int) -> bool {
    &&& forall|x: int, y: int| 0 <= x < y < s.len() ==> #[trigger] s[x] < #[trigger] s[y]
    &&& forall|x: int|
        0 <= x < s.len() ==> valid_key(#[trigger] s[x] as int) && i <= key_i(s[x] as int)
            && key_j(s[x] as int) <= j
    &&& forall|x: int, y: int|
        0 <= x < s.len() && 0 <= y < s.len() && x != y ==> compatible(
            #[trigger] s[x] as int,
            #[trigger] s[y] as int,
        )
}

/// The total score of the pairs of `s`.
pub open spec fn score(p: Seq<Seq<usize>>, s: Seq<P1KEY>) -> int
    decreases s.len(),
{
    if s.len() == 0 {
        0
    } else {
        p[key_i(s[0] as int)][key_j(s[0] as int)] + score(p, s.drop_first())
    }
}

/// Every pair of `s` has a positive score.
pub open spec fn pairs_allowed(p: Seq<Seq<usize>>, s: Seq<P1KEY>) -> bool {
    forall|x: int| 0 <= x < s.len() ==> p[key_i(#[trigger] s[x] as int)][key_j(s[x] as int)] > 0
}

/// `s` is a co-optimal structure of `i..=j`: nested pairs within the interval,
/// each allowed, scoring the best score.
pub open spec fn co_optimal(p: Seq<Seq<usize>>, s: Seq<P1KEY>, i: int, j: int) -> bool {
    &&& structure_within(s, i, j)
    &&& pairs_allowed(p, s)
    &&& score(p, s) == opt(p, i, j)
}

/// The score of a concatenation is the sum of the scores.
pub proof fn lemma_score_concat(p: Seq<Seq<usize>>, a: Seq<P1KEY>, b: Seq<P1KEY>)
    ensures
        score(p, a + b) == score(p, a) + score(p, b),
    decreases a.len(),
{
    if a.len() > 0 {
        assert((a + b).drop_first() =~= a.drop_first() + b);
        lemma_score_concat(p, a.drop_first(), b);
    } else {
        assert(a + b =~= b);
    }
}

proof fn lemma_key_parts(k: int)
    requires
        0 <= k < 0x1_0000_0000,
    ensures
        k == key_i(k) * 65536 + key_j(k),
        0 <= key_j(k) < 65536,
        0 <= key_i(k) < 65536,
{
}

/// Keys order by their 5' ends first.
pub proof fn lemma_key_order(k1: int, k2: int)
    requires
        0 <= k1 < 0x1_0000_0000,
        0 <= k2 < 0x1_0000_0000,
        key_i(k1) < key_i(k2),
    ensures
        k1 < k2,
{
    lemma_key_parts(k1);
    lemma_key_parts(k2);
    assert(key_i(k1) * 65536 + 65536 <= key_i(k2) * 65536) by (nonlinear_arith)
        requires
            key_i(k1) < key_i(k2),
    ;
}

/// The key of `(i, j)` decodes to `i` and `j`.
pub proof fn lemma_key_of_parts(i: int, j: int)
    requires
        0 <= i < j < 65536,
    ensures
        0 <= key_of(i, j) < 0x1_0000_0000,
        key_i(key_of(i, j)) == i,
        key_j(key_of(i, j)) == j,
        valid_key(key_of(i, j)),
{
    let k = key_of(i, j);
    assert(k / 65536 == i && k % 65536 == j) by (nonlinear_arith)
        requires
            k == i * 65536 + j,
            0 <= i < 65536,
            0 <= j < 65536,
    ;
}

/// The empty structure is co-optimal on an interval of at most one position.
pub proof fn lemma_empty_co_optimal(p: Seq<Seq<usize>>, i: int, j: int)
    requires
        i >= j,
    ensures
        co_optimal(p, Seq::empty(), i, j),
{
}

/// A co-optimal structure of `i..=j` is one of `i-1..=j` when `i-1` pairs with nothing.
pub proof fn lemma_extend_left(p: Seq<Seq<usize>>, s: Seq<P1KEY>, i: int, j: int)
    requires
        co_optimal(p, s, i + 1, j),
        opt(p, i, j) == opt(p, i + 1, j),
    ensures
        co_optimal(p, s, i, j),
{
}

/// A co-optimal structure of `i..=j-1` is one of `i..=j` when `j` pairs with nothing.
pub proof fn lemma_extend_right(p: Seq<Seq<usize>>, s: Seq<P1KEY>, i: int, j: int)
    requires
        co_optimal(p, s, i, j - 1),
        opt(p, i, j) == opt(p, i, j - 1),
    ensures
        co_optimal(p, s, i, j),
{
}

/// Closing a co-optimal structure of `i+1..=j-1` with the pair `(i, j)`.
pub proof fn lemma_enclose(p: Seq<Seq<usize>>, s: Seq<P1KEY>, i: int, j: int)
    requires
        0 <= i < j < 65536,
        co_optimal(p, s, i + 1, j - 1),
        p[i][j] > 0,
        opt(p, i, j) == pair_term(p, i, j),
    ensures
        co_optimal(p, seq![key_of(i, j) as P1KEY] + s, i, j),
{
    let k = key_of(i, j);
    lemma_key_of_parts(i, j);
    let s2 = seq![k as P1KEY] + s;
    assert(s2[0] as int == k);
    assert forall|x: int| 0 < x < s2.len() implies #[trigger] s2[x] == s[x - 1] by {}
    assert forall|x: int, y: int| 0 <= x < y < s2.len() implies #[trigger] s2[x] < #[trigger] s2[y] by {
        if x == 0 {
            lemma_key_order(k, s[y - 1] as int);
        } else {
            assert(s[x - 1] < s[y - 1]);
        }
    }
    assert forall|x: int, y: int|
        0 <= x < s2.len() && 0 <= y < s2.len() && x != y implies compatible(
        #[trigger] s2[x] as int,
        #[trigger] s2[y] as int,
    ) by {
        if x > 0 && y > 0 {
            assert(compatible(s[x - 1] as int, s[y - 1] as int));
        }
    }
    assert(s2.drop_first() =~= s);
    if i + 1 >= j {
        assert(s.len() == 0 || key_i(s[0] as int) < key_j(s[0] as int));
        if s.len() > 0 {
            assert(valid_key(s[0] as int));
        }
        lemma_opt_nonneg(p, i + 1, j - 1);
    }
}

/// Joining co-optimal structures of `i..=k` and `k+1..=j` at a best split.
pub proof fn lemma_join(p: Seq<Seq<usize>>, a: Seq<P1KEY>, b: Seq<P1KEY>, i: int, k: int, j: int)
    requires
        i < k < j,
        co_optimal(p, a, i, k),
        co_optimal(p, b, k + 1, j),
        opt(p, i, j) == opt(p, i, k) + opt(p, k + 1, j),
    ensures
        co_optimal(p, a + b, i, j),
{
    let s = a + b;
    lemma_score_concat(p, a, b);
    assert forall|x: int| 0 <= x < s.len() implies #[trigger] s[x] == if x < a.len() {
        a[x]
    } else {
        b[x - a.len()]
    } by {}
    assert forall|x: int, y: int| 0 <= x < y < s.len() implies #[trigger] s[x] < #[trigger] s[y] by {
        if x < a.len() && y >= a.len() {
            lemma_key_order(a[x] as int, b[y - a.len()] as int);
        } else if x < a.len() {
            assert(a[x] < a[y]);
        } else {
            assert(b[x - a.len()] < b[y - a.len()]);
        }
    }
    assert forall|x: int, y: int|
        0 <= x < s.len() && 0 <= y < s.len() && x != y implies compatible(
        #[trigger] s[x] as int,
        #[trigger] s[y] as int,
    ) by {
        if x < a.len() && y < a.len() {
            assert(compatible(a[x] as int, a[y] as int));
        } else if x >= a.len() && y >= a.len() {
            assert(compatible(b[x - a.len()] as int, b[y - a.len()] as int));
        }
    }
}

} // verus!

verus! {

/// The pair of structure `s` that position `m` belongs to, among the first `x`.
spec fn held_by(t: Seq<Option<NAIDX>>, s: Seq<P1KEY>, x: int, m: int) -> bool {
    exists|y: int|
        0 <= y < x && ((m == key_i(#[trigger] s[y] as int) && t[m] == Some(
            key_j(s[y] as int) as NAIDX,
        )) || (m == key_j(s[y] as int) && t[m] == Some(key_i(s[y] as int) as NAIDX)))
}

/// The pair table of a structure of `0..length`.
pub fn table_of_structure(length: usize, s: &Vec<P1KEY>) -> (r: PairTable)
    requires
        length <= 65535,
        structure_within(s@, 0, length - 1),
    ensures
        r@.len() == length,
        table_wf(r@),
        table_keys(r@) == s@.to_set(),
{
    let mut t: Vec<Option<NAIDX>> = Vec::new();
    let mut m: usize = 0;
    while m < length
        invariant
            m <= length,
            t@.len() == m,
            forall|q: int| 0 <= q < m ==> #[trigger] t@[q] is None,
        decreases length - m,
    {
        t.push(None);
        m += 1;
    }
    let mut x: usize = 0;
    while x < s.len()
        invariant
            length <= 65535,
            structure_within(s@, 0, length - 1),
            t@.len() == length,
            x <= s@.len(),
            forall|q: int| 0 <= q < length && #[trigger] t@[q] is Some ==> held_by(t@, s@, x as int, q),
            forall|y: int|
                0 <= y < x ==> t@[key_i(#[trigger] s@[y] as int)] == Some(key_j(s@[y] as int) as NAIDX)
                    && t@[key_j(s@[y] as int)] == Some(key_i(s@[y] as int) as NAIDX),
        decreases s@.len() - x,
    {
        let k = s[x];
        let a = (k >> 16u32) as usize;
        let b = (k & 0xFFFFu32) as usize;
        proof {
            assert(k >> 16u32 == k / 65536) by (bit_vector);
            assert(k & 0xFFFFu32 == k % 65536) by (bit_vector);
            assert(valid_key(s@[x as int] as int));
        }
        let ghost t0 = t@;
        t.set(a, Some(b as NAIDX));
        t.set(b, Some(a as NAIDX));
        proof {
            assert forall|y: int| 0 <= y < x implies #[trigger] key_i(s@[y] as int) != a && key_i(
                s@[y] as int,
            ) != b && key_j(s@[y] as int) != a && key_j(s@[y] as int) != b by {
                assert(compatible(s@[y] as int, s@[x as int] as int));
            }
            assert forall|q: int| 0 <= q < length && #[trigger] t@[q] is Some implies held_by(
                t@,
                s@,
                x + 1,
                q,
            ) by {
                if q == a || q == b {
                    assert(s@[x as int] == k);
                } else {
                    assert(t0[q] is Some);
                    let y = choose|y: int|
                        0 <= y < x && ((q == key_i(#[trigger] s@[y] as int) && t0[q] == Some(
                            key_j(s@[y] as int) as NAIDX,
                        )) || (q == key_j(s@[y] as int) && t0[q] == Some(
                            key_i(s@[y] as int) as NAIDX,
                        )));
                    assert(t@[q] == t0[q]);
                }
            }
        }
        x += 1;
    }
    let r = PairTable::from_vec(t);
    proof {
        let tt = r@;
        assert forall|q: int| 0 <= q < tt.len() && #[trigger] tt[q] is Some implies {
            &&& 0 <= partner(tt, q) < tt.len()
            &&& partner(tt, q) != q
            &&& tt[partner(tt, q)] == Some(q as NAIDX)
        } by {
            assert(held_by(tt, s@, s@.len() as int, q));
            let y = choose|y: int|
                0 <= y < s@.len() && ((q == key_i(#[trigger] s@[y] as int) && tt[q] == Some(
                    key_j(s@[y] as int) as NAIDX,
                )) || (q == key_j(s@[y] as int) && tt[q] == Some(key_i(s@[y] as int) as NAIDX)));
            assert(valid_key(s@[y] as int));
        }
        // an opening position is the 5' end of its pair
        assert forall|q: int| 0 <= q < tt.len() && #[trigger] opens_at(tt, q) implies exists|y: int|
            0 <= y < s@.len() && q == key_i(#[trigger] s@[y] as int) && partner(tt, q) == key_j(
                s@[y] as int,
            ) by {
            assert(held_by(tt, s@, s@.len() as int, q));
            let y = choose|y: int|
                0 <= y < s@.len() && ((q == key_i(#[trigger] s@[y] as int) && tt[q] == Some(
                    key_j(s@[y] as int) as NAIDX,
                )) || (q == key_j(s@[y] as int) && tt[q] == Some(key_i(s@[y] as int) as NAIDX)));
            assert(valid_key(s@[y] as int));
        }
        assert forall|a: int, c: int|
            0 <= a < c < tt.len() && #[trigger] opens_at(tt, a) && #[trigger] opens_at(tt, c) && c
                < partner(tt, a) implies partner(tt, c) < partner(tt, a) by {
            let y1 = choose|y: int|
                0 <= y < s@.len() && a == key_i(#[trigger] s@[y] as int) && partner(tt, a) == key_j(
                    s@[y] as int,
                );
            let y2 = choose|y: int|
                0 <= y < s@.len() && c == key_i(#[trigger] s@[y] as int) && partner(tt, c) == key_j(
                    s@[y] as int,
                );
            assert(compatible(s@[y1] as int, s@[y2] as int));
        }
        assert forall|k: P1KEY| #[trigger] table_keys(tt).contains(k) <==> s@.to_set().contains(k) by {
            if table_keys(tt).contains(k) {
                let q = choose|q: int|
                    0 <= q < tt.len() && #[trigger] opens_at(tt, q) && k as int == key_of(
                        q,
                        partner(tt, q),
                    );
                let y = choose|y: int|
                    0 <= y < s@.len() && q == key_i(#[trigger] s@[y] as int) && partner(tt, q)
                        == key_j(s@[y] as int);
                lemma_key_parts(s@[y] as int);
                assert(s@.contains(k));
            }
            if s@.to_set().contains(k) {
                assert(s@.contains(k));
                let y = choose|y: int| 0 <= y < s@.len() && s@[y] == k;
                let q = key_i(k as int);
                assert(valid_key(k as int));
                lemma_key_parts(k as int);
                assert(opens_at(tt, q));
            }
        }
        assert(table_keys(tt) =~= s@.to_set());
    }
    r
}

} // verus!

verus! {

/// Keys ascend with their 5' ends.
proof fn lemma_key_i_mono(k1: int, k2: int)
    requires
        0 <= k1 <= k2 < 0x1_0000_0000,
    ensures
        key_i(k1) <= key_i(k2),
{
    if key_i(k1) > key_i(k2) {
        lemma_key_order(k2, k1);
    }
}

/// The keys of `s` between `lo` and `hi` (exclusive) form a structure within `a..=b`
/// when each of their pairs lies there.
proof fn lemma_sub_structure(s: Seq<P1KEY>, i: int, j: int, lo: int, hi: int, a: int, b: int)
    requires
        structure_within(s, i, j),
        0 <= lo <= hi <= s.len(),
        forall|x: int| lo <= x < hi ==> a <= key_i(#[trigger] s[x] as int) && key_j(s[x] as int) <= b,
    ensures
        structure_within(s.subrange(lo, hi), a, b),
{
    let t = s.subrange(lo, hi);
    assert forall|x: int| 0 <= x < t.len() implies #[trigger] t[x] == s[x + lo] by {}
    assert forall|x: int, y: int| 0 <= x < y < t.len() implies #[trigger] t[x] < #[trigger] t[y] by {
        assert(s[x + lo] < s[y + lo]);
    }
    assert forall|x: int, y: int|
        0 <= x < t.len() && 0 <= y < t.len() && x != y implies compatible(
        #[trigger] t[x] as int,
        #[trigger] t[y] as int,
    ) by {
        assert(compatible(s[x + lo] as int, s[y + lo] as int));
    }
}

/// No nested structure within `i..=j` scores more than the best score.
pub proof fn lemma_opt_is_max(p: Seq<Seq<usize>>, s: Seq<P1KEY>, i: int, j: int)
    requires
        structure_within(s, i, j),
        0 <= i,
    ensures
        score(p, s) <= opt(p, i, j),
    decreases if j > i {
        j - i
    } else {
        0
    }, s.len(),
{
    if s.len() == 0 {
        lemma_opt_nonneg(p, i, j);
        return;
    }
    let k0 = s[0] as int;
    assert(valid_key(k0));
    lemma_key_parts(k0);
    let a = key_i(k0);
    let k = key_j(k0);
    assert(i <= a < k <= j);
    assert forall|x: int| 0 <= x < s.len() implies a <= key_i(#[trigger] s[x] as int) by {
        if x > 0 {
            assert(s[0] < s[x]);
            lemma_key_i_mono(k0, s[x] as int);
        }
    }
    if a > i {
        lemma_sub_structure(s, i, j, 0, s.len() as int, i + 1, j);
        assert(s.subrange(0, s.len() as int) =~= s);
        lemma_opt_is_max(p, s, i + 1, j);
        lemma_opt_nonneg(p, i + 1, j);
        return;
    }
    let rest = s.drop_first();
    assert(rest =~= s.subrange(1, s.len() as int));
    assert(score(p, s) == p[i][k] + score(p, rest));
    // every later pair lies inside (i, k) or after k
    assert forall|x: int| 1 <= x < s.len() implies key_i(#[trigger] s[x] as int) > i && (key_j(
        s[x] as int,
    ) < k || key_i(s[x] as int) > k) by {
        assert(compatible(s[0] as int, s[x] as int));
        assert(valid_key(s[x] as int));
    }
    if k == j {
        lemma_sub_structure(s, i, j, 1, s.len() as int, i + 1, j - 1);
        if rest.len() > 0 {
            assert(valid_key(s[1] as int));
        }
        lemma_opt_is_max(p, rest, i + 1, j - 1);
        lemma_opt_nonneg(p, i + 1, j - 1);
        lemma_opt_mono(p, i, j, i + 1, j - 1);
        lemma_opt_nonneg(p, i + 1, j);
        if i + 1 >= j {
            assert(opt(p, i + 1, j - 1) == 0);
        }
        if p[i][j] > 0 {
            assert(pair_term(p, i, j) == opt(p, i + 1, j - 1) + p[i][j]);
            assert(pair_term(p, i, j) <= opt(p, i, j));
        }
        assert(score(p, s) <= opt(p, i, j));
    } else {
        let t = lemma_split_point(s, k);
        assert(t >= 1);
        lemma_sub_structure(s, i, j, 0, t, i, k);
        lemma_sub_structure(s, i, j, t, s.len() as int, k + 1, j);
        let left = s.subrange(0, t);
        let right = s.subrange(t, s.len() as int);
        assert(s =~= left + right);
        lemma_score_concat(p, left, right);
        lemma_opt_is_max(p, left, i, k);
        lemma_opt_is_max(p, right, k + 1, j);
        lemma_best_split_ge(p, i, j, j - 1, k);
        lemma_best_split_to_opt(p, i, j);
        assert(score(p, s) <= opt(p, i, j));
    }
}

/// The best split never beats the best score.
proof fn lemma_best_split_to_opt(p: Seq<Seq<usize>>, i: int, j: int)
    requires
        i < j,
    ensures
        best_split(p, i, j, j - 1) <= opt(p, i, j),
{
}

/// In a structure whose first pair closes at `k`, the pairs opening up to `k`
/// come first.
proof fn lemma_split_point(s: Seq<P1KEY>, k: int) -> (t: int)
    requires
        s.len() > 0,
        forall|x: int, y: int| 0 <= x < y < s.len() ==> #[trigger] s[x] < #[trigger] s[y],
        forall|x: int| 0 <= x < s.len() ==> valid_key(#[trigger] s[x] as int),
        key_i(s[0] as int) <= k,
    ensures
        1 <= t <= s.len(),
        forall|x: int| 0 <= x < t ==> key_i(#[trigger] s[x] as int) <= k,
        forall|x: int| t <= x < s.len() ==> key_i(#[trigger] s[x] as int) > k,
    decreases s.len(),
{
    if s.len() == 1 {
        1
    } else {
        let init = s.drop_last();
        let t0 = lemma_split_point(init, k);
        assert forall|x: int| 0 <= x < t0 implies key_i(#[trigger] s[x] as int) <= k by {
            assert(init[x] == s[x]);
        }
        if t0 == init.len() && key_i(s.last() as int) <= k {
            s.len() as int
        } else {
            assert forall|x: int| t0 <= x < s.len() implies key_i(#[trigger] s[x] as int) > k by {
                if x < init.len() {
                    assert(init[x] == s[x]);
                } else if t0 < init.len() {
                    assert(init[t0] == s[t0]);
                    assert(s[t0] < s[x]);
                    lemma_key_i_mono(s[t0] as int, s[x] as int);
                }
            }
            t0
        }
    }
}

} // verus!

verus! {

/// A co-optimal structure that leaves `i` unpaired is co-optimal on `i+1..=j`,
/// and leaving `i` unpaired is then optimal.
pub proof fn lemma_split_unpaired(p: Seq<Seq<usize>>, s: Seq<P1KEY>, i: int, j: int)
    requires
        co_optimal(p, s, i, j),
        0 <= i < j,
        s.len() == 0 || key_i(s[0] as int) > i,
    ensures
        co_optimal(p, s, i + 1, j),
        opt(p, i, j) == opt(p, i + 1, j),
{
    if s.len() > 0 {
        assert(valid_key(s[0] as int));
        assert forall|x: int| 0 <= x < s.len() implies i + 1 <= key_i(#[trigger] s[x] as int)
            && key_j(s[x] as int) <= j by {
            if x > 0 {
                assert(s[0] < s[x]);
                lemma_key_i_mono(s[0] as int, s[x] as int);
            }
        }
    }
    lemma_sub_structure(s, i, j, 0, s.len() as int, i + 1, j);
    assert(s.subrange(0, s.len() as int) =~= s);
    lemma_opt_is_max(p, s, i + 1, j);
    lemma_opt_nonneg(p, i + 1, j);
}

/// A co-optimal structure whose first pair is `(i, j)` is that pair around a
/// co-optimal structure of `i+1..=j-1`.
pub proof fn lemma_split_enclosed(p: Seq<Seq<usize>>, s: Seq<P1KEY>, i: int, j: int)
    requires
        co_optimal(p, s, i, j),
        0 <= i,
        s.len() > 0,
        key_i(s[0] as int) == i,
        key_j(s[0] as int) == j,
    ensures
        s == seq![key_of(i, j) as P1KEY] + s.drop_first(),
        co_optimal(p, s.drop_first(), i + 1, j - 1),
        p[i][j] > 0,
        opt(p, i, j) == pair_term(p, i, j),
{
    let rest = s.drop_first();
    assert(valid_key(s[0] as int));
    lemma_key_parts(s[0] as int);
    assert(s =~= seq![key_of(i, j) as P1KEY] + rest);
    assert(rest =~= s.subrange(1, s.len() as int));
    assert forall|x: int| 1 <= x < s.len() implies i + 1 <= key_i(#[trigger] s[x] as int) && key_j(
        s[x] as int,
    ) <= j - 1 by {
        assert(compatible(s[0] as int, s[x] as int));
        assert(valid_key(s[x] as int));
        assert(s[0] < s[x]);
        lemma_key_i_mono(s[0] as int, s[x] as int);
    }
    lemma_sub_structure(s, i, j, 1, s.len() as int, i + 1, j - 1);
    if rest.len() > 0 {
        assert(valid_key(s[1] as int));
    }
    assert(p[key_i(s[0] as int)][key_j(s[0] as int)] > 0);
    lemma_opt_is_max(p, rest, i + 1, j - 1);
    lemma_opt_nonneg(p, i + 1, j - 1);
    if i + 1 >= j {
        assert(opt(p, i + 1, j - 1) == 0);
    }
    assert(pair_term(p, i, j) == opt(p, i + 1, j - 1) + p[i][j]);
    assert(pair_term(p, i, j) <= opt(p, i, j));
}

/// A co-optimal structure whose first pair `(i, k)` closes before `j` is a
/// co-optimal structure of `i..=k` followed by one of `k+1..=j`.
pub proof fn lemma_split_joined(p: Seq<Seq<usize>>, s: Seq<P1KEY>, i: int, j: int) -> (t: int)
    requires
        co_optimal(p, s, i, j),
        0 <= i,
        s.len() > 0,
        key_i(s[0] as int) == i,
        key_j(s[0] as int) < j,
    ensures
        1 <= t <= s.len(),
        i < key_j(s[0] as int) < j,
        s == s.subrange(0, t) + s.subrange(t, s.len() as int),
        co_optimal(p, s.subrange(0, t), i, key_j(s[0] as int)),
        co_optimal(p, s.subrange(t, s.len() as int), key_j(s[0] as int) + 1, j),
        opt(p, i, j) == opt(p, i, key_j(s[0] as int)) + opt(p, key_j(s[0] as int) + 1, j),
{
    let k = key_j(s[0] as int);
    assert(valid_key(s[0] as int));
    assert forall|x: int| 1 <= x < s.len() implies key_i(#[trigger] s[x] as int) > i && (key_j(
        s[x] as int,
    ) < k || key_i(s[x] as int) > k) by {
        assert(compatible(s[0] as int, s[x] as int));
        assert(valid_key(s[x] as int));
        assert(s[0] < s[x]);
        lemma_key_i_mono(s[0] as int, s[x] as int);
    }
    let t = lemma_split_point(s, k);
    lemma_sub_structure(s, i, j, 0, t, i, k);
    lemma_sub_structure(s, i, j, t, s.len() as int, k + 1, j);
    let left = s.subrange(0, t);
    let right = s.subrange(t, s.len() as int);
    assert(s =~= left + right);
    lemma_score_concat(p, left, right);
    lemma_opt_is_max(p, left, i, k);
    lemma_opt_is_max(p, right, k + 1, j);
    lemma_best_split_ge(p, i, j, j - 1, k);
    lemma_best_split_to_opt(p, i, j);
    assert forall|x: int| 0 <= x < left.len() implies p[key_i(#[trigger] left[x] as int)][key_j(
        left[x] as int,
    )] > 0 by {
        assert(left[x] == s[x]);
    }
    assert forall|x: int| 0 <= x < right.len() implies p[key_i(#[trigger] right[x] as int)][key_j(
        right[x] as int,
    )] > 0 by {
        assert(right[x] == s[x + t]);
    }
    t
}

} // verus!

verus! {

/// Two ascending key sequences with the same keys are the same sequence.
pub proof fn lemma_ascending_set_eq(s1: Seq<P1KEY>, s2: Seq<P1KEY>)
    requires
        forall|x: int, y: int| 0 <= x < y < s1.len() ==> #[trigger] s1[x] < #[trigger] s1[y],
        forall|x: int, y: int| 0 <= x < y < s2.len() ==> #[trigger] s2[x] < #[trigger] s2[y],
        s1.to_set() == s2.to_set(),
    ensures
        s1 == s2,
    decreases s1.len(),
{
    if s1.len() == 0 {
        if s2.len() > 0 {
            assert(s2.to_set().contains(s2[0]));
        }
        assert(s2.len() == 0);
        assert(s1 =~= s2);
    } else {
        assert(s1.to_set().contains(s1[0]));
        assert(s2.len() > 0) by {
            if s2.len() == 0 {
                assert(s2.to_set().contains(s1[0]));
            }
        }
        assert(s2.to_set().contains(s1[0]));
        let k = choose|k: int| 0 <= k < s2.len() && s2[k] == s1[0];
        assert(s2.to_set().contains(s2[0]));
        assert(s1.to_set().contains(s2[0]));
        let m = choose|m: int| 0 <= m < s1.len() && s1[m] == s2[0];
        if k > 0 {
            assert(s2[0] < s2[k]);
        }
        if m > 0 {
            assert(s1[0] < s1[m]);
        }
        assert(s1[0] == s2[0]);
        let r1 = s1.drop_first();
        let r2 = s2.drop_first();
        assert forall|v: P1KEY| r1.to_set().contains(v) == r2.to_set().contains(v) by {
            if r1.to_set().contains(v) {
                let a = choose|a: int| 0 <= a < r1.len() && r1[a] == v;
                assert(s1[a + 1] == v);
                assert(s1[0] < s1[a + 1]);
                assert(s1.to_set().contains(v));
                let b = choose|b: int| 0 <= b < s2.len() && s2[b] == v;
                assert(b != 0);
                assert(r2[b - 1] == v);
                assert(r2.contains(v));
            }
            if r2.to_set().contains(v) {
                let a = choose|a: int| 0 <= a < r2.len() && r2[a] == v;
                assert(s2[a + 1] == v);
                assert(s2[0] < s2[a + 1]);
                assert(s2.to_set().contains(v));
                let b = choose|b: int| 0 <= b < s1.len() && s1[b] == v;
                assert(b != 0);
                assert(r1[b - 1] == v);
                assert(r1.contains(v));
            }
        }
        assert(r1.to_set() =~= r2.to_set());
        assert forall|x: int, y: int| 0 <= x < y < r1.len() implies #[trigger] r1[x] < #[trigger] r1[y] by {
            assert(s1[x + 1] < s1[y + 1]);
        }
        assert forall|x: int, y: int| 0 <= x < y < r2.len() implies #[trigger] r2[x] < #[trigger] r2[y] by {
            assert(s2[x + 1] < s2[y + 1]);
        }
        lemma_ascending_set_eq(r1, r2);
        assert(s1 =~= seq![s1[0]] + r1);
        assert(s2 =~= seq![s2[0]] + r2);
    }
}

} // verus!
