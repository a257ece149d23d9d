//! Base-pair maximisation (Nussinov) over a pair-score matrix, with the
//! enumeration of every co-optimal structure.
use vstd::prelude::*;

use ahash::AHashSet;
use nohash_hasher::IntMap;

use vstd::string::*;

use crate::domain::{domain_pair_score, lookup, pair_score, Domain, DomainRegistry, RegistryError};
use crate::int_hash::{int_map_get, int_map_insert};
use crate::matrix::{is_square, matrix_rows, ScoreMatrix};
use crate::pair::{key_i, key_j, key_of, valid_key, Pair, NAIDX, P1KEY};
use crate::structure_set::{
    structure_set_clone, structure_set_insert, structure_set_new, structure_set_to_vec,
    structures_of,
};
use crate::pair_set::{table_keys, PairSet};
use crate::pair_table::{table_wf, PairTable};
use crate::structures::{
    co_optimal, score, lemma_empty_co_optimal, lemma_enclose, lemma_extend_left, lemma_extend_right,
    lemma_join, lemma_split_enclosed, lemma_split_joined, lemma_split_unpaired, structure_within,
    table_of_structure,
};

verus! {

/// The best total score of nested pairs within positions `i..=j`.
pub open spec fn opt(p: Seq<Seq<usize>>, i: int, j: int) -> int
    decreases j - i, j - i + 1,
{
    if j <= i {
        0
    } else {
        let unpaired = if opt(p, i + 1, j) >= opt(p, i, j - 1) {
            opt(p, i + 1, j)
        } else {
            opt(p, i, j - 1)
        };
        let with_pair = pair_term(p, i, j);
        let with_pair = if with_pair >= unpaired {
            with_pair
        } else {
            unpaired
        };
        let split = best_split(p, i, j, j - 1);
        if split >= with_pair {
            split
        } else {
            with_pair
        }
    }
}

/// The score of pairing `i` with `j` around the best of what lies between, or 0
/// when the two do not pair.
pub open spec fn pair_term(p: Seq<Seq<usize>>, i: int, j: int) -> int
    decreases j - i, 0int,
{
    if i < j && p[i][j] > 0 {
        (if i + 1 < j {
            opt(p, i + 1, j - 1)
        } else {
            0
        }) + p[i][j]
    } else {
        0
    }
}

/// The best split of `i..=j` into `i..=k'` and `k'+1..=j` with `i < k' <= k`.
pub open spec fn best_split(p: Seq<Seq<usize>>, i: int, j: int, k: int) -> int
    decreases j - i, k - i,
{
    if k <= i || j <= i || k >= j {
        0
    } else {
        let here = opt(p, i, k) + opt(p, k + 1, j);
        let rest = best_split(p, i, j, k - 1);
        if here >= rest {
            here
        } else {
            rest
        }
    }
}

} // verus!

verus! {

/// Best scores are never negative.
pub proof fn lemma_opt_nonneg(p: Seq<Seq<usize>>, i: int, j: int)
    ensures
        opt(p, i, j) >= 0,
    decreases j - i,
{
    if j > i {
        lemma_opt_nonneg(p, i + 1, j);
    }
}

/// A split at any `k'` up to `k` scores at most `best_split(.., k)`.
pub proof fn lemma_best_split_ge(p: Seq<Seq<usize>>, i: int, j: int, k: int, k2: int)
    requires
        i < k2 <= k < j,
    ensures
        opt(p, i, k2) + opt(p, k2 + 1, j) <= best_split(p, i, j, k),
    decreases k - k2,
{
    if k2 < k {
        lemma_best_split_ge(p, i, j, k - 1, k2);
    }
}

/// `best_split` grows with its bound.
proof fn lemma_best_split_mono(p: Seq<Seq<usize>>, i: int, j: int, k: int, k2: int)
    requires
        k2 <= k <= j - 1,
    ensures
        best_split(p, i, j, k2) <= best_split(p, i, j, k),
    decreases k - k2,
{
    if k2 < k {
        lemma_best_split_mono(p, i, j, k - 1, k2);
        if k > i && j > i {
            lemma_opt_nonneg(p, i, k);
            lemma_opt_nonneg(p, k + 1, j);
        }
    }
}

/// Widening the interval never lowers the best score.
pub proof fn lemma_opt_mono(p: Seq<Seq<usize>>, a: int, b: int, i: int, j: int)
    requires
        a <= i,
        j <= b,
    ensures
        opt(p, i, j) <= opt(p, a, b),
    decreases (i - a) + (b - j),
{
    if i > a {
        lemma_opt_mono(p, a + 1, b, i, j);
        if b > a {
        } else {
            lemma_opt_nonneg(p, i, j);
            if j > i {
                lemma_opt_mono(p, a + 1, b, i, j);
            }
        }
    } else if j < b {
        lemma_opt_mono(p, a, b - 1, i, j);
        if b <= a {
            lemma_opt_nonneg(p, i, j);
        }
    }
}

} // verus!

verus! {

/// The table of best scores: `dp[a][b]` is `opt(p, a, b)`, and 0 below the diagonal.
pub open spec fn dp_table_of(p: Seq<Seq<usize>>, d: Seq<Seq<usize>>, n: int) -> bool {
    &&& is_square(d, n)
    &&& forall|a: int, b: int| 0 <= a < n && 0 <= b < n ==> #[trigger] d[a][b] == opt(p, a, b)
}

/// Scores small enough that every best score fits a `usize`.
pub open spec fn scores_fit(p: Seq<Seq<usize>>, n: int) -> bool {
    n > 0 ==> opt(p, 0, n - 1) <= usize::MAX
}

/// Fill the table of best scores, by increasing interval length.
fn nussinov(p: &ScoreMatrix) -> (dp: ScoreMatrix)
    requires
        is_square(matrix_rows(*p), matrix_rows(*p).len() as int),
        matrix_rows(*p).len() * matrix_rows(*p).len() <= isize::MAX,
        scores_fit(matrix_rows(*p), matrix_rows(*p).len() as int),
    ensures
        dp_table_of(matrix_rows(*p), matrix_rows(dp), matrix_rows(*p).len() as int),
{
    let ghost pr = matrix_rows(*p);
    let (n, _m) = p.dim();
    let mut dp = ScoreMatrix::zeros(n);
    let mut l: usize = 1;
    while l < n
        invariant
            pr == matrix_rows(*p),
            n == pr.len(),
            is_square(pr, n as int),
            scores_fit(pr, n as int),
            1 <= l,
            l <= n || n == 0,
            is_square(matrix_rows(dp), n as int),
            forall|a: int, b: int|
                0 <= a < n && 0 <= b < n ==> #[trigger] matrix_rows(dp)[a][b] == if b - a < l {
                    opt(pr, a, b)
                } else {
                    0
                },
        decreases n - l,
    {
        let mut i: usize = 0;
        while i < n - l
            invariant
                pr == matrix_rows(*p),
                n == pr.len(),
                is_square(pr, n as int),
                scores_fit(pr, n as int),
                1 <= l < n,
                i <= n - l,
                is_square(matrix_rows(dp), n as int),
                forall|a: int, b: int|
                    0 <= a < n && 0 <= b < n ==> #[trigger] matrix_rows(dp)[a][b] == if b - a < l || (
                    b - a == l && a < i) {
                        opt(pr, a, b)
                    } else {
                        0
                    },
            decreases n - l - i,
        {
            let j = i + l;
            let ghost d = matrix_rows(dp);
            proof {
                lemma_opt_mono(pr, 0, n - 1, i as int, j as int);
                lemma_opt_nonneg(pr, i as int + 1, j as int - 1);
                assert(d[i + 1][j as int] == opt(pr, i + 1, j as int));
                assert(d[i as int][j - 1] == opt(pr, i as int, j - 1));
                assert(d[i + 1][j - 1] == opt(pr, i + 1, j - 1));
            }
            let down = dp.get(i + 1, j);
            let left = dp.get(i, j - 1);
            let mut max_val = if down >= left {
                down
            } else {
                left
            };
            let pij = p.get(i, j);
            if pij > 0 {
                let inner = dp.get(i + 1, j - 1);
                assert(inner + pij == pair_term(pr, i as int, j as int));
                let cand = inner + pij;
                if cand > max_val {
                    max_val = cand;
                }
            }
            let ghost base = max_val as int;
            proof {
                let unpaired = if opt(pr, i + 1, j as int) >= opt(pr, i as int, j - 1) {
                    opt(pr, i + 1, j as int)
                } else {
                    opt(pr, i as int, j - 1)
                };
                lemma_opt_nonneg(pr, i + 1, j as int);
                assert(base == if pair_term(pr, i as int, j as int) >= unpaired {
                    pair_term(pr, i as int, j as int)
                } else {
                    unpaired
                });
            }
            let mut k: usize = i + 1;
            while k < j
                invariant
                    pr == matrix_rows(*p),
                    n == pr.len(),
                    is_square(pr, n as int),
                    d == matrix_rows(dp),
                    is_square(d, n as int),
                    forall|a: int, b: int|
                        0 <= a < n && 0 <= b < n ==> #[trigger] d[a][b] == if b - a < l || (b - a
                            == l && a < i) {
                            opt(pr, a, b)
                        } else {
                            0
                        },
                    j == i + l,
                    j < n,
                    i + 1 <= k <= j,
                    opt(pr, i as int, j as int) <= usize::MAX,
                    max_val as int == if base >= best_split(pr, i as int, j as int, k - 1) {
                        base
                    } else {
                        best_split(pr, i as int, j as int, k - 1)
                    },
                    base <= opt(pr, i as int, j as int),
                    opt(pr, i as int, j as int) == if best_split(pr, i as int, j as int, j - 1)
                        >= base {
                        best_split(pr, i as int, j as int, j - 1)
                    } else {
                        base
                    },
                decreases j - k,
            {
                proof {
                    lemma_best_split_ge(pr, i as int, j as int, j - 1, k as int);
                    lemma_best_split_mono(pr, i as int, j as int, j - 1, j - 1);
                    assert(d[i as int][k as int] == opt(pr, i as int, k as int));
                    assert(d[k + 1][j as int] == opt(pr, k + 1, j as int));
                    lemma_opt_nonneg(pr, i as int, k as int);
                    lemma_opt_nonneg(pr, k + 1, j as int);
                }
                let a = dp.get(i, k);
                let b = dp.get(k + 1, j);
                let cand = a + b;
                if cand > max_val {
                    max_val = cand;
                }
                k += 1;
            }
            dp.set(i, j, max_val);
            proof {
                let d2 = matrix_rows(dp);
                assert forall|a: int, b: int| 0 <= a < n && 0 <= b < n implies #[trigger] d2[a][b]
                    == if b - a < l || (b - a == l && a < i + 1) {
                    opt(pr, a, b)
                } else {
                    0
                } by {
                    if a == i && b == j {
                    } else {
                        assert(d2[a][b] == d[a][b]);
                    }
                }
            }
            i += 1;
        }
        proof {
            let d2 = matrix_rows(dp);
            assert forall|a: int, b: int| 0 <= a < n && 0 <= b < n implies #[trigger] d2[a][b]
                == if b - a < l + 1 {
                opt(pr, a, b)
            } else {
                0
            } by {
                if b - a == l {
                    assert(a < n - l);
                }
            }
        }
        l += 1;
    }
    dp
}

} // verus!

verus! {

/// Every memoised set holds some, and only, co-optimal structures of its interval.
pub open spec fn memo_ok(p: Seq<Seq<usize>>, m: Map<P1KEY, AHashSet<Vec<P1KEY>>>) -> bool {
    forall|k: P1KEY|
        #[trigger] m.contains_key(k) ==> valid_key(k as int) && (exists|x: Seq<P1KEY>|
            structures_of(m[k]).contains(x)) && holds_all(p, structures_of(m[k]), key_i(k as int), key_j(k as int))
            && forall|s: Seq<P1KEY>|
            #[trigger] structures_of(m[k]).contains(s) ==> co_optimal(
                p,
                s,
                key_i(k as int),
                key_j(k as int),
            )
}

/// The set holds every co-optimal structure of `a..=b`.
pub open spec fn holds_all(p: Seq<Seq<usize>>, r: Set<Seq<P1KEY>>, a: int, b: int) -> bool {
    forall|s: Seq<P1KEY>| #[trigger] co_optimal(p, s, a, b) ==> r.contains(s)
}

/// The set holds `key` followed by every co-optimal structure of `a..=b`.
pub open spec fn holds_enclosed(p: Seq<Seq<usize>>, r: Set<Seq<P1KEY>>, key: P1KEY, a: int, b: int) -> bool {
    forall|s: Seq<P1KEY>| #[trigger] co_optimal(p, s, a, b) ==> r.contains(seq![key] + s)
}

/// The set holds every co-optimal structure of `i..=k` followed by every one of `k+1..=j`.
pub open spec fn holds_joined(p: Seq<Seq<usize>>, r: Set<Seq<P1KEY>>, i: int, k: int, j: int) -> bool {
    forall|l: Seq<P1KEY>, q: Seq<P1KEY>|
        #[trigger] co_optimal(p, l, i, k) && #[trigger] co_optimal(p, q, k + 1, j) ==> r.contains(l + q)
}

/// What the traceback of `i..=j` has collected once the cases before split
/// point `k` are done.
pub open spec fn found_so_far(
    p: Seq<Seq<usize>>,
    r: Set<Seq<P1KEY>>,
    i: int,
    j: int,
    key: P1KEY,
    left_unpaired: bool,
    enclosed: bool,
    k: int,
) -> bool {
    &&& left_unpaired ==> holds_all(p, r, i + 1, j)
    &&& enclosed ==> holds_enclosed(p, r, key, i + 1, j - 1)
    &&& forall|k2: int|
        i < k2 < k && #[trigger] opt(p, i, k2) + opt(p, k2 + 1, j) == opt(p, i, j) ==> holds_joined(
            p,
            r,
            i,
            k2,
            j,
        )
}

proof fn lemma_found_grows(
    p: Seq<Seq<usize>>,
    r1: Set<Seq<P1KEY>>,
    r2: Set<Seq<P1KEY>>,
    i: int,
    j: int,
    key: P1KEY,
    left_unpaired: bool,
    enclosed: bool,
    k: int,
)
    requires
        found_so_far(p, r1, i, j, key, left_unpaired, enclosed, k),
        r1.subset_of(r2),
    ensures
        found_so_far(p, r2, i, j, key, left_unpaired, enclosed, k),
{
    assert forall|k2: int|
        i < k2 < k && #[trigger] opt(p, i, k2) + opt(p, k2 + 1, j) == opt(p, i, j) implies holds_joined(
        p,
        r2,
        i,
        k2,
        j,
    ) by {
        assert(holds_joined(p, r1, i, k2, j));
    }
}

/// A member of a listed set appears in the listing.
proof fn lemma_listed_index(v: Seq<Vec<P1KEY>>, set: Set<Seq<P1KEY>>, s: Seq<P1KEY>) -> (y: int)
    requires
        v.map_values(|w: Vec<P1KEY>| w@).to_set() == set,
        set.contains(s),
    ensures
        0 <= y < v.len(),
        v[y]@ == s,
{
    let m = v.map_values(|w: Vec<P1KEY>| w@);
    assert(m.contains(s));
    let y = choose|y: int| 0 <= y < m.len() && m[y] == s;
    y
}

/// Once every case has been collected, every co-optimal structure is there.
proof fn lemma_complete(
    p: Seq<Seq<usize>>,
    r: Set<Seq<P1KEY>>,
    i: int,
    j: int,
    key: P1KEY,
    left_unpaired: bool,
    enclosed: bool,
    n: int,
)
    requires
        found_so_far(p, r, i, j, key, left_unpaired, enclosed, j),
        0 <= i < j < n <= 65536,
        key as int == key_of(i, j),
        left_unpaired == (opt(p, i, j) == opt(p, i + 1, j)),
        enclosed == (p[i][j] > 0 && opt(p, i, j) == pair_term(p, i, j)),
    ensures
        holds_all(p, r, i, j),
{
    assert forall|s: Seq<P1KEY>| #[trigger] co_optimal(p, s, i, j) implies r.contains(s) by {
        if s.len() == 0 || key_i(s[0] as int) > i {
            lemma_split_unpaired(p, s, i, j);
        } else {
            assert(valid_key(s[0] as int));
            if key_j(s[0] as int) == j {
                lemma_split_enclosed(p, s, i, j);
                crate::structures::lemma_key_of_parts(i, j);
            } else {
                let t = lemma_split_joined(p, s, i, j);
                let k = key_j(s[0] as int);
                assert(holds_joined(p, r, i, k, j));
                assert(co_optimal(p, s.subrange(0, t), i, k));
                assert(co_optimal(p, s.subrange(t, s.len() as int), k + 1, j));
            }
        }
    }
}

/// A set holding at least one structure.
pub open spec fn has_structure(s: AHashSet<Vec<P1KEY>>) -> bool {
    exists|x: Seq<P1KEY>| structures_of(s).contains(x)
}

/// A listing of a set holding a structure is not empty.
proof fn lemma_listed_nonempty(v: Seq<Vec<P1KEY>>, set: Set<Seq<P1KEY>>)
    requires
        v.map_values(|w: Vec<P1KEY>| w@).to_set() == set,
        exists|x: Seq<P1KEY>| set.contains(x),
    ensures
        v.len() > 0,
{
    let x = choose|x: Seq<P1KEY>| set.contains(x);
    let m = v.map_values(|w: Vec<P1KEY>| w@);
    assert(m.contains(x));
}

/// The concatenation of two key sequences.
fn concat_keys(a: &Vec<P1KEY>, b: &Vec<P1KEY>) -> (r: Vec<P1KEY>)
    ensures
        r@ == a@ + b@,
{
    let mut r: Vec<P1KEY> = Vec::new();
    let mut x: usize = 0;
    while x < a.len()
        invariant
            x <= a@.len(),
            r@ == a@.subrange(0, x as int),
        decreases a@.len() - x,
    {
        r.push(a[x]);
        assert(r@ =~= a@.subrange(0, x + 1));
        x += 1;
    }
    let mut y: usize = 0;
    while y < b.len()
        invariant
            y <= b@.len(),
            r@ == a@ + b@.subrange(0, y as int),
        decreases b@.len() - y,
    {
        r.push(b[y]);
        assert(r@ =~= a@ + b@.subrange(0, y + 1));
        y += 1;
    }
    assert(r@ =~= a@ + b@);
    r
}

/// A structure listed from a set is one of the set's structures.
proof fn lemma_listed(v: Seq<Vec<P1KEY>>, set: Set<Seq<P1KEY>>, x: int)
    requires
        v.map_values(|w: Vec<P1KEY>| w@).to_set() == set,
        0 <= x < v.len(),
    ensures
        set.contains(v[x]@),
{
    let m = v.map_values(|w: Vec<P1KEY>| w@);
    assert(m[x] == v[x]@);
    assert(m.contains(v[x]@));
}

/// The pair-score matrix and the table of best scores agree.
pub open spec fn dp_consistent(p: &ScoreMatrix, dp: &ScoreMatrix, n: int) -> bool {
    &&& is_square(matrix_rows(*p), n)
    &&& dp_table_of(matrix_rows(*p), matrix_rows(*dp), n)
    &&& scores_fit(matrix_rows(*p), n)
    &&& n <= 65536
}

proof fn lemma_fits(p: Seq<Seq<usize>>, n: int, i: int, j: int)
    requires
        scores_fit(p, n),
        0 <= i < j < n,
    ensures
        opt(p, i, j) <= usize::MAX,
        pair_term(p, i, j) <= opt(p, i, j),
        forall|k: int| i < k < j ==> #[trigger] opt(p, i, k) + opt(p, k + 1, j) <= opt(p, i, j),
{
    lemma_opt_mono(p, 0, n - 1, i, j);
    lemma_opt_nonneg(p, i + 1, j);
    assert forall|k: int| i < k < j implies #[trigger] opt(p, i, k) + opt(p, k + 1, j) <= opt(
        p,
        i,
        j,
    ) by {
        lemma_best_split_ge(p, i, j, j - 1, k);
    }
}

/// Every co-optimal structure of `i..=j` reachable by the four cases, memoised by interval.
fn traceback_all(
    i: usize,
    j: usize,
    dp: &ScoreMatrix,
    p: &ScoreMatrix,
    memo: &mut IntMap<P1KEY, AHashSet<Vec<P1KEY>>>,
) -> (r: AHashSet<Vec<P1KEY>>)
    requires
        dp_consistent(p, dp, matrix_rows(*p).len() as int),
        i < matrix_rows(*p).len(),
        j < matrix_rows(*p).len(),
        memo_ok(matrix_rows(*p), old(memo)@),
    ensures
        memo_ok(matrix_rows(*p), final(memo)@),
        has_structure(r),
        holds_all(matrix_rows(*p), structures_of(r), i as int, j as int),
        forall|s: Seq<P1KEY>|
            #[trigger] structures_of(r).contains(s) ==> co_optimal(
                matrix_rows(*p),
                s,
                i as int,
                j as int,
            ),
    decreases if j > i {
        j - i
    } else {
        0
    },
{
    let ghost pr = matrix_rows(*p);
    let ghost n = pr.len() as int;
    if i >= j {
        let mut base = structure_set_new();
        let empty: Vec<P1KEY> = Vec::new();
        structure_set_insert(&mut base, empty);
        proof {
            assert(structures_of(base) =~= set![Seq::<P1KEY>::empty()]);
            assert(structures_of(base).contains(Seq::<P1KEY>::empty()));
            lemma_empty_co_optimal(pr, i as int, j as int);
            assert forall|s: Seq<P1KEY>| #[trigger] co_optimal(pr, s, i as int, j as int) implies structures_of(
                base,
            ).contains(s) by {
                if s.len() > 0 {
                    assert(valid_key(s[0] as int));
                }
                assert(s =~= Seq::<P1KEY>::empty());
            }
        }
        return base;
    }
    let key = Pair::new(i as NAIDX, j as NAIDX).key();
    match int_map_get(memo, key) {
        Some(cached) => {
            let c = structure_set_clone(cached);
            return c;
        },
        None => {},
    }
    proof {
        lemma_fits(pr, n, i as int, j as int);
    }
    let mut results = structure_set_new();
    let ghost mut found = false;
    let dp_ij = dp.get(i, j);
    let mut case_one = false;
    if dp_ij == dp.get(i + 1, j) {
        case_one = true;
    }
    if case_one || dp_ij == dp.get(i, j - 1) {
        let (si, sj) = if case_one {
            (i + 1, j)
        } else {
            (i, j - 1)
        };
        let subs = traceback_all(si, sj, dp, p, memo);
        let subs_v = structure_set_to_vec(&subs);
        let mut x: usize = 0;
        while x < subs_v.len()
            invariant
                x <= subs_v@.len(),
                subs_v@.map_values(|w: Vec<P1KEY>| w@).to_set() == structures_of(subs),
                forall|s: Seq<P1KEY>|
                    #[trigger] structures_of(subs).contains(s) ==> co_optimal(
                        pr,
                        s,
                        si as int,
                        sj as int,
                    ),
                forall|s: Seq<P1KEY>|
                    #[trigger] structures_of(results).contains(s) ==> co_optimal(
                        pr,
                        s,
                        i as int,
                        j as int,
                    ),
                opt(pr, i as int, j as int) == opt(pr, si as int, sj as int),
                (si == i + 1 && sj == j) || (si == i && sj + 1 == j),
                x > 0 ==> has_structure(results),
                forall|y: int| 0 <= y < x ==> structures_of(results).contains(#[trigger] subs_v@[y]@),
            decreases subs_v@.len() - x,
        {
            proof {
                lemma_listed(subs_v@, structures_of(subs), x as int);
                if si == i + 1 {
                    lemma_extend_left(pr, subs_v@[x as int]@, i as int, j as int);
                } else {
                    lemma_extend_right(pr, subs_v@[x as int]@, i as int, j as int);
                }
            }
            let sub = subs_v[x].clone();
            structure_set_insert(&mut results, sub);
            proof {
                assert(structures_of(results).contains(sub@));
            }
            x += 1;
        }
        proof {
            lemma_listed_nonempty(subs_v@, structures_of(subs));
            found = true;
            assert forall|s: Seq<P1KEY>| #[trigger] co_optimal(pr, s, si as int, sj as int) implies structures_of(
                results,
            ).contains(s) by {
                let y = lemma_listed_index(subs_v@, structures_of(subs), s);
            }
        }
    }
    proof {
        assert(found_so_far(pr, structures_of(results), i as int, j as int, key, case_one, false, i as int + 1));
    }
    let pij = p.get(i, j);
    let cond3 = pij > 0 && dp_ij == dp.get(i + 1, j - 1) + pij;
    if cond3 {
        let subs = traceback_all(i + 1, j - 1, dp, p, memo);
        let subs_v = structure_set_to_vec(&subs);
        let head: Vec<P1KEY> = vec![key];
        let mut x: usize = 0;
        while x < subs_v.len()
            invariant
                x <= subs_v@.len(),
                head@ == seq![key],
                key as int == key_of(i as int, j as int),
                i < j < n <= 65536,
                pr[i as int][j as int] > 0,
                opt(pr, i as int, j as int) == pair_term(pr, i as int, j as int),
                subs_v@.map_values(|w: Vec<P1KEY>| w@).to_set() == structures_of(subs),
                found ==> has_structure(results),
                x > 0 ==> has_structure(results),
                found_so_far(pr, structures_of(results), i as int, j as int, key, case_one, false, i as int + 1),
                forall|y: int| 0 <= y < x ==> structures_of(results).contains(seq![key] + #[trigger] subs_v@[y]@),
                forall|s: Seq<P1KEY>|
                    #[trigger] structures_of(subs).contains(s) ==> co_optimal(
                        pr,
                        s,
                        i + 1,
                        j - 1,
                    ),
                forall|s: Seq<P1KEY>|
                    #[trigger] structures_of(results).contains(s) ==> co_optimal(
                        pr,
                        s,
                        i as int,
                        j as int,
                    ),
            decreases subs_v@.len() - x,
        {
            proof {
                lemma_listed(subs_v@, structures_of(subs), x as int);
                lemma_enclose(pr, subs_v@[x as int]@, i as int, j as int);
            }
            let ghost before = structures_of(results);
            let combined = concat_keys(&head, &subs_v[x]);
            structure_set_insert(&mut results, combined);
            proof {
                assert(structures_of(results).contains(combined@));
                lemma_found_grows(pr, before, structures_of(results), i as int, j as int, key, case_one, false, i as int + 1);
            }
            x += 1;
        }
        proof {
            lemma_listed_nonempty(subs_v@, structures_of(subs));
            found = true;
            assert forall|s: Seq<P1KEY>| #[trigger] co_optimal(pr, s, i + 1, j - 1) implies structures_of(
                results,
            ).contains(seq![key] + s) by {
                let y = lemma_listed_index(subs_v@, structures_of(subs), s);
            }
        }
    }
    proof {
        assert(found_so_far(pr, structures_of(results), i as int, j as int, key, case_one, cond3, i as int + 1));
    }
    let ghost kk: int = if found {
        0
    } else {
        lemma_split_case(pr, i as int, j as int)
    };
    let mut k: usize = i + 1;
    while k < j
        invariant
            dp_consistent(p, dp, n),
            pr == matrix_rows(*p),
            n == pr.len(),
            i < j < n,
            i + 1 <= k <= j,
            dp_ij as int == opt(pr, i as int, j as int),
            forall|k2: int| i < k2 < j ==> #[trigger] opt(pr, i as int, k2) + opt(pr, k2 + 1, j as int)
                <= opt(pr, i as int, j as int),
            memo_ok(pr, memo@),
            forall|s: Seq<P1KEY>|
                #[trigger] structures_of(results).contains(s) ==> co_optimal(
                    pr,
                    s,
                    i as int,
                    j as int,
                ),
            found ==> has_structure(results),
            !found ==> k <= kk < j && opt(pr, i as int, j as int) == opt(pr, i as int, kk) + opt(
                pr,
                kk + 1,
                j as int,
            ),
            found_so_far(pr, structures_of(results), i as int, j as int, key, case_one, cond3, k as int),
        decreases j - k,
    {
        let left_score = dp.get(i, k);
        let right_score = dp.get(k + 1, j);
        assert(left_score + right_score <= opt(pr, i as int, j as int));
        if dp_ij == left_score + right_score {
            let lefts = traceback_all(i, k, dp, p, memo);
            let rights = traceback_all(k + 1, j, dp, p, memo);
            let lv = structure_set_to_vec(&lefts);
            let rv = structure_set_to_vec(&rights);
            let mut x: usize = 0;
            while x < lv.len()
                invariant
                    x <= lv@.len(),
                    i < k < j,
                    opt(pr, i as int, j as int) == opt(pr, i as int, k as int) + opt(
                        pr,
                        k + 1,
                        j as int,
                    ),
                    lv@.map_values(|w: Vec<P1KEY>| w@).to_set() == structures_of(lefts),
                    rv@.map_values(|w: Vec<P1KEY>| w@).to_set() == structures_of(rights),
                    forall|s: Seq<P1KEY>|
                        #[trigger] structures_of(lefts).contains(s) ==> co_optimal(
                            pr,
                            s,
                            i as int,
                            k as int,
                        ),
                    forall|s: Seq<P1KEY>|
                        #[trigger] structures_of(rights).contains(s) ==> co_optimal(
                            pr,
                            s,
                            k + 1,
                            j as int,
                        ),
                    forall|s: Seq<P1KEY>|
                        #[trigger] structures_of(results).contains(s) ==> co_optimal(
                            pr,
                            s,
                            i as int,
                            j as int,
                        ),
                    found ==> has_structure(results),
                    x > 0 && rv@.len() > 0 ==> has_structure(results),
                    found_so_far(pr, structures_of(results), i as int, j as int, key, case_one, cond3, k as int),
                    forall|x2: int, y2: int|
                        0 <= x2 < x && 0 <= y2 < rv@.len() ==> structures_of(results).contains(
                            #[trigger] lv@[x2]@ + #[trigger] rv@[y2]@,
                        ),
                decreases lv@.len() - x,
            {
                let mut y: usize = 0;
                while y < rv.len()
                    invariant
                        x < lv@.len(),
                        y <= rv@.len(),
                        i < k < j,
                        opt(pr, i as int, j as int) == opt(pr, i as int, k as int) + opt(
                            pr,
                            k + 1,
                            j as int,
                        ),
                        lv@.map_values(|w: Vec<P1KEY>| w@).to_set() == structures_of(lefts),
                        rv@.map_values(|w: Vec<P1KEY>| w@).to_set() == structures_of(rights),
                        forall|s: Seq<P1KEY>|
                            #[trigger] structures_of(lefts).contains(s) ==> co_optimal(
                                pr,
                                s,
                                i as int,
                                k as int,
                            ),
                        forall|s: Seq<P1KEY>|
                            #[trigger] structures_of(rights).contains(s) ==> co_optimal(
                                pr,
                                s,
                                k + 1,
                                j as int,
                            ),
                        forall|s: Seq<P1KEY>|
                            #[trigger] structures_of(results).contains(s) ==> co_optimal(
                                pr,
                                s,
                                i as int,
                                j as int,
                            ),
                        found ==> has_structure(results),
                        x > 0 && rv@.len() > 0 ==> has_structure(results),
                        y > 0 ==> has_structure(results),
                        found_so_far(pr, structures_of(results), i as int, j as int, key, case_one, cond3, k as int),
                        forall|x2: int, y2: int|
                            0 <= x2 < x && 0 <= y2 < rv@.len() ==> structures_of(results).contains(
                                #[trigger] lv@[x2]@ + #[trigger] rv@[y2]@,
                            ),
                        forall|y2: int|
                            0 <= y2 < y ==> structures_of(results).contains(
                                lv@[x as int]@ + #[trigger] rv@[y2]@,
                            ),
                    decreases rv@.len() - y,
                {
                    proof {
                        lemma_listed(lv@, structures_of(lefts), x as int);
                        lemma_listed(rv@, structures_of(rights), y as int);
                        lemma_join(pr, lv@[x as int]@, rv@[y as int]@, i as int, k as int, j as int);
                    }
                    let ghost before = structures_of(results);
                    let combined = concat_keys(&lv[x], &rv[y]);
                    structure_set_insert(&mut results, combined);
                    proof {
                        assert(structures_of(results).contains(combined@));
                        lemma_found_grows(pr, before, structures_of(results), i as int, j as int, key, case_one, cond3, k as int);
                    }
                    y += 1;
                }
                x += 1;
            }
            proof {
                lemma_listed_nonempty(lv@, structures_of(lefts));
                lemma_listed_nonempty(rv@, structures_of(rights));
                found = true;
                assert forall|l: Seq<P1KEY>, q: Seq<P1KEY>|
                    #[trigger] co_optimal(pr, l, i as int, k as int) && #[trigger] co_optimal(
                        pr,
                        q,
                        k + 1,
                        j as int,
                    ) implies structures_of(results).contains(l + q) by {
                    let x2 = lemma_listed_index(lv@, structures_of(lefts), l);
                    let y2 = lemma_listed_index(rv@, structures_of(rights), q);
                    assert(structures_of(results).contains(lv@[x2]@ + rv@[y2]@));
                }
                assert(holds_joined(pr, structures_of(results), i as int, k as int, j as int));
            }
        }
        proof {
            assert forall|k2: int|
                i < k2 < k + 1 && #[trigger] opt(pr, i as int, k2) + opt(pr, k2 + 1, j as int) == opt(
                    pr,
                    i as int,
                    j as int,
                ) implies holds_joined(pr, structures_of(results), i as int, k2, j as int) by {
            }
        }
        k += 1;
    }
    proof {
        lemma_complete(pr, structures_of(results), i as int, j as int, key, case_one, cond3, n);
    }
    let stored = structure_set_clone(&results);
    proof {
        assert(found);
        let x = choose|x: Seq<P1KEY>| structures_of(results).contains(x);
        assert(structures_of(stored).contains(x));
    }
    let ghost m0 = memo@;
    int_map_insert(memo, key, stored);
    proof {
        assert forall|k2: P1KEY| #[trigger] memo@.contains_key(k2) implies valid_key(k2 as int) && (
        exists|x: Seq<P1KEY>| structures_of(memo@[k2]).contains(x)) && holds_all(
            pr,
            structures_of(memo@[k2]),
            key_i(k2 as int),
            key_j(k2 as int),
        ) && forall|s: Seq<P1KEY>|
            #[trigger] structures_of(memo@[k2]).contains(s) ==> co_optimal(
                pr,
                s,
                key_i(k2 as int),
                key_j(k2 as int),
            ) by {
            if k2 != key {
                assert(m0.contains_key(k2));
                assert(memo@[k2] == m0[k2]);
            } else {
                let x = choose|x: Seq<P1KEY>| structures_of(results).contains(x);
                assert(structures_of(memo@[k2]).contains(x));
            }
        }
    }
    results
}

} // verus!

verus! {

/// The best split is attained at some split point.
proof fn lemma_best_split_attained(p: Seq<Seq<usize>>, i: int, j: int, k: int) -> (k2: int)
    requires
        i < k < j,
    ensures
        i < k2 <= k,
        best_split(p, i, j, k) == opt(p, i, k2) + opt(p, k2 + 1, j),
    decreases k - i,
{
    assert(best_split(p, i, j, k) == if opt(p, i, k) + opt(p, k + 1, j) >= best_split(
        p,
        i,
        j,
        k - 1,
    ) {
        opt(p, i, k) + opt(p, k + 1, j)
    } else {
        best_split(p, i, j, k - 1)
    });
    if k - 1 > i {
        let k3 = lemma_best_split_attained(p, i, j, k - 1);
        if opt(p, i, k) + opt(p, k + 1, j) >= best_split(p, i, j, k - 1) {
            k
        } else {
            k3
        }
    } else {
        assert(best_split(p, i, j, k - 1) == 0);
        lemma_opt_nonneg(p, i, k);
        lemma_opt_nonneg(p, k + 1, j);
        k
    }
}

/// When neither end is left unpaired and `(i, j)` does not pair, the best score
/// comes from a split.
proof fn lemma_split_case(p: Seq<Seq<usize>>, i: int, j: int) -> (k: int)
    requires
        i < j,
        opt(p, i, j) != opt(p, i + 1, j),
        opt(p, i, j) != opt(p, i, j - 1),
        !(p[i][j] > 0 && opt(p, i, j) == pair_term(p, i, j)),
    ensures
        i < k < j,
        opt(p, i, j) == opt(p, i, k) + opt(p, k + 1, j),
{
    lemma_opt_nonneg(p, i + 1, j);
    lemma_opt_nonneg(p, i, j - 1);
    let unpaired = if opt(p, i + 1, j) >= opt(p, i, j - 1) {
        opt(p, i + 1, j)
    } else {
        opt(p, i, j - 1)
    };
    let with_pair = if pair_term(p, i, j) >= unpaired {
        pair_term(p, i, j)
    } else {
        unpaired
    };
    assert(opt(p, i, j) == if best_split(p, i, j, j - 1) >= with_pair {
        best_split(p, i, j, j - 1)
    } else {
        with_pair
    });
    if !(p[i][j] > 0) {
        assert(pair_term(p, i, j) == 0);
    }
    assert(opt(p, i, j) == best_split(p, i, j, j - 1));
    if j - 1 > i {
        lemma_best_split_attained(p, i, j, j - 1)
    } else {
        assert(best_split(p, i, j, j - 1) == 0);
        assert(opt(p, i + 1, j) == 0);
        assert(false);
        i
    }
}

/// Best scores are at most the interval length times the largest score.
pub proof fn lemma_opt_bound(p: Seq<Seq<usize>>, n: int, m: int, i: int, j: int)
    requires
        is_square(p, n),
        forall|a: int, b: int| 0 <= a < n && 0 <= b < n ==> #[trigger] p[a][b] <= m,
        0 <= m,
        0 <= i,
        j < n,
    ensures
        opt(p, i, j) <= if j >= i {
            (j - i + 1) * m
        } else {
            0
        },
    decreases if j >= i {
        j - i
    } else {
        0
    }, 1int, 0int,
{
    if j > i {
        lemma_opt_bound(p, n, m, i + 1, j);
        lemma_opt_bound(p, n, m, i, j - 1);
        lemma_opt_bound(p, n, m, i + 1, j - 1);
        assert((j - i) * m <= (j - i + 1) * m) by (nonlinear_arith)
            requires
                0 <= m,
        ;
        assert((j - i - 1) * m + m == (j - i) * m) by (nonlinear_arith);
        assert(p[i][j] <= m);
        assert(pair_term(p, i, j) <= (j - i + 1) * m);
        lemma_split_bound(p, n, m, i, j, j - 1);
        assert(m <= (j - i + 1) * m) by (nonlinear_arith)
            requires
                0 <= m,
                j > i,
        ;
    }
}

proof fn lemma_split_bound(p: Seq<Seq<usize>>, n: int, m: int, i: int, j: int, k: int)
    requires
        is_square(p, n),
        forall|a: int, b: int| 0 <= a < n && 0 <= b < n ==> #[trigger] p[a][b] <= m,
        0 <= m,
        0 <= i < j < n,
        k < j,
    ensures
        best_split(p, i, j, k) <= (j - i + 1) * m,
    decreases j - i, 0int, if k >= i {
        k - i
    } else {
        0
    },
{
    assert(0 <= (j - i + 1) * m) by (nonlinear_arith)
        requires
            0 <= m,
            i < j,
    ;
    if k > i {
        lemma_split_bound(p, n, m, i, j, k - 1);
        lemma_opt_bound(p, n, m, i, k);
        lemma_opt_bound(p, n, m, k + 1, j);
        assert((k - i + 1) * m + (j - k) * m == (j - i + 1) * m) by (nonlinear_arith);
    }
}

/// The structure the left-first traceback picks on `i..=j`: leave `i` unpaired
/// if that is optimal, else leave `j` unpaired, else pair `i` with `j`, else
/// split at the leftmost optimal point.
pub open spec fn left_first(p: Seq<Seq<usize>>, i: int, j: int) -> Seq<P1KEY>
    decreases (if j > i {
        j - i
    } else {
        0
    }), (if j > i {
        j - i
    } else {
        0
    }) + 1,
{
    if i >= j {
        Seq::empty()
    } else if opt(p, i, j) == opt(p, i + 1, j) {
        left_first(p, i + 1, j)
    } else if opt(p, i, j) == opt(p, i, j - 1) {
        left_first(p, i, j - 1)
    } else if p[i][j] > 0 && opt(p, i, j) == pair_term(p, i, j) {
        seq![key_of(i, j) as P1KEY] + left_first(p, i + 1, j - 1)
    } else {
        first_split(p, i, j, i + 1)
    }
}

/// The left-first choice among split points from `k` on.
pub open spec fn first_split(p: Seq<Seq<usize>>, i: int, j: int, k: int) -> Seq<P1KEY>
    decreases (if j > i {
        j - i
    } else {
        0
    }), (if j > k {
        j - k
    } else {
        0
    }),
{
    if k >= j || k <= i {
        Seq::empty()
    } else if opt(p, i, j) == opt(p, i, k) + opt(p, k + 1, j) {
        left_first(p, i, k) + left_first(p, k + 1, j)
    } else {
        first_split(p, i, j, k + 1)
    }
}

/// One co-optimal structure of `i..=j`, preferring an unpaired 5' end, then an
/// unpaired 3' end, then the pair `(i, j)`, then the leftmost split.
fn traceback(i: usize, j: usize, dp: &ScoreMatrix, p: &ScoreMatrix) -> (r: Vec<P1KEY>)
    requires
        dp_consistent(p, dp, matrix_rows(*p).len() as int),
        i < matrix_rows(*p).len(),
        j < matrix_rows(*p).len(),
    ensures
        co_optimal(matrix_rows(*p), r@, i as int, j as int),
        r@ == left_first(matrix_rows(*p), i as int, j as int),
    decreases if j > i {
        j - i
    } else {
        0
    },
{
    let ghost pr = matrix_rows(*p);
    let ghost n = pr.len() as int;
    if i >= j {
        proof {
            lemma_empty_co_optimal(pr, i as int, j as int);
        }
        return Vec::new();
    }
    proof {
        lemma_fits(pr, n, i as int, j as int);
    }
    let dp_ij = dp.get(i, j);
    if dp_ij == dp.get(i + 1, j) {
        let r = traceback(i + 1, j, dp, p);
        proof {
            lemma_extend_left(pr, r@, i as int, j as int);
            assert(co_optimal(pr, r@, i as int, j as int));
        }
        r
    } else if dp_ij == dp.get(i, j - 1) {
        let r = traceback(i, j - 1, dp, p);
        proof {
            lemma_extend_right(pr, r@, i as int, j as int);
            assert(co_optimal(pr, r@, i as int, j as int));
        }
        r
    } else if p.get(i, j) > 0 && dp_ij == dp.get(i + 1, j - 1) + p.get(i, j) {
        let inner = traceback(i + 1, j - 1, dp, p);
        let key = Pair::new(i as NAIDX, j as NAIDX).key();
        let head: Vec<P1KEY> = vec![key];
        proof {
            lemma_enclose(pr, inner@, i as int, j as int);
        }
        let r = concat_keys(&head, &inner);
        assert(r@ == seq![key] + inner@);
        assert(co_optimal(pr, r@, i as int, j as int));
        r
    } else {
        let ghost kk = lemma_split_case(pr, i as int, j as int);
        assert(left_first(pr, i as int, j as int) == first_split(pr, i as int, j as int, i + 1));
        let mut k: usize = i + 1;
        while k < j
            invariant
                dp_consistent(p, dp, n),
                pr == matrix_rows(*p),
                n == pr.len(),
                i < j < n,
                i + 1 <= k <= j,
                dp_ij as int == opt(pr, i as int, j as int),
                forall|k2: int| i < k2 < j ==> #[trigger] opt(pr, i as int, k2) + opt(pr, k2 + 1, j as int)
                    <= opt(pr, i as int, j as int),
                forall|k2: int| i < k2 < k ==> #[trigger] opt(pr, i as int, k2) + opt(pr, k2 + 1, j as int)
                    != opt(pr, i as int, j as int),
                i < kk < j,
                left_first(pr, i as int, j as int) == first_split(pr, i as int, j as int, k as int),
                opt(pr, i as int, j as int) == opt(pr, i as int, kk) + opt(pr, kk + 1, j as int),
            decreases j - k,
        {
            let left_score = dp.get(i, k);
            let right_score = dp.get(k + 1, j);
            assert(left_score + right_score <= opt(pr, i as int, j as int));
            if dp_ij == left_score + right_score {
                let left = traceback(i, k, dp, p);
                let right = traceback(k + 1, j, dp, p);
                proof {
                    lemma_join(pr, left@, right@, i as int, k as int, j as int);
                }
                let r = concat_keys(&left, &right);
                assert(co_optimal(pr, r@, i as int, j as int));
                return r;
            }
            assert(first_split(pr, i as int, j as int, k as int) == first_split(
                pr,
                i as int,
                j as int,
                k + 1,
            ));
            k += 1;
        }
        proof {
            assert(k == j);
            assert(i < kk < k);
            assert(opt(pr, i as int, kk) + opt(pr, kk + 1, j as int) != opt(pr, i as int, j as int));
            assert(false);
        }
        Vec::new()
    }
}

} // verus!

verus! {

/// The whitespace-separated words of a string.
pub uninterp spec fn whitespace_words(s: Seq<char>) -> Seq<Seq<char>>;

/// Relies on `str::split_whitespace`: the words of `s`, in order.
#[verifier::external_body]
fn split_words(s: &str) -> (r: Vec<String>)
    ensures
        r@.map_values(|w: String| w@) == whitespace_words(s@),
{
    s.split_whitespace().map(|w| w.to_string()).collect()
}

/// The pair-score matrix of a domain sequence.
pub open spec fn domain_scores(d: Seq<Domain>) -> Seq<Seq<usize>> {
    Seq::new(
        d.len(),
        |a: int| Seq::new(d.len(), |b: int| domain_pair_score(d[a], d[b]) as usize),
    )
}

/// Base-pair maximisation over a pair-score matrix: the scores and the table
/// of best scores.
pub struct NussinovDP {
    pair_scores: ScoreMatrix,
    dp_table: ScoreMatrix,
}

impl View for NussinovDP {
    /// The pair scores and the best-score table, row by row.
    type V = (Seq<Seq<usize>>, Seq<Seq<usize>>);

    closed spec fn view(&self) -> (Seq<Seq<usize>>, Seq<Seq<usize>>) {
        (matrix_rows(self.pair_scores), matrix_rows(self.dp_table))
    }
}

/// Build the pair-score matrix of a domain sequence.
fn build_pair_scores(domains: &Vec<Domain>) -> (r: ScoreMatrix)
    requires
        domains@.len() * domains@.len() <= isize::MAX,
    ensures
        matrix_rows(r) == domain_scores(domains@),
{
    let n = domains.len();
    let mut p = ScoreMatrix::zeros(n);
    let mut i: usize = 0;
    while i < n
        invariant
            n == domains@.len(),
            i <= n,
            is_square(matrix_rows(p), n as int),
            forall|a: int, b: int|
                0 <= a < n && 0 <= b < n ==> #[trigger] matrix_rows(p)[a][b] == if a < i {
                    domain_pair_score(domains@[a], domains@[b]) as usize
                } else {
                    0
                },
        decreases n - i,
    {
        let mut j: usize = 0;
        while j < n
            invariant
                n == domains@.len(),
                i < n,
                j <= n,
                is_square(matrix_rows(p), n as int),
                forall|a: int, b: int|
                    0 <= a < n && 0 <= b < n ==> #[trigger] matrix_rows(p)[a][b] == if a < i || (a
                        == i && b < j) {
                        domain_pair_score(domains@[a], domains@[b]) as usize
                    } else {
                        0
                    },
            decreases n - j,
        {
            let v = pair_score(&domains[i], &domains[j]);
            let ghost before = matrix_rows(p);
            p.set(i, j, v);
            assert forall|a: int, b: int| 0 <= a < n && 0 <= b < n implies #[trigger] matrix_rows(
                p,
            )[a][b] == if a < i || (a == i && b < j + 1) {
                domain_pair_score(domains@[a], domains@[b]) as usize
            } else {
                0
            } by {
                if a != i || b != j {
                    assert(matrix_rows(p)[a][b] == before[a][b]);
                }
            }
            j += 1;
        }
        i += 1;
    }
    assert(matrix_rows(p) =~= domain_scores(domains@)) by {
        assert forall|a: int| 0 <= a < n implies #[trigger] matrix_rows(p)[a] =~= domain_scores(
            domains@,
        )[a] by {}
    }
    p
}

impl NussinovDP {
    /// The table is the best-score table of the scores, and the scores fit.
    pub open spec fn wf(&self) -> bool {
        let n = self@.0.len() as int;
        &&& is_square(self@.0, n)
        &&& n <= 65535
        &&& scores_fit(self@.0, n)
        &&& dp_table_of(self@.0, self@.1, n)
    }

    /// Fill the best-score table of a square score matrix.
    pub fn from(pair_scores: ScoreMatrix) -> (r: NussinovDP)
        requires
            is_square(matrix_rows(pair_scores), matrix_rows(pair_scores).len() as int),
            matrix_rows(pair_scores).len() <= 65535,
            matrix_rows(pair_scores).len() * matrix_rows(pair_scores).len() <= isize::MAX,
            scores_fit(matrix_rows(pair_scores), matrix_rows(pair_scores).len() as int),
        ensures
            r.wf(),
            r@.0 == matrix_rows(pair_scores),
    {
        let dp_table = nussinov(&pair_scores);
        NussinovDP { pair_scores, dp_table }
    }

    /// Score a whitespace-separated domain sequence (`a`, or `a*` for the
    /// complement of `a`) with the lengths a registry gives, and fill the table.
    #[verifier::rlimit(60)]
    pub fn try_from(input: (&str, &DomainRegistry)) -> (r: Result<NussinovDP, RegistryError>)
        ensures
            (forall|w: int|
                0 <= w < whitespace_words(input.0@).len() ==> lookup(
                    input.1@,
                    #[trigger] whitespace_words(input.0@)[w],
                ) is Some) ==> match r {
                Ok(dp) => {
                    &&& dp.wf()
                    &&& dp@.0 == domain_scores(
                        whitespace_words(input.0@).map_values(
                            |w: Seq<char>| lookup(input.1@, w)->Some_0,
                        ),
                    )
                },
                Err(e) => e is Other,
            },
            (forall|w: int|
                0 <= w < whitespace_words(input.0@).len() ==> lookup(
                    input.1@,
                    #[trigger] whitespace_words(input.0@)[w],
                ) is Some && lookup(input.1@, whitespace_words(input.0@)[w])->Some_0.length
                    * whitespace_words(input.0@).len() <= usize::MAX) && whitespace_words(
                input.0@,
            ).len() <= 46340 ==> r is Ok,
            r matches Err(RegistryError::UnknownDomain(name)) ==> exists|w: int|
                0 <= w < whitespace_words(input.0@).len() && whitespace_words(input.0@)[w]
                    == name@ && lookup(input.1@, name@) is None && forall|w2: int|
                    0 <= w2 < w ==> lookup(input.1@, #[trigger] whitespace_words(input.0@)[w2])
                        is Some,
            (exists|w: int|
                0 <= w < whitespace_words(input.0@).len() && lookup(
                    input.1@,
                    #[trigger] whitespace_words(input.0@)[w],
                ) is None) ==> r matches Err(RegistryError::UnknownDomain(_)),
    {
        let (sequence, registry) = input;
        let words = split_words(sequence);
        let ghost ws = whitespace_words(sequence@);
        assert(words@.len() == ws.len());
        let mut domains: Vec<Domain> = Vec::new();
        let mut w: usize = 0;
        while w < words.len()
            invariant
                words@.map_values(|x: String| x@) == ws,
                ws == whitespace_words(input.0@),
                registry == input.1,
                w <= words@.len(),
                domains@.len() == w,
                forall|x: int| 0 <= x < w ==> lookup(registry@, #[trigger] ws[x]) is Some,
                forall|x: int|
                    0 <= x < w ==> #[trigger] domains@[x] == lookup(registry@, ws[x])->Some_0,
            decreases words@.len() - w,
        {
            assert(words@[w as int]@ == ws[w as int]);
            match registry.get(words[w].as_str()) {
                Some(d) => {
                    domains.push(d);
                },
                None => {
                    return Err(RegistryError::UnknownDomain(words[w].clone()));
                },
            }
            w += 1;
        }
        let n = domains.len();
        if n > 46340 {
            return Err(RegistryError::Other(String::from_str("too many domains")));
        }
        assert(n * n <= isize::MAX) by (nonlinear_arith)
            requires
                n <= 46340,
        ;
        let mut longest: usize = 0;
        let mut x: usize = 0;
        while x < n
            invariant
                n == domains@.len(),
                x <= n,
                forall|y: int| 0 <= y < x ==> #[trigger] domains@[y].length <= longest,
                longest == 0 || exists|y: int| 0 <= y < x && #[trigger] domains@[y].length == longest,
            decreases n - x,
        {
            if domains[x].length > longest {
                longest = domains[x].length;
            }
            x += 1;
        }
        if n > 0 && longest > usize::MAX / n {
            proof {
                let y = choose|y: int| 0 <= y < n && #[trigger] domains@[y].length == longest;
                assert(longest * n > usize::MAX) by (nonlinear_arith)
                    requires
                        longest > usize::MAX / n,
                        n > 0,
                ;
                assert(domains@[y] == lookup(registry@, ws[y])->Some_0);
            }
            return Err(RegistryError::Other(String::from_str("domain lengths too large")));
        }
        let pair_scores = build_pair_scores(&domains);
        proof {
            let pr = matrix_rows(pair_scores);
            assert(domains@ =~= ws.map_values(|w: Seq<char>| lookup(input.1@, w)->Some_0));
            if n > 0 {
                assert forall|a: int, b: int| 0 <= a < n && 0 <= b < n implies #[trigger] pr[a][b]
                    <= longest by {
                    assert(domains@[a].length <= longest);
                }
                lemma_opt_bound(pr, n as int, longest as int, 0, n - 1);
                assert(n * longest <= usize::MAX) by (nonlinear_arith)
                    requires
                        longest <= usize::MAX / n,
                        n > 0,
                ;
            }
        }
        Ok(NussinovDP::from(pair_scores))
    }

    /// The pair-score matrix.
    pub fn pair_scores(&self) -> (r: &ScoreMatrix)
        ensures
            matrix_rows(*r) == self@.0,
    {
        &self.pair_scores
    }

    /// The table of best scores.
    pub fn dp_table(&self) -> (r: &ScoreMatrix)
        ensures
            matrix_rows(*r) == self@.1,
    {
        &self.dp_table
    }
}

/// The table of best scores never drops when an interval grows by one position.
pub proof fn lemma_dp_monotone(p: Seq<Seq<usize>>, d: Seq<Seq<usize>>, n: int, i: int, j: int)
    requires
        dp_table_of(p, d, n),
        0 <= i < j < n,
    ensures
        d[i][j] >= d[i + 1][j],
        d[i][j] >= d[i][j - 1],
{
    lemma_opt_nonneg(p, i + 1, j);
}

} // verus!

verus! {

/// The structure length a query asks for: the given one, or the whole sequence.
pub open spec fn query_length(len: Option<usize>, n: int) -> int {
    match len {
        Some(l) => l as int,
        None => n,
    }
}

impl NussinovDP {
    /// One co-optimal structure of the first `len` positions (all by default),
    /// by the left-first traceback.
    pub fn get_mfe_pairs(&self, len: Option<usize>) -> (r: PairSet)
        requires
            self.wf(),
            1 <= query_length(len, self@.0.len() as int) <= self@.0.len(),
        ensures
            r.wf(),
            r@.0 == query_length(len, self@.0.len() as int),
            co_optimal(self@.0, left_first(self@.0, 0, query_length(len, self@.0.len() as int) - 1), 0, query_length(len, self@.0.len() as int) - 1),
            r@.1 == left_first(self@.0, 0, query_length(len, self@.0.len() as int) - 1).to_set(),
    {
        let length = match len {
            Some(l) => l,
            None => self.dp_table.dim().0,
        };
        let keys = traceback(0, length - 1, &self.dp_table, &self.pair_scores);
        let r = pair_set_of(length, &keys);
        r
    }

    /// Every co-optimal structure of the first `len` positions (all by default),
    /// as pair sets.
    pub fn all_mfe_pairs(&self, len: Option<usize>) -> (r: Vec<PairSet>)
        requires
            self.wf(),
            1 <= query_length(len, self@.0.len() as int) <= self@.0.len(),
        ensures
            r@.len() > 0,
            forall|x: int, y: int| 0 <= x < y < r@.len() ==> #[trigger] r@[x]@.1 != #[trigger] r@[y]@.1,
            forall|s: Seq<P1KEY>|
                #[trigger] co_optimal(self@.0, s, 0, query_length(len, self@.0.len() as int) - 1)
                    ==> exists|x: int| 0 <= x < r@.len() && r@[x]@.1 == s.to_set(),
            forall|x: int|
                0 <= x < r@.len() ==> {
                    &&& (#[trigger] r@[x]).wf()
                    &&& r@[x]@.0 == query_length(len, self@.0.len() as int)
                    &&& exists|s: Seq<P1KEY>|
                        co_optimal(self@.0, s, 0, query_length(len, self@.0.len() as int) - 1)
                            && r@[x]@.1 == s.to_set()
                },
    {
        let length = match len {
            Some(l) => l,
            None => self.dp_table.dim().0,
        };
        let mut memo: IntMap<P1KEY, AHashSet<Vec<P1KEY>>> = IntMap::default();
        let all = traceback_all(0, length - 1, &self.dp_table, &self.pair_scores, &mut memo);
        let listed = structure_set_to_vec(&all);
        proof {
            lemma_listed_nonempty(listed@, structures_of(all));
        }
        let mut out: Vec<PairSet> = Vec::new();
        let mut x: usize = 0;
        while x < listed.len()
            invariant
                x <= listed@.len(),
                listed@.map_values(|w: Vec<P1KEY>| w@).to_set() == structures_of(all),
                forall|s: Seq<P1KEY>|
                    #[trigger] structures_of(all).contains(s) ==> co_optimal(
                        self@.0,
                        s,
                        0,
                        length - 1,
                    ),
                1 <= length <= 65535,
                out@.len() == x,
                listed@.len() > 0,
                forall|y: int| 0 <= y < x ==> (#[trigger] out@[y])@.1 == listed@[y]@.to_set(),
                forall|y: int|
                    0 <= y < x ==> {
                        &&& (#[trigger] out@[y]).wf()
                        &&& out@[y]@.0 == length
                        &&& exists|s: Seq<P1KEY>|
                            co_optimal(self@.0, s, 0, length - 1) && out@[y]@.1 == s.to_set()
                    },
            decreases listed@.len() - x,
        {
            proof {
                lemma_listed(listed@, structures_of(all), x as int);
            }
            let ps = pair_set_of(length, &listed[x]);
            out.push(ps);
            x += 1;
        }
        proof {
            assert forall|x2: int, y2: int| 0 <= x2 < y2 < out@.len() implies out@[x2]@.1 != out@[y2]@.1 by {
                lemma_listed(listed@, structures_of(all), x2);
                lemma_listed(listed@, structures_of(all), y2);
                let m = listed@.map_values(|w: Vec<P1KEY>| w@);
                assert(m[x2] != m[y2]);
                if listed@[x2]@.to_set() == listed@[y2]@.to_set() {
                    crate::structures::lemma_ascending_set_eq(listed@[x2]@, listed@[y2]@);
                }
            }
            assert forall|s: Seq<P1KEY>| #[trigger] co_optimal(self@.0, s, 0, length - 1) implies exists|
                x: int,
            | 0 <= x < out@.len() && out@[x]@.1 == s.to_set() by {
                let y = lemma_listed_index(listed@, structures_of(all), s);
                assert(out@[y]@.1 == listed@[y]@.to_set());
            }
        }
        out
    }

    /// Every co-optimal structure of the first `len` positions (all by default),
    /// as pair tables.
    pub fn all_mfe_structs(&self, len: Option<usize>) -> (r: Vec<PairTable>)
        requires
            self.wf(),
            1 <= query_length(len, self@.0.len() as int) <= self@.0.len(),
        ensures
            r@.len() > 0,
            forall|x: int, y: int| 0 <= x < y < r@.len() ==> table_keys(#[trigger] r@[x]@) != table_keys(#[trigger] r@[y]@),
            forall|s: Seq<P1KEY>|
                #[trigger] co_optimal(self@.0, s, 0, query_length(len, self@.0.len() as int) - 1)
                    ==> exists|x: int| 0 <= x < r@.len() && table_keys(r@[x]@) == s.to_set(),
            forall|x: int|
                0 <= x < r@.len() ==> {
                    &&& table_wf((#[trigger] r@[x])@)
                    &&& r@[x]@.len() == query_length(len, self@.0.len() as int)
                    &&& exists|s: Seq<P1KEY>|
                        co_optimal(self@.0, s, 0, query_length(len, self@.0.len() as int) - 1)
                            && table_keys(r@[x]@) == s.to_set()
                },
    {
        let length = match len {
            Some(l) => l,
            None => self.dp_table.dim().0,
        };
        let mut memo: IntMap<P1KEY, AHashSet<Vec<P1KEY>>> = IntMap::default();
        let all = traceback_all(0, length - 1, &self.dp_table, &self.pair_scores, &mut memo);
        let listed = structure_set_to_vec(&all);
        proof {
            lemma_listed_nonempty(listed@, structures_of(all));
        }
        let mut out: Vec<PairTable> = Vec::new();
        let mut x: usize = 0;
        while x < listed.len()
            invariant
                x <= listed@.len(),
                listed@.map_values(|w: Vec<P1KEY>| w@).to_set() == structures_of(all),
                forall|s: Seq<P1KEY>|
                    #[trigger] structures_of(all).contains(s) ==> co_optimal(
                        self@.0,
                        s,
                        0,
                        length - 1,
                    ),
                1 <= length <= 65535,
                out@.len() == x,
                listed@.len() > 0,
                forall|y: int| 0 <= y < x ==> table_keys((#[trigger] out@[y])@) == listed@[y]@.to_set(),
                forall|y: int|
                    0 <= y < x ==> {
                        &&& table_wf((#[trigger] out@[y])@)
                        &&& out@[y]@.len() == length
                        &&& exists|s: Seq<P1KEY>|
                            co_optimal(self@.0, s, 0, length - 1) && table_keys(out@[y]@)
                                == s.to_set()
                    },
            decreases listed@.len() - x,
        {
            proof {
                lemma_listed(listed@, structures_of(all), x as int);
            }
            let pt = table_of_structure(length, &listed[x]);
            out.push(pt);
            x += 1;
        }
        proof {
            assert forall|x2: int, y2: int| 0 <= x2 < y2 < out@.len() implies table_keys(out@[x2]@) != table_keys(out@[y2]@) by {
                lemma_listed(listed@, structures_of(all), x2);
                lemma_listed(listed@, structures_of(all), y2);
                let m = listed@.map_values(|w: Vec<P1KEY>| w@);
                assert(m[x2] != m[y2]);
                if listed@[x2]@.to_set() == listed@[y2]@.to_set() {
                    crate::structures::lemma_ascending_set_eq(listed@[x2]@, listed@[y2]@);
                }
            }
            assert forall|s: Seq<P1KEY>| #[trigger] co_optimal(self@.0, s, 0, length - 1) implies exists|
                x: int,
            | 0 <= x < out@.len() && table_keys(out@[x]@) == s.to_set() by {
                let y = lemma_listed_index(listed@, structures_of(all), s);
                assert(table_keys(out@[y]@) == listed@[y]@.to_set());
            }
        }
        out
    }
}

/// The pair set of a structure of `0..length`.
fn pair_set_of(length: usize, keys: &Vec<P1KEY>) -> (r: PairSet)
    requires
        structure_within(keys@, 0, length - 1),
    ensures
        r.wf(),
        r@ == (length as nat, keys@.to_set()),
{
    let mut r = PairSet::new(length);
    let mut x: usize = 0;
    while x < keys.len()
        invariant
            structure_within(keys@, 0, length - 1),
            x <= keys@.len(),
            r.wf(),
            r@ == (length as nat, keys@.subrange(0, x as int).to_set()),
        decreases keys@.len() - x,
    {
        let k = keys[x];
        proof {
            assert(valid_key(k as int));
            lemma_key_round(k as int);
        }
        let pair = Pair::from_key(k);
        r.insert(pair);
        assert(keys@.subrange(0, x + 1) =~= keys@.subrange(0, x as int).push(k));
        proof {
            keys@.subrange(0, x as int).lemma_push_to_set_commute(k);
        }
        x += 1;
    }
    assert(keys@.subrange(0, keys@.len() as int) =~= keys@);
    r
}

proof fn lemma_key_round(k: int)
    requires
        0 <= k,
    ensures
        key_of(key_i(k), key_j(k)) == k,
{
}

} // verus!

verus! {

/// No nested structure of the whole sequence scores more than the table's
/// corner entry: `D[0, n-1]` is the best score.
pub proof fn lemma_dp_is_best(p: Seq<Seq<usize>>, d: Seq<Seq<usize>>, n: int, s: Seq<P1KEY>)
    requires
        dp_table_of(p, d, n),
        n > 0,
        structure_within(s, 0, n - 1),
    ensures
        score(p, s) <= d[0][n - 1],
{
    crate::structures::lemma_opt_is_max(p, s, 0, n - 1);
}

} // verus!

verus! {

/// Every interval's best score is reached: some nested structure of allowed
/// pairs within `i..=j` scores exactly `opt(p, i, j)`.
pub proof fn lemma_opt_reached(p: Seq<Seq<usize>>, i: int, j: int) -> (s: Seq<P1KEY>)
    requires
        0 <= i,
        j < 65536,
    ensures
        co_optimal(p, s, i, j),
    decreases if j > i {
        j - i
    } else {
        0
    },
{
    if i >= j {
        lemma_empty_co_optimal(p, i, j);
        Seq::empty()
    } else if opt(p, i, j) == opt(p, i + 1, j) {
        let s = lemma_opt_reached(p, i + 1, j);
        lemma_extend_left(p, s, i, j);
        s
    } else if opt(p, i, j) == opt(p, i, j - 1) {
        let s = lemma_opt_reached(p, i, j - 1);
        lemma_extend_right(p, s, i, j);
        s
    } else if p[i][j] > 0 && opt(p, i, j) == pair_term(p, i, j) {
        let s = lemma_opt_reached(p, i + 1, j - 1);
        lemma_enclose(p, s, i, j);
        seq![key_of(i, j) as P1KEY] + s
    } else {
        let k = lemma_split_case(p, i, j);
        let a = lemma_opt_reached(p, i, k);
        let b = lemma_opt_reached(p, k + 1, j);
        lemma_join(p, a, b, i, k, j);
        a + b
    }
}

} // verus!
