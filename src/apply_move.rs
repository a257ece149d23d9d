//! Single-move transitions on a pair table.
use vstd::prelude::*;

use crate::loop_table::{
    context_id, encloses, inner_id, innermost, lemma_context_of_innermost, lemma_inner_id_injective,
    lemma_innermost_exists, lemma_opens_before_nonneg, LoopInfo, LoopTable,
};
use crate::pair::{Pair, NAIDX};
use crate::pair_table::{nested, opens_at, partner, table_wf, PairTable};

verus! {

/// The pair `(min(x, y), max(x, y))`.
pub open spec fn ordered_pair(x: int, y: int) -> (int, int) {
    if x < y {
        (x, y)
    } else {
        (y, x)
    }
}

/// Whether unpaired position `u` and paired position `p` can meet in one move:
/// `u` lies in the loop inside the pair at `p` or in the loop around it.
pub open spec fn shares_loop(t: Seq<Option<NAIDX>>, u: int, p: int) -> bool {
    let a = if p < partner(t, p) {
        p
    } else {
        partner(t, p)
    };
    context_id(t, u) == inner_id(t, a) || context_id(t, u) == context_id(t, a)
}

/// What forming the pair `(i, j)` takes: `Ok(Some(p))` when it is there already,
/// `Ok(None)` when it forms directly, `Ok(Some(q))` when it forms by breaking `q`,
/// `Err(())` when no single move forms it.
pub open spec fn move_outcome(t: Seq<Option<NAIDX>>, i: int, j: int) -> Result<
    Option<(int, int)>,
    (),
> {
    if t[i] == Some(j as NAIDX) && t[j] == Some(i as NAIDX) {
        Ok(Some((i, j)))
    } else if t[i] is None && t[j] is None {
        if context_id(t, i) == context_id(t, j) {
            Ok(None)
        } else {
            Err(())
        }
    } else if t[i] is None {
        if shares_loop(t, i, j) {
            Ok(Some(ordered_pair(partner(t, j), j)))
        } else {
            Err(())
        }
    } else if t[j] is None {
        if shares_loop(t, j, i) {
            Ok(Some(ordered_pair(partner(t, i), i)))
        } else {
            Err(())
        }
    } else {
        Err(())
    }
}

/// The result of a move as returned, read through the pairs' views.
pub open spec fn outcome_of(r: Result<Option<Pair>, String>) -> Result<Option<(int, int)>, ()> {
    match r {
        Ok(Some(p)) => Ok(Some(p@)),
        Ok(None) => Ok(None),
        Err(_) => Err(()),
    }
}

/// Table `t` with the pair `old` (if any) removed and the pair `new` installed.
pub open spec fn moved_table(t: Seq<Option<NAIDX>>, old: Option<(int, int)>, new: (int, int)) -> Seq<
    Option<NAIDX>,
> {
    let t1 = match old {
        Some(q) => t.update(q.0, None).update(q.1, None),
        None => t,
    };
    t1.update(new.0, Some(new.1 as NAIDX)).update(new.1, Some(new.0 as NAIDX))
}

/// The view of an optional pair.
pub open spec fn opt_pair_view(p: Option<Pair>) -> Option<(int, int)> {
    match p {
        Some(q) => Some(q@),
        None => None,
    }
}

/// Moves of a single base pair on a structure.
pub trait ApplyMove: Sized {
    /// When `try_move` may be asked about `pair`.
    spec fn try_move_requires(&self, pair: Pair) -> bool;

    /// What `try_move` answers about `pair`.
    spec fn move_spec(&self, pair: Pair) -> Result<Option<(int, int)>, ()>;

    /// When `apply_move` may be asked to replace `old` by `new`.
    spec fn apply_move_requires(&self, old: Option<Pair>, new: Pair) -> bool;

    /// `self` is `before` with `old` removed and `new` installed.
    spec fn move_applied(&self, before: &Self, old: Option<Pair>, new: Pair) -> bool;

    /// Decide how `pair` could form in one move.
    fn try_move(&self, pair: Pair) -> (r: Result<Option<Pair>, String>)
        requires
            self.try_move_requires(pair),
        ensures
            outcome_of(r) == self.move_spec(pair),
    ;

    /// Remove `prev`, if given, then install `new`.
    fn apply_move(&mut self, prev: Option<Pair>, new: Pair)
        requires
            old(self).apply_move_requires(prev, new),
        ensures
            final(self).move_applied(old(self), prev, new),
    ;
}

impl ApplyMove for PairTable {
    open spec fn try_move_requires(&self, pair: Pair) -> bool {
        table_wf(self@) && pair@.1 < self@.len()
    }

    open spec fn move_spec(&self, pair: Pair) -> Result<Option<(int, int)>, ()> {
        move_outcome(self@, pair@.0, pair@.1)
    }

    open spec fn apply_move_requires(&self, old: Option<Pair>, new: Pair) -> bool {
        &&& new@.1 < self@.len()
        &&& old matches Some(q) ==> q@.1 < self@.len()
    }

    open spec fn move_applied(&self, before: &Self, old: Option<Pair>, new: Pair) -> bool {
        self@ == moved_table(before@, opt_pair_view(old), new@)
    }

    fn try_move(&self, pair: Pair) -> (r: Result<Option<Pair>, String>) {
        let i = pair.i() as usize;
        let j = pair.j() as usize;
        let ghost t = self@;
        if self.get(i) == Some(pair.j()) && self.get(j) == Some(pair.i()) {
            return Ok(Some(pair));
        }
        let lt = LoopTable::from(self);
        let li = lt.get(i);
        let lj = lt.get(j);
        assert(crate::loop_table::loop_info_ok(li, t, i as int));
        assert(crate::loop_table::loop_info_ok(lj, t, j as int));
        match (li, lj) {
            (LoopInfo::Unpaired { l: iloop }, LoopInfo::Unpaired { l: jloop }) => {
                if iloop == jloop {
                    Ok(None)
                } else {
                    Err(String::from_str("Unpaired bases are in different loops."))
                }
            },
            (LoopInfo::Unpaired { l: iloop }, LoopInfo::Paired { o: outer_loop, i: inner_loop }) => {
                if iloop == inner_loop || iloop == outer_loop {
                    let pi = self.get(j).unwrap();
                    assert(t[partner(t, j as int)] == Some(j as NAIDX));
                    if pi < pair.j() {
                        Ok(Some(Pair::new(pi, pair.j())))
                    } else {
                        Ok(Some(Pair::new(pair.j(), pi)))
                    }
                } else {
                    Err(String::from_str("Loop mismatch: one base unpaired, the other paired."))
                }
            },
            (LoopInfo::Paired { o: outer_loop, i: inner_loop }, LoopInfo::Unpaired { l: jloop }) => {
                if jloop == inner_loop || jloop == outer_loop {
                    let pj = self.get(i).unwrap();
                    if pj < pair.i() {
                        Ok(Some(Pair::new(pj, pair.i())))
                    } else {
                        Ok(Some(Pair::new(pair.i(), pj)))
                    }
                } else {
                    Err(String::from_str("Loop mismatch: one base paired, the other unpaired."))
                }
            },
            (LoopInfo::Paired { .. }, LoopInfo::Paired { .. }) => {
                Err(String::from_str("Both bases are paired."))
            },
        }
    }

    fn apply_move(&mut self, prev: Option<Pair>, new: Pair) {
        if let Some(q) = prev {
            let qi = q.i() as usize;
            let qj = q.j() as usize;
            self.set(qi, None);
            self.set(qj, None);
        }
        let ni = new.i();
        let nj = new.j();
        self.set(ni as usize, Some(nj));
        self.set(nj as usize, Some(ni));
    }
}

} // verus!

verus! {

/// No pair of `t` other than the one opened at `skip` crosses `(x, y)`.
pub open spec fn no_crossing(t: Seq<Option<NAIDX>>, x: int, y: int, skip: int) -> bool {
    forall|c: int|
        0 <= c < t.len() && #[trigger] opens_at(t, c) && c != skip ==> !(c < x < partner(t, c)
            < y) && !(x < c < y < partner(t, c))
}

/// Installing a pair that crosses nothing, after removing the pair `(a, b)`
/// (if any) that held its ends, keeps a table well formed.
proof fn lemma_install_keeps_wf(t: Seq<Option<NAIDX>>, old: Option<(int, int)>, x: int, y: int)
    requires
        table_wf(t),
        0 <= x < y < t.len(),
        match old {
            Some(q) => {
                &&& 0 <= q.0 < q.1 < t.len()
                &&& t[q.0] == Some(q.1 as NAIDX)
                &&& t[q.1] == Some(q.0 as NAIDX)
                &&& t[x] is None || x == q.0 || x == q.1
                &&& t[y] is None || y == q.0 || y == q.1
                &&& no_crossing(t, x, y, q.0)
            },
            None => t[x] is None && t[y] is None && no_crossing(t, x, y, -1),
        },
    ensures
        table_wf(moved_table(t, old, (x, y))),
{
    let t2 = moved_table(t, old, (x, y));
    let skip = match old {
        Some(q) => q.0,
        None => -1,
    };
    let skip2 = match old {
        Some(q) => q.1,
        None => -1,
    };
    assert(t2.len() == t.len());
    assert(t2[x] == Some(y as NAIDX) && t2[y] == Some(x as NAIDX));
    // positions other than x, y keep their partner unless they held the removed pair
    assert forall|m: int|
        0 <= m < t.len() && m != x && m != y && m != skip && m != skip2 implies #[trigger] t2[m]
        == t[m] by {}
    assert forall|m: int|
        0 <= m < t.len() && m != x && m != y && (m == skip || m == skip2) implies #[trigger] t2[m]
        is None by {}
    assert forall|m: int| 0 <= m < t2.len() && #[trigger] t2[m] is Some implies {
        &&& 0 <= partner(t2, m) < t2.len()
        &&& partner(t2, m) != m
        &&& t2[partner(t2, m)] == Some(m as NAIDX)
    } by {
        if m != x && m != y {
            let p = partner(t, m);
            assert(t[m] is Some);
            assert(t[p] == Some(m as NAIDX));
            if p == skip || p == skip2 {
                assert(m == skip || m == skip2);
            }
            assert(p != x && p != y);
        }
    }
    assert forall|a: int, c: int|
        0 <= a < c < t2.len() && #[trigger] opens_at(t2, a) && #[trigger] opens_at(t2, c) && c
            < partner(t2, a) implies partner(t2, c) < partner(t2, a) by {
        if a == x {
            assert(c != y);
            assert(t[c] == t2[c]);
            assert(opens_at(t, c));
            if c == skip {
                assert(false);
            }
            let f = partner(t, c);
            assert(t[f] == Some(c as NAIDX));
            assert(f != y);
        } else if c == x {
            assert(a != y);
            assert(t[a] == t2[a]);
            assert(opens_at(t, a));
            let d = partner(t, a);
            assert(t[d] == Some(a as NAIDX));
            assert(d != y);
        } else {
            assert(a != y);
            assert(t[a] == t2[a]);
            assert(opens_at(t, a));
            if c == y {
                assert(false);
            }
            assert(t[c] == t2[c]);
            assert(opens_at(t, c));
        }
    }
}

/// Two positions in the same loop are not separated by any pair.
proof fn lemma_same_context_no_crossing(t: Seq<Option<NAIDX>>, x: int, y: int)
    requires
        table_wf(t),
        0 <= x < y < t.len(),
        context_id(t, x) == context_id(t, y),
    ensures
        no_crossing(t, x, y, -1),
{
    assert forall|c: int|
        0 <= c < t.len() && #[trigger] opens_at(t, c) && c != -1 implies !(c < x < partner(t, c)
        < y) && !(x < c < y < partner(t, c)) by {
        let d = partner(t, c);
        if c < x < d < y {
            assert(encloses(t, c, x));
            let ex = lemma_innermost_exists(t, c, x);
            lemma_context_of_innermost(t, ex, x);
            lemma_opens_before_nonneg(t, ex);
            if ex != c {
                assert(nested(t));
                assert(partner(t, ex) < d);
            }
            let ey = choose|a: int| innermost(t, a, y);
            assert(exists|a: int| innermost(t, a, y));
            lemma_context_of_innermost(t, ey, y);
            if ex < ey {
                lemma_inner_id_injective(t, ex, ey);
            } else if ey < ex {
                lemma_inner_id_injective(t, ey, ex);
            }
        }
        if x < c < y < d {
            assert(encloses(t, c, y));
            let ey = lemma_innermost_exists(t, c, y);
            lemma_context_of_innermost(t, ey, y);
            lemma_opens_before_nonneg(t, ey);
            let ex = choose|a: int| innermost(t, a, x);
            assert(exists|a: int| innermost(t, a, x));
            lemma_context_of_innermost(t, ex, x);
            if ex < ey {
                lemma_inner_id_injective(t, ex, ey);
            } else if ey < ex {
                lemma_inner_id_injective(t, ey, ex);
            }
        }
    }
}

} // verus!

verus! {

/// Both ends of a pair lie in the same outer loop.
proof fn lemma_context_pair_ends(t: Seq<Option<NAIDX>>, a: int)
    requires
        table_wf(t),
        0 <= a < t.len(),
        opens_at(t, a),
    ensures
        context_id(t, a) == context_id(t, partner(t, a)),
{
    let b = partner(t, a);
    assert(t[b] == Some(a as NAIDX));
    assert forall|c: int| #[trigger] encloses(t, c, b) implies encloses(t, c, a) by {
        if a < c {
            assert(nested(t));
            assert(partner(t, c) < b);
        }
        if c == a {
            assert(false);
        }
    }
    if exists|e: int| innermost(t, e, a) {
        let e = choose|e: int| innermost(t, e, a);
        assert(nested(t));
        assert(b < partner(t, e));
        assert(innermost(t, e, b));
        lemma_context_of_innermost(t, e, a);
        lemma_context_of_innermost(t, e, b);
    } else {
        assert forall|c: int| !#[trigger] encloses(t, c, a) by {
            if encloses(t, c, a) {
                let e = lemma_innermost_exists(t, c, a);
            }
        }
        assert forall|c: int| !#[trigger] innermost(t, c, b) by {}
    }
}

/// The innermost pair around `u` is the one whose loop id is `u`'s context.
proof fn lemma_context_names_innermost(t: Seq<Option<NAIDX>>, u: int, a: int)
    requires
        table_wf(t),
        0 <= a < t.len(),
        opens_at(t, a),
        context_id(t, u) == inner_id(t, a),
    ensures
        innermost(t, a, u),
{
    lemma_opens_before_nonneg(t, a);
    let e = choose|e: int| innermost(t, e, u);
    lemma_context_of_innermost(t, e, u);
    if e < a {
        lemma_inner_id_injective(t, e, a);
    } else if a < e {
        lemma_inner_id_injective(t, a, e);
    }
}

/// A move that `try_move` sanctions, forming a pair that is not there yet,
/// keeps a table well formed.
pub proof fn lemma_move_keeps_wf(t: Seq<Option<NAIDX>>, i: int, j: int)
    requires
        table_wf(t),
        0 <= i < j < t.len(),
        move_outcome(t, i, j) is Ok,
        move_outcome(t, i, j) != Ok::<Option<(int, int)>, ()>(Some((i, j))),
    ensures
        table_wf(moved_table(t, move_outcome(t, i, j)->Ok_0, (i, j))),
{
    if t[i] is None && t[j] is None {
        lemma_same_context_no_crossing(t, i, j);
    } else if t[i] is None {
        let q = partner(t, j);
        assert(t[q] == Some(j as NAIDX));
        let a = if j < q {
            j
        } else {
            q
        };
        let b = if j < q {
            q
        } else {
            j
        };
        assert(opens_at(t, a) && partner(t, a) == b);
        if context_id(t, i) == inner_id(t, a) {
            lemma_context_names_innermost(t, i, a);
            assert forall|c: int|
                0 <= c < t.len() && #[trigger] opens_at(t, c) && c != a implies !(c < i < partner(
                t,
                c,
            ) < j) && !(i < c < j < partner(t, c)) by {
                assert(nested(t));
                if c < i < partner(t, c) && c > a {
                    assert(encloses(t, c, i));
                }
            }
        } else {
            lemma_context_pair_ends(t, a);
            lemma_same_context_no_crossing(t, i, j);
        }
    } else {
        let q = partner(t, i);
        assert(t[q] == Some(i as NAIDX));
        let a = if i < q {
            i
        } else {
            q
        };
        let b = if i < q {
            q
        } else {
            i
        };
        assert(opens_at(t, a) && partner(t, a) == b);
        if context_id(t, j) == inner_id(t, a) {
            lemma_context_names_innermost(t, j, a);
            assert forall|c: int|
                0 <= c < t.len() && #[trigger] opens_at(t, c) && c != a implies !(c < i < partner(
                t,
                c,
            ) < j) && !(i < c < j < partner(t, c)) by {
                assert(nested(t));
                if i < c < j && j < partner(t, c) {
                    assert(encloses(t, c, j));
                }
            }
        } else {
            lemma_context_pair_ends(t, a);
            lemma_same_context_no_crossing(t, i, j);
        }
    }
    lemma_install_keeps_wf(t, move_outcome(t, i, j)->Ok_0, i, j);
}

} // verus!
