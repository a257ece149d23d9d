//! The partial order of pair formation along a chain of structures of
//! increasing length, each reached from the last by extension and single moves.
use vstd::prelude::*;

use nohash_hasher::{IntMap, IntSet};

use crate::apply_move::{lemma_move_keeps_wf, move_outcome, moved_table, ApplyMove};
use crate::int_hash::{
    int_map_contains_key, int_map_get, int_map_insert, int_map_keys, int_map_remove, int_set_contains,
    int_set_insert, int_set_keys,
};
use crate::pair::{key_i, key_j, key_of, valid_key, Pair, P1KEY};
use crate::pair_set::{table_keys, PairSet};
use crate::pair_table::{lemma_append_unpaired_wf, opens_at, partner, table_wf, PairTable};

verus! {

/// The state of the chain seen so far: every pair, the table of each length,
/// and the precedence graph in both directions.
#[derive(Debug)]
pub struct PartialOrder {
    all_pairs: IntSet<P1KEY>,
    pair_tables: IntMap<P1KEY, PairTable>,
    gt: IntMap<P1KEY, IntSet<P1KEY>>,
    lt: IntMap<P1KEY, IntSet<P1KEY>>,
}

/// The view of a partial order: all pairs, the tables by length, the later
/// pairs of each pair (`gt`) and the earlier pairs of each pair (`lt`).
pub struct PartialOrderView {
    pub pairs: Set<P1KEY>,
    pub tables: Map<P1KEY, Seq<Option<u16>>>,
    pub gt: Map<P1KEY, Set<P1KEY>>,
    pub lt: Map<P1KEY, Set<P1KEY>>,
}

/// Pair `a` must form before pair `b`.
pub open spec fn precedes(v: PartialOrderView, a: P1KEY, b: P1KEY) -> bool {
    v.gt.contains_key(a) && v.gt[a].contains(b)
}

/// A ranking of the pairs that every precedence respects.
pub open spec fn ranks_respect(v: PartialOrderView, rank: Map<P1KEY, int>) -> bool {
    forall|a: P1KEY, b: P1KEY|
        #[trigger] precedes(v, a, b) ==> rank.contains_key(a) && rank.contains_key(b) && rank[a]
            < rank[b]
}

/// The precedence graph has no cycle: some ranking respects it.
pub open spec fn acyclic(v: PartialOrderView) -> bool {
    exists|rank: Map<P1KEY, int>| ranks_respect(v, rank)
}

/// The invariant of a partial order: tables are well formed and as long as
/// their key, their pairs are known, precedences join known pairs, and `lt`
/// is `gt` reversed.
pub open spec fn po_wf(v: PartialOrderView) -> bool {
    &&& forall|n: P1KEY|
        #[trigger] v.tables.contains_key(n) ==> table_wf(v.tables[n]) && v.tables[n].len() == n
            && table_keys(v.tables[n]).subset_of(v.pairs)
    &&& forall|a: P1KEY, b: P1KEY|
        #[trigger] precedes(v, a, b) ==> v.pairs.contains(a) && v.pairs.contains(b)
    &&& forall|a: P1KEY, b: P1KEY|
        #[trigger] precedes(v, a, b) <==> (v.lt.contains_key(b) && v.lt[b].contains(a))
    &&& forall|k: P1KEY| #[trigger] v.pairs.contains(k) ==> valid_key(k as int)
    &&& v.tables.dom() == Set::<P1KEY>::empty() ==> forall|a: P1KEY, b: P1KEY| !#[trigger] precedes(v, a, b)
}

impl PartialOrder {
    /// The view of this partial order.
    pub closed spec fn view(&self) -> PartialOrderView {
        PartialOrderView {
            pairs: self.all_pairs@,
            tables: self.pair_tables@.map_values(|t: PairTable| t@),
            gt: self.gt@.map_values(|s: IntSet<P1KEY>| s@),
            lt: self.lt@.map_values(|s: IntSet<P1KEY>| s@),
        }
    }

    /// An empty partial order.
    pub fn new() -> (r: PartialOrder)
        ensures
            r.view().pairs == Set::<P1KEY>::empty(),
            r.view().tables == Map::<P1KEY, Seq<Option<u16>>>::empty(),
            forall|a: P1KEY, b: P1KEY| !precedes(r.view(), a, b),
            po_wf(r.view()),
    {
        let r = PartialOrder {
            all_pairs: IntSet::default(),
            pair_tables: IntMap::default(),
            gt: IntMap::default(),
            lt: IntMap::default(),
        };
        assert(r.view().tables =~= Map::<P1KEY, Seq<Option<u16>>>::empty());
        r
    }

    /// The later pairs of `key` (`gt`), if it has any entry.
    pub fn gt(&self, key: P1KEY) -> (r: Option<Vec<P1KEY>>)
        ensures
            r is Some <==> self.view().gt.contains_key(key),
            r matches Some(v) ==> v@.to_set() == self.view().gt[key] && v@.no_duplicates(),
    {
        match int_map_get(&self.gt, key) {
            Some(s) => Some(int_set_keys(s)),
            None => None,
        }
    }

    /// The earlier pairs of `key` (`lt`), if it has any entry.
    pub fn lt(&self, key: P1KEY) -> (r: Option<Vec<P1KEY>>)
        ensures
            r is Some <==> self.view().lt.contains_key(key),
            r matches Some(v) ==> v@.to_set() == self.view().lt[key] && v@.no_duplicates(),
    {
        match int_map_get(&self.lt, key) {
            Some(s) => Some(int_set_keys(s)),
            None => None,
        }
    }

    /// Record that `a` forms before `b`.
    fn add_precedence(&mut self, a: P1KEY, b: P1KEY)
        requires
            po_wf(old(self).view()),
            old(self).view().pairs.contains(a),
            old(self).view().pairs.contains(b),
            old(self).view().tables.dom() != Set::<P1KEY>::empty(),
        ensures
            po_wf(final(self).view()),
            final(self).view().pairs == old(self).view().pairs,
            final(self).view().tables == old(self).view().tables,
            forall|x: P1KEY, y: P1KEY|
                #[trigger] precedes(final(self).view(), x, y) <==> (precedes(old(self).view(), x, y)
                    || (x == a && y == b)),
    {
        let ghost v0 = self.view();
        let mut succ = match int_map_remove(&mut self.gt, a) {
            Some(s) => s,
            None => IntSet::default(),
        };
        int_set_insert(&mut succ, b);
        int_map_insert(&mut self.gt, a, succ);
        let mut pred = match int_map_remove(&mut self.lt, b) {
            Some(s) => s,
            None => IntSet::default(),
        };
        int_set_insert(&mut pred, a);
        int_map_insert(&mut self.lt, b, pred);
        proof {
            let v = self.view();
            assert(v.pairs == v0.pairs);
            assert(v.tables == v0.tables);
            assert forall|x: P1KEY, y: P1KEY| #[trigger] precedes(v, x, y) <==> (precedes(v0, x, y)
                || (x == a && y == b)) by {
                if x == a {
                    assert(v.gt[a] == if v0.gt.contains_key(a) {
                        v0.gt[a].insert(b)
                    } else {
                        Set::<P1KEY>::empty().insert(b)
                    });
                } else {
                    assert(v.gt.contains_key(x) == v0.gt.contains_key(x));
                    if v0.gt.contains_key(x) {
                        assert(v.gt[x] == v0.gt[x]);
                    }
                }
            }
            assert forall|x: P1KEY, y: P1KEY| #[trigger] precedes(v, x, y) <==> (v.lt.contains_key(y)
                && v.lt[y].contains(x)) by {
                if y == b {
                    assert(v.lt[b] == if v0.lt.contains_key(b) {
                        v0.lt[b].insert(a)
                    } else {
                        Set::<P1KEY>::empty().insert(a)
                    });
                    assert(precedes(v0, x, y) <==> (v0.lt.contains_key(y) && v0.lt[y].contains(x)));
                } else {
                    assert(v.lt.contains_key(y) == v0.lt.contains_key(y));
                    if v0.lt.contains_key(y) {
                        assert(v.lt[y] == v0.lt[y]);
                    }
                    assert(precedes(v0, x, y) <==> (v0.lt.contains_key(y) && v0.lt[y].contains(x)));
                }
            }
        }
    }
}

} // verus!

verus! {

/// Levels that respect the precedences: each pair with a level sits one above
/// its highest earlier pair (at 1 without any), and those all have levels.
pub open spec fn levels_ok(v: PartialOrderView, levels: Map<P1KEY, usize>) -> bool {
    forall|k: P1KEY|
        #[trigger] levels.contains_key(k) ==> {
            &&& v.pairs.contains(k)
            &&& levels[k] >= 1
            &&& forall|a: P1KEY|
                #[trigger] precedes(v, a, k) ==> levels.contains_key(a) && levels[a] < levels[k]
            &&& (forall|a: P1KEY| !#[trigger] precedes(v, a, k)) ==> levels[k] == 1
            &&& (exists|a: P1KEY| #[trigger] precedes(v, a, k)) ==> exists|a: P1KEY|
                #[trigger] precedes(v, a, k) && levels[k] == levels[a] + 1
        }
}

impl PartialOrder {
    /// The level of `k` from the levels of its earlier pairs, when all have one.
    fn level_from_preds(&self, k: P1KEY, levels: &IntMap<P1KEY, usize>) -> (r: Option<usize>)
        requires
            po_wf(self.view()),
        ensures
            r matches Some(l) ==> {
                &&& l >= 1
                &&& forall|a: P1KEY|
                    #[trigger] precedes(self.view(), a, k) ==> levels@.contains_key(a)
                        && levels@[a] < l
                &&& (forall|a: P1KEY| !#[trigger] precedes(self.view(), a, k)) ==> l == 1
                &&& (exists|a: P1KEY| #[trigger] precedes(self.view(), a, k)) ==> exists|a: P1KEY|
                    #[trigger] precedes(self.view(), a, k) && l == levels@[a] + 1
            },
            (forall|a: P1KEY|
                #[trigger] precedes(self.view(), a, k) ==> levels@.contains_key(a) && levels@[a]
                    < usize::MAX) ==> r is Some,
    {
        let ghost v = self.view();
        let preds: Vec<P1KEY> = match int_map_get(&self.lt, k) {
            Some(s) => int_set_keys(s),
            None => Vec::new(),
        };
        proof {
            assert forall|a: P1KEY| #[trigger] precedes(v, a, k) implies preds@.contains(a) by {
                assert(v.lt.contains_key(k) && v.lt[k].contains(a));
                assert(preds@.to_set().contains(a));
            }
            assert forall|x: int| 0 <= x < preds@.len() implies #[trigger] precedes(v, preds@[x], k) by {
                assert(preds@.to_set().contains(preds@[x]));
            }
        }
        let mut top: usize = 0;
        let mut x: usize = 0;
        while x < preds.len()
            invariant
                v == self.view(),
                forall|y: int| 0 <= y < preds@.len() ==> #[trigger] precedes(v, preds@[y], k),
                x <= preds@.len(),
                forall|y: int| 0 <= y < x ==> levels@.contains_key(#[trigger] preds@[y]) && levels@[preds@[y]] <= top,
                x > 0 ==> exists|y: int| 0 <= y < x && levels@[#[trigger] preds@[y]] == top,
                x == 0 ==> top == 0,
            decreases preds@.len() - x,
        {
            match int_map_get(levels, preds[x]) {
                Some(l) => {
                    if *l > top || x == 0 {
                        top = *l;
                    }
                },
                None => {
                    proof {
                        assert(precedes(v, preds@[x as int], k));
                    }
                    return None;
                },
            }
            x += 1;
        }
        if top == usize::MAX {
            proof {
                let y = choose|y: int| 0 <= y < x && levels@[#[trigger] preds@[y]] == top;
                assert(precedes(v, preds@[y], k));
            }
            return None;
        }
        proof {
            if exists|a: P1KEY| #[trigger] precedes(v, a, k) {
                let a = choose|a: P1KEY| #[trigger] precedes(v, a, k);
                assert(preds@.contains(a));
                assert(preds@.len() > 0);
                let y = choose|y: int| 0 <= y < preds@.len() && levels@[#[trigger] preds@[y]] == top;
                assert(precedes(v, preds@[y], k));
            } else {
                if preds@.len() > 0 {
                    assert(precedes(v, preds@[0], k));
                }
            }
            assert forall|a: P1KEY| #[trigger] precedes(v, a, k) implies levels@.contains_key(a)
                && levels@[a] < top + 1 by {
                let y = choose|y: int| 0 <= y < preds@.len() && preds@[y] == a;
            }
        }
        Some(top + 1)
    }

    /// The level of every pair that has one: pairs without an earlier pair are
    /// at level 1, every other pair one above its highest earlier pair. When the
    /// precedences have no cycle, every pair has a level.
    pub fn pair_hierarchy(&self) -> (r: IntMap<P1KEY, usize>)
        requires
            po_wf(self.view()),
        ensures
            levels_ok(self.view(), r@),
            acyclic(self.view()) ==> forall|k: P1KEY|
                #[trigger] self.view().pairs.contains(k) ==> r@.contains_key(k),
    {
        let ghost v = self.view();
        let nodes = int_set_keys(&self.all_pairs);
        let mut levels: IntMap<P1KEY, usize> = IntMap::default();
        let mut progress = true;
        proof {
            nodes@.unique_seq_to_set();
            assert(levels@.dom() =~= Set::<P1KEY>::empty());
            lemma_unlabeled_nonneg(nodes@, levels@.dom());
        }
        while progress
            invariant
                po_wf(v),
                v == self.view(),
                nodes@.to_set() == v.pairs,
                nodes@.no_duplicates(),
                nodes@.to_set().len() == nodes@.len(),
                levels_ok(v, levels@),
                levels@.dom().finite(),
                forall|q: P1KEY| #[trigger] levels@.contains_key(q) ==> levels@[q] <= levels@.dom().len(),
                unlabeled(nodes@, levels@.dom()) >= 0,
                !progress ==> forall|y: int|
                    0 <= y < nodes@.len() ==> levels@.contains_key(#[trigger] nodes@[y]) || blocked(
                        v,
                        levels@,
                        nodes@[y],
                    ),
            decreases unlabeled(nodes@, levels@.dom()) + if progress {
                1int
            } else {
                0int
            },
        {
            let ghost u0 = unlabeled(nodes@, levels@.dom());
            progress = false;
            let mut x: usize = 0;
            while x < nodes.len()
                invariant
                    po_wf(v),
                    v == self.view(),
                    nodes@.to_set() == v.pairs,
                    nodes@.no_duplicates(),
                    nodes@.to_set().len() == nodes@.len(),
                    levels_ok(v, levels@),
                    levels@.dom().finite(),
                    forall|q: P1KEY|
                        #[trigger] levels@.contains_key(q) ==> levels@[q] <= levels@.dom().len(),
                    unlabeled(nodes@, levels@.dom()) >= 0,
                    x <= nodes@.len(),
                    unlabeled(nodes@, levels@.dom()) + (if progress {
                        1int
                    } else {
                        0int
                    }) <= u0,
                    !progress ==> forall|y: int|
                        0 <= y < x ==> levels@.contains_key(#[trigger] nodes@[y]) || blocked(
                            v,
                            levels@,
                            nodes@[y],
                        ),
                decreases nodes@.len() - x,
            {
                let k = nodes[x];
                if !int_map_contains_key(&levels, k) {
                    proof {
                        assert(nodes@.to_set().contains(k));
                        vstd::set_lib::lemma_len_subset(levels@.dom(), nodes@.to_set().remove(k));
                    }
                    match self.level_from_preds(k, &levels) {
                        Some(l) => {
                            let ghost before = levels@;
                            int_map_insert(&mut levels, k, l);
                            proof {
                                lemma_unlabeled_insert(nodes@, before.dom(), k);
                                assert(levels@.dom() == before.dom().insert(k));
                                lemma_insert_level(v, before, k, l);
                            }
                            progress = true;
                        },
                        None => {
                            proof {
                                assert(blocked(v, levels@, k));
                            }
                        },
                    }
                }
                x += 1;
            }
        }
        proof {
            if acyclic(v) {
                assert forall|k: P1KEY| #[trigger] v.pairs.contains(k) implies levels@.contains_key(
                    k,
                ) by {
                    lemma_all_levelled(v, nodes@, levels@, k);
                }
            }
        }
        levels
    }

    /// Whether the precedences form no cycle: exactly when every pair gets a
    /// level, the levels then ranking the precedences.
    fn dependencies_form_dag(&self) -> (r: bool)
        requires
            po_wf(self.view()),
        ensures
            r == acyclic(self.view()),
    {
        let ghost v = self.view();
        let levels = self.pair_hierarchy();
        let nodes = int_set_keys(&self.all_pairs);
        let mut x: usize = 0;
        while x < nodes.len()
            invariant
                v == self.view(),
                nodes@.to_set() == v.pairs,
                acyclic(v) ==> forall|k: P1KEY| #[trigger] v.pairs.contains(k) ==> levels@.contains_key(k),
                x <= nodes@.len(),
                forall|y: int| 0 <= y < x ==> levels@.contains_key(#[trigger] nodes@[y]),
            decreases nodes@.len() - x,
        {
            if !int_map_contains_key(&levels, nodes[x]) {
                proof {
                    assert(nodes@.to_set().contains(nodes@[x as int]));
                    assert(v.pairs.contains(nodes@[x as int]));
                    assert(!levels@.contains_key(nodes@[x as int]));
                }
                return false;
            }
            x += 1;
        }
        proof {
            let rank = Map::new(|k: P1KEY| levels@.contains_key(k), |k: P1KEY| levels@[k] as int);
            assert forall|a: P1KEY, b: P1KEY| #[trigger] precedes(v, a, b) implies rank.contains_key(a)
                && rank.contains_key(b) && rank[a] < rank[b] by {
                assert(v.pairs.contains(b));
                assert(nodes@.to_set().contains(b));
                assert(nodes@.contains(b));
                let y = choose|y: int| 0 <= y < nodes@.len() && nodes@[y] == b;
                assert(levels@.contains_key(nodes@[y]));
            }
            assert(ranks_respect(v, rank));
        }
        true
    }
}

} // verus!

verus! {

/// A pair that a move would displace is a pair of the table.
proof fn lemma_displaced_is_pair(t: Seq<Option<u16>>, i: int, j: int)
    requires
        table_wf(t),
        0 <= i < j < t.len(),
        move_outcome(t, i, j) matches Ok(Some(q)),
    ensures
        ({
            let q = move_outcome(t, i, j)->Ok_0->Some_0;
            0 <= q.0 < q.1 < t.len() && table_keys(t).contains(key_of(q.0, q.1) as P1KEY)
                && key_i(key_of(q.0, q.1)) == q.0 && key_j(key_of(q.0, q.1)) == q.1
        }),
{
    let q = move_outcome(t, i, j)->Ok_0->Some_0;
    if t[i] == Some(j as u16) && t[j] == Some(i as u16) {
        assert(opens_at(t, i));
    } else if t[i] is None {
        let pj = partner(t, j);
        assert(t[pj] == Some(j as u16));
        if j < pj {
            assert(opens_at(t, j));
        } else {
            assert(opens_at(t, pj));
        }
    } else {
        let pi = partner(t, i);
        assert(t[pi] == Some(i as u16));
        if i < pi {
            assert(opens_at(t, i));
        } else {
            assert(opens_at(t, pi));
        }
    }
    crate::structures::lemma_key_of_parts(q.0, q.1);
}

/// The pairs after a move are the pairs before it and the pair moved in.
proof fn lemma_moved_keys(t: Seq<Option<u16>>, old: Option<(int, int)>, i: int, j: int)
    requires
        table_wf(t),
        0 <= i < j < t.len(),
        table_wf(moved_table(t, old, (i, j))),
        old matches Some(q) ==> 0 <= q.0 < q.1 < t.len(),
    ensures
        table_keys(moved_table(t, old, (i, j))).subset_of(
            table_keys(t).insert(key_of(i, j) as P1KEY),
        ),
{
    let t2 = moved_table(t, old, (i, j));
    assert forall|k: P1KEY| #[trigger] table_keys(t2).contains(k) implies table_keys(t).insert(
        key_of(i, j) as P1KEY,
    ).contains(k) by {
        let a = choose|a: int|
            0 <= a < t2.len() && #[trigger] opens_at(t2, a) && k as int == key_of(a, partner(t2, a));
        if a != i && a != j {
            assert(t2[a] == t[a]);
            assert(opens_at(t, a));
        } else if a == j {
            assert(t2[j] == Some(i as u16));
        }
    }
}

/// Where the history is consistent with a new table: no earlier table could
/// have formed one of its pairs directly, and every pair that would have
/// displaced an earlier pair must form before it.
pub open spec fn history_ok(
    tables: Map<P1KEY, Seq<Option<u16>>>,
    keys: Set<P1KEY>,
    v: PartialOrderView,
) -> bool {
    forall|len: P1KEY, k: P1KEY|
        #[trigger] tables.contains_key(len) && #[trigger] keys.contains(k) && key_j(k as int) < len
            ==> history_at(tables[len], k, v)
}

impl PartialOrder {
    /// Form the given pairs on `pt` by single moves, deferring a pair while it
    /// cannot move or may not displace a pair it is known to precede, until
    /// all have formed or a full pass makes no progress.
    fn apply_all_pairs(&mut self, pt: &mut PairTable, pairs: &Vec<P1KEY>) -> (r: bool)
        requires
            po_wf(old(self).view()),
            old(self).view().tables.dom() != Set::<P1KEY>::empty(),
            table_wf(old(pt)@),
            table_keys(old(pt)@).subset_of(old(self).view().pairs),
            forall|x: int|
                0 <= x < pairs@.len() ==> old(self).view().pairs.contains(#[trigger] pairs@[x])
                    && key_j(pairs@[x] as int) < old(pt)@.len(),
        ensures
            po_wf(final(self).view()),
            final(self).view().pairs == old(self).view().pairs,
            final(self).view().tables == old(self).view().tables,
            forall|a: P1KEY, b: P1KEY|
                #[trigger] precedes(old(self).view(), a, b) ==> precedes(final(self).view(), a, b),
            table_wf(final(pt)@),
            final(pt)@.len() == old(pt)@.len(),
            table_keys(final(pt)@).subset_of(final(self).view().pairs),
            exists|steps: Seq<(int, int)>|
                replay(old(pt)@, steps) == Some(final(pt)@) && (forall|m: int|
                    0 <= m < steps.len() ==> pairs@.contains(
                        key_of(#[trigger] steps[m].0, steps[m].1) as P1KEY,
                    )) && forall|a: P1KEY, b: P1KEY|
                    #[trigger] precedes(final(self).view(), a, b) <==> (precedes(
                        old(self).view(),
                        a,
                        b,
                    ) || displaced(old(pt)@, steps, a, b)),
            !r ==> exists|x: int|
                0 <= x < pairs@.len() && blocked_in(final(pt)@, final(self).view(), pairs@[x]),
    {
        let ghost v0 = self.view();
        let ghost t_start = pt@;
        let ghost mut steps: Seq<(int, int)> = Seq::empty();
        let n = pt.len();
        let mut queue: Vec<P1KEY> = Vec::new();
        let mut x: usize = pairs.len();
        while x > 0
            invariant
                x <= pairs@.len(),
                forall|y: int| 0 <= y < queue@.len() ==> exists|z: int| 0 <= z < pairs@.len() && pairs@[z] == #[trigger] queue@[y],
            decreases x,
        {
            x -= 1;
            queue.push(pairs[x]);
            assert(queue@[queue@.len() - 1] == pairs@[x as int]);
        }
        let mut progress = true;
        while progress && queue.len() > 0
            invariant
                po_wf(self.view()),
                self.view().pairs == v0.pairs,
                self.view().tables == v0.tables,
                v0.tables.dom() != Set::<P1KEY>::empty(),
                forall|a: P1KEY, b: P1KEY| #[trigger] precedes(v0, a, b) ==> precedes(self.view(), a, b),
                table_wf(pt@),
                pt@.len() == n,
                table_keys(pt@).subset_of(v0.pairs),
                forall|y: int|
                    0 <= y < queue@.len() ==> v0.pairs.contains(#[trigger] queue@[y]) && key_j(
                        queue@[y] as int,
                    ) < n,
                replay(t_start, steps) == Some(pt@),
                forall|m: int|
                    0 <= m < steps.len() ==> pairs@.contains(
                        key_of(#[trigger] steps[m].0, steps[m].1) as P1KEY,
                    ),
                forall|a: P1KEY, b: P1KEY|
                    #[trigger] precedes(self.view(), a, b) <==> (precedes(v0, a, b) || displaced(
                        t_start,
                        steps,
                        a,
                        b,
                    )),
                forall|y: int| 0 <= y < queue@.len() ==> #[trigger] pairs@.contains(queue@[y]),
                !progress ==> forall|y: int|
                    0 <= y < queue@.len() ==> blocked_in(pt@, self.view(), #[trigger] queue@[y]),
                t_start == old(pt)@,
                v0 == old(self).view(),
            decreases queue@.len() + if progress {
                1int
            } else {
                0int
            },
        {
            progress = false;
            let ghost pass_pt = pt@;
            let ghost pass_view = self.view();
            let mut skipped: Vec<P1KEY> = Vec::new();
            let mut x: usize = 0;
            while x < queue.len()
                invariant
                    po_wf(self.view()),
                    self.view().pairs == v0.pairs,
                    self.view().tables == v0.tables,
                    v0.tables.dom() != Set::<P1KEY>::empty(),
                    forall|a: P1KEY, b: P1KEY|
                        #[trigger] precedes(v0, a, b) ==> precedes(self.view(), a, b),
                    table_wf(pt@),
                    pt@.len() == n,
                    table_keys(pt@).subset_of(v0.pairs),
                    forall|y: int|
                        0 <= y < queue@.len() ==> v0.pairs.contains(#[trigger] queue@[y]) && key_j(
                            queue@[y] as int,
                        ) < n,
                    forall|y: int|
                        0 <= y < skipped@.len() ==> v0.pairs.contains(#[trigger] skipped@[y])
                            && key_j(skipped@[y] as int) < n,
                    x <= queue@.len(),
                    replay(t_start, steps) == Some(pt@),
                    forall|m: int|
                        0 <= m < steps.len() ==> pairs@.contains(
                            key_of(#[trigger] steps[m].0, steps[m].1) as P1KEY,
                        ),
                    forall|a: P1KEY, b: P1KEY|
                        #[trigger] precedes(self.view(), a, b) <==> (precedes(v0, a, b) || displaced(
                            t_start,
                            steps,
                            a,
                            b,
                        )),
                    forall|y: int| 0 <= y < queue@.len() ==> #[trigger] pairs@.contains(queue@[y]),
                    forall|y: int| 0 <= y < skipped@.len() ==> #[trigger] pairs@.contains(skipped@[y]),
                    !progress ==> pt@ == pass_pt && self.view() == pass_view,
                    !progress ==> forall|y: int|
                        0 <= y < skipped@.len() ==> blocked_in(pt@, self.view(), #[trigger] skipped@[y]),
                    t_start == old(pt)@,
                    v0 == old(self).view(),
                    skipped@.len() + (if progress {
                        1int
                    } else {
                        0int
                    }) <= x,
                decreases queue@.len() - x,
            {
                let key = queue[x];
                proof {
                    assert(v0.pairs.contains(key));
                    assert(valid_key(key as int));
                }
                let pair = Pair::from_key(key);
                let ghost t0 = pt@;
                let ghost (pi, pj) = pair@;
                let ghost vb = self.view();
                proof {
                    assert(pairs@.contains(queue@[x as int]));
                    crate::structures::lemma_key_of_parts(pi, pj);
                    if table_keys(t0).contains(key) {
                        lemma_present_outcome(t0, key);
                    }
                }
                match pt.try_move(pair) {
                    Ok(Some(old)) => {
                        proof {
                            lemma_displaced_is_pair(t0, pi, pj);
                        }
                        if old == pair {
                            progress = true;
                        } else {
                            let old_key = old.key();
                            let pair_key = pair.key();
                            let known = match int_map_get(&self.gt, pair_key) {
                                Some(s) => int_set_contains(s, old_key),
                                None => false,
                            };
                            if known {
                                proof {
                                    if old@ == pair@ {
                                        crate::pair::lemma_pair_view_injective(old, pair);
                                    }
                                    assert(precedes(vb, pair_key, old_key));
                                    assert(blocked_in(t0, vb, key));
                                }
                                skipped.push(key);
                            } else {
                                progress = true;
                                proof {
                                    assert(table_keys(t0).contains(old_key));
                                }
                                self.add_precedence(old_key, pair_key);
                                proof {
                                    if old@ == pair@ {
                                        crate::pair::lemma_pair_view_injective(old, pair);
                                    }
                                    assert(old@ != pair@);
                                    lemma_move_keeps_wf(t0, pi, pj);
                                }
                                pt.apply_move(Some(old), pair);
                                proof {
                                    lemma_moved_keys(t0, Some(old@), pi, pj);
                                    lemma_replay_push(t_start, steps, t0, pair@);
                                    assert(key_of(pi, pj) == key as int);
                                    assert(key_of(pi, pj) == key as int);
                            steps = steps.push(pair@);
                                }
                            }
                        }
                    },
                    Ok(None) => {
                        progress = true;
                        proof {
                            lemma_move_keeps_wf(t0, pi, pj);
                        }
                        pt.apply_move(None, pair);
                        proof {
                            lemma_moved_keys(t0, None, pi, pj);
                            lemma_replay_push(t_start, steps, t0, pair@);
                            assert(key_of(pi, pj) == key as int);
                            steps = steps.push(pair@);
                        }
                    },
                    Err(_) => {
                        proof {
                            assert(blocked_in(t0, vb, key));
                        }
                        skipped.push(key);
                    },
                }
                x += 1;
            }
            queue = skipped;
        }
        proof {
            if queue@.len() > 0 {
                assert(pairs@.contains(queue@[0]));
                let x = choose|x: int| 0 <= x < pairs@.len() && pairs@[x] == queue@[0];
                assert(blocked_in(pt@, self.view(), pairs@[x]));
            }
        }
        queue.len() == 0
    }
}

} // verus!

verus! {

impl PartialOrder {
    /// Add every key of `keys` to the known pairs.
    fn add_pairs(&mut self, keys: &Vec<P1KEY>)
        requires
            po_wf(old(self).view()),
            forall|x: int| 0 <= x < keys@.len() ==> valid_key(#[trigger] keys@[x] as int),
        ensures
            po_wf(final(self).view()),
            final(self).view().pairs == old(self).view().pairs.union(keys@.to_set()),
            final(self).view().tables == old(self).view().tables,
            final(self).view().gt == old(self).view().gt,
            final(self).view().lt == old(self).view().lt,
    {
        let ghost v0 = self.view();
        let mut x: usize = 0;
        while x < keys.len()
            invariant
                po_wf(v0),
                forall|y: int| 0 <= y < keys@.len() ==> valid_key(#[trigger] keys@[y] as int),
                x <= keys@.len(),
                self.view().pairs == v0.pairs.union(keys@.subrange(0, x as int).to_set()),
                self.view().tables == v0.tables,
                self.view().gt == v0.gt,
                self.view().lt == v0.lt,
            decreases keys@.len() - x,
        {
            int_set_insert(&mut self.all_pairs, keys[x]);
            proof {
                keys@.subrange(0, x as int).lemma_push_to_set_commute(keys@[x as int]);
                assert(keys@.subrange(0, x + 1) =~= keys@.subrange(0, x as int).push(keys@[x as int]));
                assert(self.view().pairs =~= v0.pairs.union(keys@.subrange(0, x + 1).to_set()));
            }
            x += 1;
        }
        proof {
            assert(keys@.subrange(0, keys@.len() as int) =~= keys@);
            let v = self.view();
            assert forall|n: P1KEY| #[trigger] v.tables.contains_key(n) implies table_wf(v.tables[n])
                && v.tables[n].len() == n && table_keys(v.tables[n]).subset_of(v.pairs) by {
                assert(v0.tables.contains_key(n));
            }
            assert forall|a: P1KEY, b: P1KEY| #[trigger] precedes(v, a, b) implies v.pairs.contains(a)
                && v.pairs.contains(b) by {
                assert(precedes(v0, a, b));
            }
            assert forall|k: P1KEY| #[trigger] v.pairs.contains(k) implies valid_key(k as int) by {
                if !v0.pairs.contains(k) {
                    assert(keys@.to_set().contains(k));
                    let y = choose|y: int| 0 <= y < keys@.len() && keys@[y] == k;
                }
            }
            assert forall|a: P1KEY, b: P1KEY| #[trigger] precedes(v, a, b) == precedes(v0, a, b) by {}
        }
    }

    /// Extend the chain by the table of the next length. Returns whether the
    /// chain so extended is still realisable by single moves under one
    /// consistent partial order; only then is the table kept. Precedences
    /// found on the way are kept either way.
    pub fn extend_by_pairtable(&mut self, pair_table: &PairTable) -> (r: bool)
        requires
            po_wf(old(self).view()),
            table_wf(pair_table@),
            1 <= pair_table@.len() <= 65535,
        ensures
            po_wf(final(self).view()),
            ({
                let n = pair_table@.len() as P1KEY;
                let v0 = old(self).view();
                let v = final(self).view();
                let keys = table_keys(pair_table@);
                &&& v0.tables.contains_key(n) ==> !r && v == v0
                &&& !v0.tables.contains_key(n) && previous_missing(v0, n) ==> !r && v == v0
                &&& v0.tables.dom() == Set::<P1KEY>::empty() ==> r && v.gt == v0.gt && v.lt
                    == v0.lt
                &&& r ==> v.tables == v0.tables.insert(n, pair_table@)
                &&& !r ==> v.tables == v0.tables
                &&& r ==> acyclic(v)
                &&& !v0.tables.contains_key(n) && !previous_missing(v0, n) ==> v.pairs
                    == v0.pairs.union(keys)
                &&& r ==> history_ok(v0.tables, keys, v)
                &&& !v0.tables.contains_key(n) && !previous_missing(v0, n) && v0.tables.dom()
                    != Set::<P1KEY>::empty() ==> {
                    &&& forms_directly(v0.tables, keys) ==> !r
                    &&& !forms_directly(v0.tables, keys) ==> history_ok(v0.tables, keys, v)
                    &&& moves_explain(v0, v, pair_table@, n, r)
                }
                &&& forall|a: P1KEY, b: P1KEY| #[trigger] precedes(v0, a, b) ==> precedes(v, a, b)
            }),
    {
        let ghost v0 = self.view();
        let ghost keys = table_keys(pair_table@);
        let length = pair_table.len();
        let n = length as P1KEY;
        if int_map_contains_key(&self.pair_tables, n) {
            proof {
                assert(v0.tables.contains_key(n));
                assert(v0.tables.dom().contains(n));
            }
            return false;
        }
        let pset = PairSet::from(pair_table);
        let new_pairs = pset.keys();
        proof {
            assert forall|x: int| 0 <= x < new_pairs@.len() implies valid_key(
                #[trigger] new_pairs@[x] as int,
            ) && key_j(new_pairs@[x] as int) < length by {
                assert(new_pairs@.to_set().contains(new_pairs@[x]));
            }
        }
        let lens = int_map_keys(&self.pair_tables);
        let prev = match int_map_get(&self.pair_tables, n - 1) {
            Some(t) => t.duplicate(),
            None => {
                if lens.len() == 0 {
                    proof {
                        assert(lens@ =~= Seq::<P1KEY>::empty());
                        assert(v0.tables.dom() =~= Set::<P1KEY>::empty());
                    }
                    self.start_chain(pair_table, &new_pairs);
                    return true;
                } else {
                    proof {
                        assert(lens@.to_set().contains(lens@[0]));
                        assert(v0.tables.dom().contains(lens@[0]));
                    }
                    return false;
                }
            },
        };
        proof {
            assert(v0.tables.contains_key((n - 1) as P1KEY));
            assert(prev@ == v0.tables[(n - 1) as P1KEY]);
        }
        self.add_pairs(&new_pairs);
        let ghost v1 = self.view();
        proof {
            assert(forall|a: P1KEY, b: P1KEY| #[trigger] precedes(v0, a, b) ==> precedes(v1, a, b));
            assert(lens@.to_set() =~= v1.tables.dom());
        }
        // no earlier table may be able to form a new pair directly
        if !self.check_history(&new_pairs, Ghost(table_keys(pair_table@)), &lens) {
            proof {
                let ext = extended_previous(v0, n);
                let steps = Seq::<(int, int)>::empty();
                assert(replay(ext, steps) == Some(ext));
                assert(moves_explain(v0, self.view(), pair_table@, n, false));
            }
            return false;
        }
        let ghost v2 = self.view();
        let mut current = prev;
        current.append_unpaired();
        proof {
            let tp = v0.tables[(n - 1) as P1KEY];
            lemma_append_unpaired_wf(tp);
            lemma_append_keys(tp);
        }
        proof {
            assert(!forms_directly(v0.tables, keys)) by {
                if forms_directly(v0.tables, keys) {
                    let (len, k) = choose|len: P1KEY, k: P1KEY|
                        #[trigger] v0.tables.contains_key(len) && #[trigger] keys.contains(k) && key_j(
                            k as int,
                        ) < len && move_outcome(v0.tables[len], key_i(k as int), key_j(k as int))
                            == Ok::<Option<(int, int)>, ()>(None);
                    assert(history_at(v0.tables[len], k, v2));
                }
            }
            assert(current@ == extended_previous(v0, n));
        }
        let ok = self.apply_all_pairs(&mut current, &new_pairs);
        let ghost v4 = self.view();
        let ghost steps = choose|steps: Seq<(int, int)>|
            replay(extended_previous(v0, n), steps) == Some(current@) && forall|a: P1KEY, b: P1KEY|
                #[trigger] precedes(v4, a, b) <==> (precedes(v2, a, b) || displaced(
                    extended_previous(v0, n),
                    steps,
                    a,
                    b,
                ));
        proof {
            lemma_history_grows(v2, v4);
            assert(replay(extended_previous(v0, n), steps) == Some(current@));
        }
        if !ok {
            proof {
                let x = choose|x: int|
                    0 <= x < new_pairs@.len() && blocked_in(current@, v4, new_pairs@[x]);
                assert(new_pairs@.to_set().contains(new_pairs@[x]));
                assert(moves_explain(v0, v4, pair_table@, n, false));
            }
            return false;
        }
        if !current.same_as(pair_table) {
            proof {
                assert(moves_explain(v0, v4, pair_table@, n, false));
            }
            return false;
        }
        if !self.dependencies_form_dag() {
            proof {
                assert(moves_explain(v0, v4, pair_table@, n, false));
            }
            return false;
        }
        let ghost v3 = self.view();
        int_map_insert(&mut self.pair_tables, n, current);
        proof {
            let v = self.view();
            assert(v.gt == v3.gt && v.lt == v3.lt && v.pairs == v3.pairs);
            assert(v.tables =~= v0.tables.insert(n, pair_table@));
            assert forall|a: P1KEY, b: P1KEY| #[trigger] precedes(v, a, b) == precedes(v3, a, b) by {}
            let rank = choose|rank: Map<P1KEY, int>| ranks_respect(v3, rank);
            assert(ranks_respect(v, rank));
            lemma_history_grows(v2, v);
            assert(v3.tables == v0.tables);
            lemma_po_wf_insert_table(v3, v, n, pair_table@);
            assert(moves_explain(v0, v, pair_table@, n, true));
        }
        true
    }
}

impl PartialOrder {
    /// Store the first table of a chain.
    fn start_chain(&mut self, pair_table: &PairTable, new_pairs: &Vec<P1KEY>)
        requires
            po_wf(old(self).view()),
            old(self).view().tables.dom() == Set::<P1KEY>::empty(),
            table_wf(pair_table@),
            1 <= pair_table@.len() <= 65535,
            new_pairs@.to_set() == table_keys(pair_table@),
            forall|x: int| 0 <= x < new_pairs@.len() ==> valid_key(#[trigger] new_pairs@[x] as int),
        ensures
            po_wf(final(self).view()),
            final(self).view().tables == old(self).view().tables.insert(
                pair_table@.len() as P1KEY,
                pair_table@,
            ),
            final(self).view().pairs == old(self).view().pairs.union(table_keys(pair_table@)),
            acyclic(final(self).view()),
            forall|a: P1KEY, b: P1KEY| !#[trigger] precedes(final(self).view(), a, b),
            final(self).view().gt == old(self).view().gt,
            final(self).view().lt == old(self).view().lt,
    {
        let ghost v0 = self.view();
        let n = pair_table.len() as P1KEY;
        self.add_pairs(new_pairs);
        let ghost va = self.view();
        let stored = pair_table.duplicate();
        int_map_insert(&mut self.pair_tables, n, stored);
        proof {
            let v = self.view();
            assert(v.gt == va.gt && v.lt == va.lt && v.pairs == va.pairs);
            assert(v.tables =~= v0.tables.insert(n, pair_table@));
            assert forall|a: P1KEY, b: P1KEY| !#[trigger] precedes(v, a, b) by {
                if precedes(v, a, b) {
                    assert(precedes(va, a, b));
                    assert(precedes(v0, a, b));
                }
            }
            let rank = Map::<P1KEY, int>::empty();
            assert(ranks_respect(v, rank));
            assert(new_pairs@.to_set() == table_keys(pair_table@));
            lemma_po_wf_insert_table(va, v, n, pair_table@);
        }
    }
}

impl PartialOrder {
    /// Test the new pairs against every stored table: none may form there
    /// directly, and each that would displace a pair there must precede it.
    fn check_history(&mut self, new_pairs: &Vec<P1KEY>, keys: Ghost<Set<P1KEY>>, lens: &Vec<P1KEY>) -> (ok: bool)
        requires
            po_wf(old(self).view()),
            old(self).view().tables.dom() != Set::<P1KEY>::empty(),
            lens@.to_set() == old(self).view().tables.dom(),
            new_pairs@.to_set() == keys@,
            keys@.subset_of(old(self).view().pairs),
            forall|x: int| 0 <= x < new_pairs@.len() ==> valid_key(#[trigger] new_pairs@[x] as int),
        ensures
            po_wf(final(self).view()),
            final(self).view().pairs == old(self).view().pairs,
            final(self).view().tables == old(self).view().tables,
            forall|a: P1KEY, b: P1KEY|
                #[trigger] precedes(old(self).view(), a, b) ==> precedes(final(self).view(), a, b),
            ok ==> history_ok(old(self).view().tables, keys@, final(self).view()),
            !ok ==> forms_directly(old(self).view().tables, keys@),
            forall|a: P1KEY, b: P1KEY|
                #[trigger] precedes(final(self).view(), a, b) ==> precedes(old(self).view(), a, b)
                    || history_edge(old(self).view().tables, keys@, a, b),
    {
        let ghost v0 = self.view();
        let mut y: usize = 0;
        while y < lens.len()
            invariant
                v0 == old(self).view(),
                keys@.subset_of(v0.pairs),
                po_wf(self.view()),
                self.view().pairs == v0.pairs,
                self.view().tables == v0.tables,
                                v0.tables.dom() != Set::<P1KEY>::empty(),
                                lens@.to_set() == v0.tables.dom(),
                new_pairs@.to_set() == keys@,
                forall|x: int| 0 <= x < new_pairs@.len() ==> valid_key(#[trigger] new_pairs@[x] as int),
                forall|a: P1KEY, b: P1KEY| #[trigger] precedes(v0, a, b) ==> precedes(self.view(), a, b),
                forall|a: P1KEY, b: P1KEY|
                    #[trigger] precedes(self.view(), a, b) ==> precedes(v0, a, b) || history_edge(
                        v0.tables,
                        keys@,
                        a,
                        b,
                    ),
                y <= lens@.len(),
                forall|w: int, z: int|
                    0 <= w < y && 0 <= z < new_pairs@.len() && key_j(#[trigger] new_pairs@[z] as int)
                        < #[trigger] lens@[w] ==> history_at(
                        v0.tables[lens@[w]],
                        new_pairs@[z],
                        self.view(),
                    ),
            decreases lens@.len() - y,
        {
            let len = lens[y];
            proof {
                assert(lens@.to_set().contains(len));
            }
            let earlier = int_map_get(&self.pair_tables, len).unwrap().duplicate();
            let ghost te = earlier@;
            let mut x: usize = 0;
            while x < new_pairs.len()
                invariant
                    v0 == old(self).view(),
                    keys@.subset_of(v0.pairs),
                    po_wf(self.view()),
                    self.view().pairs == v0.pairs,
                    self.view().tables == v0.tables,
                    v0.tables.dom() != Set::<P1KEY>::empty(),
                                            v0.tables.contains_key(len),
                    len == lens@[y as int],
                    y < lens@.len(),
                    te == v0.tables[len],
                    earlier@ == te,
                    new_pairs@.to_set() == keys@,
                    forall|x: int| 0 <= x < new_pairs@.len() ==> valid_key(#[trigger] new_pairs@[x] as int),
                    forall|a: P1KEY, b: P1KEY| #[trigger] precedes(v0, a, b) ==> precedes(self.view(), a, b),
                forall|a: P1KEY, b: P1KEY|
                    #[trigger] precedes(self.view(), a, b) ==> precedes(v0, a, b) || history_edge(
                        v0.tables,
                        keys@,
                        a,
                        b,
                    ),
                    forall|a: P1KEY, b: P1KEY|
                        #[trigger] precedes(self.view(), a, b) ==> precedes(v0, a, b) || history_edge(
                            v0.tables,
                            keys@,
                            a,
                            b,
                        ),
                    x <= new_pairs@.len(),
                    forall|w: int, z: int|
                        0 <= w < y && 0 <= z < new_pairs@.len() && key_j(#[trigger] new_pairs@[z] as int)
                            < #[trigger] lens@[w] ==> history_at(
                            v0.tables[lens@[w]],
                            new_pairs@[z],
                            self.view(),
                        ),
                    forall|z: int|
                        0 <= z < x && key_j(#[trigger] new_pairs@[z] as int) < len ==> history_at(
                            te,
                            new_pairs@[z],
                            self.view(),
                        ),
                decreases new_pairs@.len() - x,
            {
                let key = new_pairs[x];
                let ghost before = self.view();
                proof {
                    assert(new_pairs@.to_set().contains(key));
                    assert(key & 0xFFFFu32 == key % 65536) by (bit_vector);
                }
                if (key & 0xFFFFu32) < len {
                    let pair = Pair::from_key(key);
                    let ghost (pi, pj) = pair@;
                    match earlier.try_move(pair) {
                        Ok(Some(old)) => {
                            proof {
                                lemma_displaced_is_pair(te, pi, pj);
                            }
                            if old != pair {
                                let old_key = old.key();
                                proof {
                                    if old@ == pair@ {
                                        crate::pair::lemma_pair_view_injective(old, pair);
                                    }
                                    crate::structures::lemma_key_of_parts(pi, pj);
                                    assert(history_edge(v0.tables, keys@, key, old_key));
                                }
                                self.add_precedence(key, old_key);
                            } else {
                                proof {
                                    crate::pair::lemma_pair_view_injective(old, pair);
                                }
                            }
                        },
                        Ok(None) => {
                            proof {
                                crate::structures::lemma_key_of_parts(pi, pj);
                                assert(keys@.contains(key));
                                assert(forms_directly(v0.tables, keys@));
                            }
                            return false;
                        },
                        Err(_) => {},
                    }
                }
                proof {
                    lemma_history_grows(before, self.view());
                }
                x += 1;
            }
            y += 1;
        }
        proof {
            let v = self.view();
            assert forall|len: P1KEY, k: P1KEY|
                #[trigger] v0.tables.contains_key(len) && #[trigger] keys@.contains(k)
                    && key_j(k as int) < len implies history_at(v0.tables[len], k, v) by {
                assert(lens@.to_set().contains(len));
                let w = choose|w: int| 0 <= w < lens@.len() && lens@[w] == len;
                assert(new_pairs@.to_set().contains(k));
                let z = choose|z: int| 0 <= z < new_pairs@.len() && new_pairs@[z] == k;
            }
        }
        true
    }
}

/// Storing a well-formed table of known pairs keeps the invariant.
proof fn lemma_po_wf_insert_table(
    v3: PartialOrderView,
    v: PartialOrderView,
    n: P1KEY,
    t: Seq<Option<u16>>,
)
    requires
        po_wf(v3),
        v.pairs == v3.pairs,
        v.gt == v3.gt,
        v.lt == v3.lt,
        v.tables == v3.tables.insert(n, t),
        table_wf(t),
        t.len() == n,
        table_keys(t).subset_of(v.pairs),
    ensures
        po_wf(v),
{
    assert forall|a: P1KEY, b: P1KEY| #[trigger] precedes(v, a, b) <==> (v.lt.contains_key(b)
        && v.lt[b].contains(a)) by {
        assert(precedes(v3, a, b) <==> (v3.lt.contains_key(b) && v3.lt[b].contains(a)));
    }
    assert forall|a: P1KEY, b: P1KEY| #[trigger] precedes(v, a, b) implies v.pairs.contains(a)
        && v.pairs.contains(b) by {
        assert(precedes(v3, a, b));
    }
    assert forall|m: P1KEY| #[trigger] v.tables.contains_key(m) implies table_wf(v.tables[m])
        && v.tables[m].len() == m && table_keys(v.tables[m]).subset_of(v.pairs) by {
        if m != n {
            assert(v3.tables.contains_key(m));
        }
    }
    assert(v.tables.contains_key(n));
}

/// Other tables exist, but not the one of the previous length.
pub open spec fn previous_missing(v: PartialOrderView, n: P1KEY) -> bool {
    v.tables.dom() != Set::<P1KEY>::empty() && !v.tables.contains_key((n - 1) as P1KEY)
}

/// The table of the previous length, extended by one unpaired position.
pub open spec fn extended_previous(v: PartialOrderView, n: P1KEY) -> Seq<Option<u16>> {
    v.tables[(n - 1) as P1KEY].push(None)
}

/// The single moves an extension made from the extended previous table: each
/// moves in a pair of `pt`, each displacement is kept as a precedence, and
/// every precedence added comes from the history or from a displacement on the
/// way; on success they reach `pt`; on a rejection not due to the history,
/// they stopped with a new pair blocked, or reached another table, or the
/// precedences have a cycle.
pub open spec fn moves_explain(
    v0: PartialOrderView,
    v: PartialOrderView,
    pt: Seq<Option<u16>>,
    n: P1KEY,
    r: bool,
) -> bool {
    let keys = table_keys(pt);
    let ext = extended_previous(v0, n);
    exists|steps: Seq<(int, int)>|
        #[trigger] replay(ext, steps) is Some && {
            let t = replay(ext, steps)->Some_0;
            &&& forall|m: int|
                0 <= m < steps.len() ==> keys.contains(key_of(#[trigger] steps[m].0, steps[m].1) as P1KEY)
            &&& forall|a: P1KEY, b: P1KEY| #[trigger] displaced(ext, steps, a, b) ==> precedes(v, a, b)
            &&& forall|a: P1KEY, b: P1KEY|
                #[trigger] precedes(v, a, b) ==> precedes(v0, a, b) || history_edge(
                    v0.tables,
                    keys,
                    a,
                    b,
                ) || displaced(ext, steps, a, b)
            &&& r ==> t == pt
            &&& (!r && !forms_directly(v0.tables, keys)) ==> ((exists|k: P1KEY|
                keys.contains(k) && #[trigger] blocked_in(t, v, k)) || t != pt || !acyclic(v))
        }
}

/// The table after moving pair `p` in, as a single move does.
pub open spec fn move_step(t: Seq<Option<u16>>, p: (int, int)) -> Seq<Option<u16>> {
    moved_table(t, move_outcome(t, p.0, p.1)->Ok_0, p)
}

/// Pair `p` can be moved into `t`: it is not there yet and a single move forms it.
pub open spec fn step_allowed(t: Seq<Option<u16>>, p: (int, int)) -> bool {
    &&& 0 <= p.0 < p.1 < t.len()
    &&& move_outcome(t, p.0, p.1) is Ok
    &&& move_outcome(t, p.0, p.1) != Ok::<Option<(int, int)>, ()>(Some(p))
}

/// The table reached from `t` by moving in the pairs of `steps` in order, if
/// every one of them is a single move.
pub open spec fn replay(t: Seq<Option<u16>>, steps: Seq<(int, int)>) -> Option<Seq<Option<u16>>>
    decreases steps.len(),
{
    if steps.len() == 0 {
        Some(t)
    } else {
        match replay(t, steps.drop_last()) {
            Some(t1) => if step_allowed(t1, steps.last()) {
                Some(move_step(t1, steps.last()))
            } else {
                None
            },
            None => None,
        }
    }
}

/// Step `n` of `steps` from `t` moves pair `b` in by displacing pair `a`.
pub open spec fn displaces_at(
    t: Seq<Option<u16>>,
    steps: Seq<(int, int)>,
    n: int,
    a: P1KEY,
    b: P1KEY,
) -> bool {
    &&& replay(t, steps.take(n)) is Some
    &&& match move_outcome(replay(t, steps.take(n))->Some_0, steps[n].0, steps[n].1) {
        Ok(Some(q)) => a as int == key_of(q.0, q.1) && b as int == key_of(steps[n].0, steps[n].1),
        _ => false,
    }
}

/// Some step of `steps` from `t` moves pair `b` in by displacing pair `a`.
pub open spec fn displaced(t: Seq<Option<u16>>, steps: Seq<(int, int)>, a: P1KEY, b: P1KEY) -> bool {
    exists|n: int| 0 <= n < steps.len() && #[trigger] displaces_at(t, steps, n, a, b)
}

/// Pair `k` is missing from `t` and cannot move in now: no single move forms
/// it, or it would displace a pair it is known to precede.
pub open spec fn blocked_in(t: Seq<Option<u16>>, v: PartialOrderView, k: P1KEY) -> bool {
    &&& !table_keys(t).contains(k)
    &&& match move_outcome(t, key_i(k as int), key_j(k as int)) {
        Err(_) => true,
        Ok(Some(q)) => q != (key_i(k as int), key_j(k as int)) && precedes(v, k, key_of(q.0, q.1) as P1KEY),
        Ok(None) => false,
    }
}

/// One more single move extends a replay.
proof fn lemma_replay_push(t: Seq<Option<u16>>, steps: Seq<(int, int)>, t1: Seq<Option<u16>>, p: (int, int))
    requires
        replay(t, steps) == Some(t1),
        step_allowed(t1, p),
    ensures
        replay(t, steps.push(p)) == Some(move_step(t1, p)),
        forall|a: P1KEY, b: P1KEY|
            #[trigger] displaced(t, steps.push(p), a, b) <==> (displaced(t, steps, a, b) || match move_outcome(t1, p.0, p.1) {
                Ok(Some(q)) => a as int == key_of(q.0, q.1) && b as int == key_of(p.0, p.1),
                _ => false,
            }),
{
    let s2 = steps.push(p);
    assert(s2.drop_last() =~= steps);
    assert(s2.take(steps.len() as int) =~= steps);
    assert forall|n: int| 0 <= n < steps.len() implies #[trigger] s2.take(n) == steps.take(n) && s2[n] == steps[n] by {
        assert(s2.take(n) =~= steps.take(n));
    }
    assert forall|a: P1KEY, b: P1KEY| #[trigger] displaced(t, s2, a, b) <==> (displaced(t, steps, a, b) || match move_outcome(t1, p.0, p.1) {
        Ok(Some(q)) => a as int == key_of(q.0, q.1) && b as int == key_of(p.0, p.1),
        _ => false,
    }) by {
        if displaced(t, s2, a, b) {
            let n = choose|n: int| 0 <= n < s2.len() && #[trigger] displaces_at(t, s2, n, a, b);
            if n < steps.len() {
                assert(s2.take(n) == steps.take(n));
                assert(displaces_at(t, steps, n, a, b));
            }
        }
        if displaced(t, steps, a, b) {
            let n = choose|n: int| 0 <= n < steps.len() && #[trigger] displaces_at(t, steps, n, a, b);
            assert(s2.take(n) == steps.take(n));
            assert(displaces_at(t, s2, n, a, b));
        }
        if match move_outcome(t1, p.0, p.1) {
            Ok(Some(q)) => a as int == key_of(q.0, q.1) && b as int == key_of(p.0, p.1),
            _ => false,
        } {
            assert(displaces_at(t, s2, steps.len() as int, a, b));
        }
    }
}

/// A pair of the table is there already: its move changes nothing.
proof fn lemma_present_outcome(t: Seq<Option<u16>>, k: P1KEY)
    requires
        table_wf(t),
        valid_key(k as int),
        table_keys(t).contains(k),
    ensures
        move_outcome(t, key_i(k as int), key_j(k as int)) == Ok::<Option<(int, int)>, ()>(
            Some((key_i(k as int), key_j(k as int))),
        ),
{
    let a = choose|a: int|
        0 <= a < t.len() && #[trigger] opens_at(t, a) && k as int == key_of(a, partner(t, a));
    let b = partner(t, a);
    assert(key_i(k as int) == a && key_j(k as int) == b) by (nonlinear_arith)
        requires
            k as int == a * 65536 + b,
            0 <= a < 65536,
            0 <= b < 65536,
    ;
    assert(t[b] == Some(a as u16));
}

/// Some earlier table could have formed one of `keys` directly, without
/// displacing a pair.
pub open spec fn forms_directly(tables: Map<P1KEY, Seq<Option<u16>>>, keys: Set<P1KEY>) -> bool {
    exists|len: P1KEY, k: P1KEY|
        #[trigger] tables.contains_key(len) && #[trigger] keys.contains(k) && key_j(k as int) < len
            && move_outcome(tables[len], key_i(k as int), key_j(k as int)) == Ok::<
            Option<(int, int)>,
            (),
        >(None)
}

/// `a` of `keys` would have displaced `b` in some earlier table, so `a` must
/// form before `b`.
pub open spec fn history_edge(
    tables: Map<P1KEY, Seq<Option<u16>>>,
    keys: Set<P1KEY>,
    a: P1KEY,
    b: P1KEY,
) -> bool {
    exists|len: P1KEY|
        #[trigger] tables.contains_key(len) && keys.contains(a) && key_j(a as int) < len && match move_outcome(
            tables[len],
            key_i(a as int),
            key_j(a as int),
        ) {
            Ok(Some(q)) => q != (key_i(a as int), key_j(a as int)) && b as int == key_of(q.0, q.1),
            _ => false,
        }
}

/// The history conditions for one table and one pair.
pub open spec fn history_at(t: Seq<Option<u16>>, k: P1KEY, v: PartialOrderView) -> bool {
    let out = move_outcome(t, key_i(k as int), key_j(k as int));
    &&& out != Ok::<Option<(int, int)>, ()>(None)
    &&& match out {
        Ok(Some(q)) => q != (key_i(k as int), key_j(k as int)) ==> precedes(
            v,
            k,
            key_of(q.0, q.1) as P1KEY,
        ),
        _ => true,
    }
}

/// History conditions survive added precedences.
proof fn lemma_history_grows(v0: PartialOrderView, v1: PartialOrderView)
    requires
        forall|a: P1KEY, b: P1KEY| #[trigger] precedes(v0, a, b) ==> precedes(v1, a, b),
    ensures
        forall|t: Seq<Option<u16>>, k: P1KEY| #[trigger] history_at(t, k, v0) ==> history_at(t, k, v1),
{
}

/// An appended unpaired position adds no pair.
proof fn lemma_append_keys(t: Seq<Option<u16>>)
    ensures
        table_keys(t.push(None)) == table_keys(t),
{
    let t2 = t.push(None);
    assert forall|k: P1KEY| table_keys(t2).contains(k) == table_keys(t).contains(k) by {
        if table_keys(t2).contains(k) {
            let a = choose|a: int|
                0 <= a < t2.len() && #[trigger] opens_at(t2, a) && k as int == key_of(a, partner(t2, a));
            assert(opens_at(t, a));
        }
        if table_keys(t).contains(k) {
            let a = choose|a: int|
                0 <= a < t.len() && #[trigger] opens_at(t, a) && k as int == key_of(a, partner(t, a));
            assert(opens_at(t2, a));
        }
    }
    assert(table_keys(t2) =~= table_keys(t));
}

} // verus!

verus! {

/// A prefix of an order: no pair twice, every pair known, and each pair's
/// earlier pairs placed before it.
pub open spec fn order_prefix(v: PartialOrderView, s: Seq<P1KEY>) -> bool {
    &&& s.no_duplicates()
    &&& forall|y: int| 0 <= y < s.len() ==> v.pairs.contains(#[trigger] s[y])
    &&& forall|y: int, a: P1KEY|
        0 <= y < s.len() && #[trigger] precedes(v, a, s[y]) ==> exists|z: int|
            0 <= z < y && s[z] == a
}

/// `l` starts with `c`.
pub open spec fn extends(l: Seq<P1KEY>, c: Seq<P1KEY>) -> bool {
    c.len() <= l.len() && l.subrange(0, c.len() as int) == c
}

/// The orders collected in one branch of the search keep the earlier ones and
/// account for every order whose next pair is the branch's pair.
proof fn lemma_dfs_branch(
    v: PartialOrderView,
    nodes: Seq<P1KEY>,
    c0: Seq<P1KEY>,
    k: P1KEY,
    x: int,
    a0: int,
    all0: Seq<Vec<P1KEY>>,
    pre: Seq<Vec<P1KEY>>,
    post: Seq<Vec<P1KEY>>,
)
    requires
        nodes.no_duplicates(),
        0 <= x < nodes.len(),
        nodes[x] == k,
        a0 == all0.len(),
        a0 <= pre.len(),
        pre.subrange(0, a0) == all0,
        forall|y: int|
            a0 <= y < pre.len() ==> extends(#[trigger] pre[y]@, c0) && pre[y]@.len() > c0.len()
                && exists|z: int| 0 <= z < x && pre[y]@[c0.len() as int] == nodes[z],
        forall|y1: int, y2: int| a0 <= y1 < y2 < pre.len() ==> #[trigger] pre[y1]@ != #[trigger] pre[y2]@,
        forall|z: int, l: Seq<P1KEY>|
            0 <= z < x && #[trigger] linear_extension(v, l) && extends(l, c0) && l.len() > c0.len()
                && l[c0.len() as int] == #[trigger] nodes[z] ==> exists|y: int|
                a0 <= y < pre.len() && pre[y]@ == l,
        post.len() >= pre.len(),
        post.subrange(0, pre.len() as int) == pre,
        forall|y: int| pre.len() <= y < post.len() ==> extends(#[trigger] post[y]@, c0.push(k)),
        forall|y1: int, y2: int|
            pre.len() <= y1 < y2 < post.len() ==> #[trigger] post[y1]@ != #[trigger] post[y2]@,
        forall|l: Seq<P1KEY>|
            #[trigger] linear_extension(v, l) && extends(l, c0.push(k)) ==> exists|y: int|
                pre.len() <= y < post.len() && post[y]@ == l,
    ensures
        post.subrange(0, a0) == all0,
        forall|y: int|
            a0 <= y < post.len() ==> extends(#[trigger] post[y]@, c0) && post[y]@.len() > c0.len()
                && exists|z: int| 0 <= z < x + 1 && post[y]@[c0.len() as int] == nodes[z],
        forall|y1: int, y2: int| a0 <= y1 < y2 < post.len() ==> #[trigger] post[y1]@ != #[trigger] post[y2]@,
        forall|z: int, l: Seq<P1KEY>|
            0 <= z < x + 1 && #[trigger] linear_extension(v, l) && extends(l, c0) && l.len() > c0.len()
                && l[c0.len() as int] == #[trigger] nodes[z] ==> exists|y: int|
                a0 <= y < post.len() && post[y]@ == l,
{
    assert forall|y: int| 0 <= y < pre.len() implies #[trigger] post[y] == pre[y] by {
        assert(post.subrange(0, pre.len() as int)[y] == post[y]);
    }
    assert(post.subrange(0, a0) =~= all0) by {
        assert forall|y: int| 0 <= y < a0 implies post.subrange(0, a0)[y] == all0[y] by {
            assert(pre.subrange(0, a0)[y] == pre[y]);
        }
    }
    assert forall|y: int| pre.len() <= y < post.len() implies extends(#[trigger] post[y]@, c0)
        && post[y]@.len() > c0.len() && post[y]@[c0.len() as int] == k by {
        let c1 = c0.push(k);
        assert(post[y]@.subrange(0, c1.len() as int) == c1);
        assert(post[y]@.subrange(0, c1.len() as int)[c0.len() as int] == post[y]@[c0.len() as int]);
        assert(post[y]@.subrange(0, c0.len() as int) =~= c0) by {
            assert forall|i: int| 0 <= i < c0.len() implies post[y]@.subrange(0, c0.len() as int)[i]
                == c0[i] by {
                assert(post[y]@.subrange(0, c1.len() as int)[i] == post[y]@[i]);
            }
        }
    }
    assert forall|y: int|
        a0 <= y < post.len() implies extends(#[trigger] post[y]@, c0) && post[y]@.len() > c0.len()
        && exists|z: int| 0 <= z < x + 1 && post[y]@[c0.len() as int] == nodes[z] by {
        if y < pre.len() {
            assert(post[y] == pre[y]);
            let z = choose|z: int| 0 <= z < x && pre[y]@[c0.len() as int] == nodes[z];
        } else {
            assert(post[y]@[c0.len() as int] == nodes[x]);
        }
    }
    assert forall|y1: int, y2: int| a0 <= y1 < y2 < post.len() implies #[trigger] post[y1]@
        != #[trigger] post[y2]@ by {
        if y2 < pre.len() {
            assert(post[y1] == pre[y1] && post[y2] == pre[y2]);
        } else if y1 < pre.len() {
            assert(post[y1] == pre[y1]);
            let z = choose|z: int| 0 <= z < x && pre[y1]@[c0.len() as int] == nodes[z];
            assert(post[y2]@[c0.len() as int] == k);
            assert(nodes[z] != nodes[x]);
        }
    }
    assert forall|z: int, l: Seq<P1KEY>|
        0 <= z < x + 1 && #[trigger] linear_extension(v, l) && extends(l, c0) && l.len() > c0.len()
            && l[c0.len() as int] == #[trigger] nodes[z] implies exists|y: int|
        a0 <= y < post.len() && post[y]@ == l by {
        if z < x {
            let y = choose|y: int| a0 <= y < pre.len() && pre[y]@ == l;
            assert(post[y] == pre[y]);
        } else {
            let c1 = c0.push(k);
            assert(l.subrange(0, c1.len() as int) =~= c1) by {
                assert forall|i: int| 0 <= i < c1.len() implies l.subrange(0, c1.len() as int)[i]
                    == c1[i] by {
                    if i < c0.len() {
                        assert(l.subrange(0, c0.len() as int)[i] == l[i]);
                    }
                }
            }
            assert(extends(l, c1));
        }
    }
}

/// No order extending `c` continues with a pair that is placed already or
/// whose earlier pairs are not all placed.
proof fn lemma_dfs_skip(v: PartialOrderView, c: Seq<P1KEY>, k: P1KEY, placed: bool)
    requires
        placed == c.contains(k),
        !(!placed && forall|a: P1KEY| #[trigger] precedes(v, a, k) ==> c.contains(a)),
    ensures
        forall|l: Seq<P1KEY>|
            #[trigger] linear_extension(v, l) && extends(l, c) && l.len() > c.len() ==> l[c.len() as int]
                != k,
{
    assert forall|l: Seq<P1KEY>|
        #[trigger] linear_extension(v, l) && extends(l, c) && l.len() > c.len() implies l[c.len() as int]
        != k by {
        if l[c.len() as int] == k {
            if placed {
                let i = choose|i: int| 0 <= i < c.len() && c[i] == k;
                assert(l.subrange(0, c.len() as int)[i] == l[i]);
                assert(l[i] == l[c.len() as int]);
            } else {
                let a = choose|a: P1KEY| #[trigger] precedes(v, a, k) && !c.contains(a);
                assert(precedes(v, a, l[c.len() as int]));
                let z = choose|z: int| 0 <= z < c.len() && l[z] == a;
                assert(l.subrange(0, c.len() as int)[z] == l[z]);
                assert(c.contains(a));
            }
        }
    }
}

/// A linear extension of the precedences: every pair exactly once, each after
/// all pairs that precede it.
pub open spec fn linear_extension(v: PartialOrderView, s: Seq<P1KEY>) -> bool {
    order_prefix(v, s) && s.to_set() == v.pairs
}

/// Without a cycle, some pair not yet in a proper prefix has all its earlier
/// pairs in it.
proof fn lemma_available(v: PartialOrderView, nodes: Seq<P1KEY>, c: Seq<P1KEY>) -> (x: int)
    requires
        po_wf(v),
        acyclic(v),
        nodes.to_set() == v.pairs,
        nodes.no_duplicates(),
        c.no_duplicates(),
        c.len() < nodes.len(),
        forall|y: int| 0 <= y < c.len() ==> v.pairs.contains(#[trigger] c[y]),
    ensures
        0 <= x < nodes.len(),
        !c.contains(nodes[x]),
        forall|a: P1KEY| #[trigger] precedes(v, a, nodes[x]) ==> c.contains(a),
{
    // some pair is missing from the prefix
    if forall|y: int| 0 <= y < nodes.len() ==> c.contains(#[trigger] nodes[y]) {
        assert(nodes.to_set().subset_of(c.to_set()));
        nodes.unique_seq_to_set();
        c.unique_seq_to_set();
        vstd::set_lib::lemma_len_subset(nodes.to_set(), c.to_set());
    }
    let u = choose|y: int| 0 <= y < nodes.len() && !c.contains(#[trigger] nodes[y]);
    if forall|a: P1KEY| #[trigger] precedes(v, a, nodes[u]) ==> c.contains(a) {
        u
    } else {
        let rank = choose|rank: Map<P1KEY, int>| ranks_respect(v, rank);
        let good = Set::new(|q: P1KEY| !c.contains(q));
        let a0 = choose|a: P1KEY| #[trigger] precedes(v, a, nodes[u]) && !c.contains(a);
        assert(rank.contains_key(nodes[u]));
        assert(good.contains(nodes[u]));
        let m = lemma_min_rank(nodes, good, rank);
        let ym = choose|y: int| 0 <= y < nodes.len() && nodes[y] == m;
        assert forall|a: P1KEY| #[trigger] precedes(v, a, nodes[ym]) implies c.contains(a) by {
            if !c.contains(a) {
                assert(rank[a] < rank[m]);
                assert(nodes.to_set().contains(a));
                let ya = choose|y: int| 0 <= y < nodes.len() && nodes[y] == a;
                assert(good.contains(nodes[ya]) && rank.contains_key(nodes[ya]));
            }
        }
        ym
    }
}

/// Whether `k` occurs in `s`.
fn seq_contains(s: &Vec<P1KEY>, k: P1KEY) -> (r: bool)
    ensures
        r == s@.contains(k),
{
    let mut x: usize = 0;
    while x < s.len()
        invariant
            x <= s@.len(),
            forall|y: int| 0 <= y < x ==> s@[y] != k,
        decreases s@.len() - x,
    {
        if s[x] == k {
            return true;
        }
        x += 1;
    }
    false
}

impl PartialOrder {
    /// Whether every pair that precedes `k` occurs in `placed`.
    fn preds_placed(&self, k: P1KEY, placed: &Vec<P1KEY>) -> (r: bool)
        requires
            po_wf(self.view()),
        ensures
            r == forall|a: P1KEY| #[trigger] precedes(self.view(), a, k) ==> placed@.contains(a),
    {
        let ghost v = self.view();
        let preds: Vec<P1KEY> = match int_map_get(&self.lt, k) {
            Some(s) => int_set_keys(s),
            None => Vec::new(),
        };
        let mut x: usize = 0;
        proof {
            assert forall|y: int| 0 <= y < preds@.len() implies #[trigger] precedes(v, preds@[y], k) by {
                assert(preds@.to_set().contains(preds@[y]));
            }
        }
        while x < preds.len()
            invariant
                v == self.view(),
                forall|y: int| 0 <= y < preds@.len() ==> #[trigger] precedes(v, preds@[y], k),
                x <= preds@.len(),
                forall|y: int| 0 <= y < x ==> placed@.contains(#[trigger] preds@[y]),
            decreases preds@.len() - x,
        {
            if !seq_contains(placed, preds[x]) {
                proof {
                    assert(precedes(v, preds@[x as int], k));
                }
                return false;
            }
            x += 1;
        }
        proof {
            assert forall|a: P1KEY| #[trigger] precedes(v, a, k) implies placed@.contains(a) by {
                assert(v.lt.contains_key(k) && v.lt[k].contains(a));
                assert(preds@.to_set().contains(a));
                let y = choose|y: int| 0 <= y < preds@.len() && preds@[y] == a;
            }
        }
        true
    }

    /// Extend the prefix `current` in every possible way, collecting the
    /// completed orders.
    fn dfs(&self, nodes: &Vec<P1KEY>, current: &mut Vec<P1KEY>, all: &mut Vec<Vec<P1KEY>>)
        requires
            po_wf(self.view()),
            nodes@.to_set() == self.view().pairs,
            nodes@.no_duplicates(),
            order_prefix(self.view(), old(current)@),
            forall|x: int| 0 <= x < old(all)@.len() ==> linear_extension(self.view(), #[trigger] old(all)@[x]@),
        ensures
            final(current)@ == old(current)@,
            forall|x: int| 0 <= x < final(all)@.len() ==> linear_extension(self.view(), #[trigger] final(all)@[x]@),
            final(all)@.len() >= old(all)@.len(),
            acyclic(self.view()) ==> final(all)@.len() > old(all)@.len(),
            final(all)@.subrange(0, old(all)@.len() as int) == old(all)@,
            forall|y: int|
                old(all)@.len() <= y < final(all)@.len() ==> extends(
                    #[trigger] final(all)@[y]@,
                    old(current)@,
                ),
            forall|y1: int, y2: int|
                old(all)@.len() <= y1 < y2 < final(all)@.len() ==> #[trigger] final(all)@[y1]@
                    != #[trigger] final(all)@[y2]@,
            forall|l: Seq<P1KEY>|
                #[trigger] linear_extension(self.view(), l) && extends(l, old(current)@) ==> exists|
                    y: int,
                | old(all)@.len() <= y < final(all)@.len() && final(all)@[y]@ == l,
        decreases nodes@.len() - old(current)@.len(),
    {
        let ghost v = self.view();
        proof {
            nodes@.unique_seq_to_set();
            current@.unique_seq_to_set();
            assert(current@.to_set().subset_of(v.pairs));
            vstd::set_lib::lemma_len_subset(current@.to_set(), v.pairs);
        }
        if current.len() >= nodes.len() {
            if current.len() == nodes.len() {
                proof {
                    nodes@.unique_seq_to_set();
                    current@.unique_seq_to_set();
                    assert(current@.to_set().subset_of(v.pairs));
                    vstd::set_lib::lemma_subset_equality(current@.to_set(), v.pairs);
                }
                let ghost all0 = all@;
                all.push(current.clone());
                proof {
                    assert(all@.subrange(0, all0.len() as int) =~= all0);
                    assert(extends(current@, current@)) by {
                        assert(current@.subrange(0, current@.len() as int) =~= current@);
                    }
                    assert forall|l: Seq<P1KEY>|
                        #[trigger] linear_extension(v, l) && extends(l, current@) implies exists|
                            y: int,
                        | all0.len() <= y < all@.len() && all@[y]@ == l by {
                        l.unique_seq_to_set();
                        assert(l =~= l.subrange(0, current@.len() as int));
                        assert(all@[all0.len() as int]@ == current@);
                    }
                }
            }
            return;
        }
        let ghost c0 = current@;
        let ghost a0 = all@.len();
        let ghost all0 = all@;
        let ghost xm: int = if acyclic(v) {
            lemma_available(v, nodes@, c0)
        } else {
            0
        };
        let mut x: usize = 0;
        while x < nodes.len()
            invariant
                v == self.view(),
                po_wf(v),
                nodes@.to_set() == v.pairs,
                nodes@.no_duplicates(),
                current@ == c0,
                old(current)@ == c0,
                c0.len() < nodes@.len(),
                order_prefix(v, c0),
                x <= nodes@.len(),
                forall|y: int| 0 <= y < all@.len() ==> linear_extension(v, #[trigger] all@[y]@),
                all@.len() >= a0,
                all0 == old(all)@,
                a0 == all0.len(),
                all@.subrange(0, a0 as int) == all0,
                forall|y: int|
                    a0 <= y < all@.len() ==> extends(#[trigger] all@[y]@, c0) && all@[y]@.len()
                        > c0.len() && exists|z: int| 0 <= z < x && all@[y]@[c0.len() as int] == nodes@[z],
                forall|y1: int, y2: int|
                    a0 <= y1 < y2 < all@.len() ==> #[trigger] all@[y1]@ != #[trigger] all@[y2]@,
                forall|z: int, l: Seq<P1KEY>|
                    0 <= z < x && #[trigger] linear_extension(v, l) && extends(l, c0) && l.len()
                        > c0.len() && l[c0.len() as int] == #[trigger] nodes@[z] ==> exists|y: int|
                        a0 <= y < all@.len() && all@[y]@ == l,
                acyclic(v) ==> 0 <= xm < nodes@.len() && !c0.contains(nodes@[xm]) && forall|a: P1KEY|
                    #[trigger] precedes(v, a, nodes@[xm]) ==> c0.contains(a),
                acyclic(v) && x > xm ==> all@.len() > a0,
            decreases nodes@.len() - x,
        {
            let k = nodes[x];
            if !seq_contains(current, k) && self.preds_placed(k, current) {
                current.push(k);
                proof {
                    let c1 = current@;
                    assert(c1 == c0.push(k));
                    assert(nodes@.to_set().contains(k));
                    assert forall|y: int, a: P1KEY|
                        0 <= y < c1.len() && #[trigger] precedes(v, a, c1[y]) implies exists|z: int|
                        0 <= z < y && c1[z] == a by {
                        if y < c0.len() {
                            let z = choose|z: int| 0 <= z < y && c0[z] == a;
                            assert(c1[z] == a);
                        } else {
                            assert(c0.contains(a));
                            let z = choose|z: int| 0 <= z < c0.len() && c0[z] == a;
                            assert(c1[z] == a);
                        }
                    }
                    assert forall|y1: int, y2: int| 0 <= y1 < c1.len() && 0 <= y2 < c1.len() && y1 != y2 implies c1[y1] != c1[y2] by {
                        if y1 == c0.len() {
                            assert(c1[y2] == c0[y2]);
                            assert(c0.contains(c0[y2]));
                        } else if y2 == c0.len() {
                            assert(c1[y1] == c0[y1]);
                            assert(c0.contains(c0[y1]));
                        }
                    }
                }
                assert(nodes@.len() - current@.len() < nodes@.len() - c0.len());
                let ghost pre = all@;
                self.dfs(nodes, current, all);
                current.pop();
                proof {
                    assert(current@ =~= c0);
                    lemma_dfs_branch(v, nodes@, c0, k, x as int, a0 as int, all0, pre, all@);
                }
            } else {
                proof {
                    lemma_dfs_skip(v, c0, k, current@.contains(k));
                }
            }
            x += 1;
        }
        proof {
            assert forall|l: Seq<P1KEY>|
                #[trigger] linear_extension(v, l) && extends(l, c0) implies exists|y: int|
                a0 <= y < all@.len() && all@[y]@ == l by {
                l.unique_seq_to_set();
                nodes@.unique_seq_to_set();
                assert(l.len() > c0.len());
                assert(l.to_set().contains(l[c0.len() as int]));
                assert(nodes@.to_set().contains(l[c0.len() as int]));
                let z = choose|z: int| 0 <= z < nodes@.len() && nodes@[z] == l[c0.len() as int];
                assert(l[c0.len() as int] == nodes@[z]);
            }
        }
    }

    /// Every linear extension of the precedences, each once; at least one when
    /// the precedences have no cycle.
    pub fn all_total_orders(&self) -> (r: Vec<Vec<P1KEY>>)
        requires
            po_wf(self.view()),
        ensures
            forall|x: int| 0 <= x < r@.len() ==> linear_extension(self.view(), #[trigger] r@[x]@),
            acyclic(self.view()) ==> r@.len() > 0,
            forall|x: int, y: int| 0 <= x < y < r@.len() ==> #[trigger] r@[x]@ != #[trigger] r@[y]@,
            forall|l: Seq<P1KEY>|
                #[trigger] linear_extension(self.view(), l) ==> exists|x: int|
                    0 <= x < r@.len() && r@[x]@ == l,
    {
        let nodes = int_set_keys(&self.all_pairs);
        let mut current: Vec<P1KEY> = Vec::new();
        let mut all: Vec<Vec<P1KEY>> = Vec::new();
        proof {
            assert(order_prefix(self.view(), current@));
        }
        self.dfs(&nodes, &mut current, &mut all);
        proof {
            assert forall|l: Seq<P1KEY>| #[trigger] linear_extension(self.view(), l) implies exists|
                x: int,
            | 0 <= x < all@.len() && all@[x]@ == l by {
                assert(l.subrange(0, 0) =~= Seq::<P1KEY>::empty());
                assert(extends(l, Seq::<P1KEY>::empty()));
            }
        }
        all
    }
}

} // verus!

verus! {

/// Some pair that precedes `k` has no level yet.
pub open spec fn blocked(v: PartialOrderView, levels: Map<P1KEY, usize>, k: P1KEY) -> bool {
    exists|a: P1KEY| #[trigger] precedes(v, a, k) && !levels.contains_key(a)
}

/// How many entries of `s` are outside `dom`.
pub open spec fn unlabeled(s: Seq<P1KEY>, dom: Set<P1KEY>) -> int
    decreases s.len(),
{
    if s.len() == 0 {
        0
    } else {
        unlabeled(s.drop_last(), dom) + if dom.contains(s.last()) {
            0int
        } else {
            1int
        }
    }
}

/// A count is never negative.
proof fn lemma_unlabeled_nonneg(s: Seq<P1KEY>, dom: Set<P1KEY>)
    ensures
        unlabeled(s, dom) >= 0,
    decreases s.len(),
{
    if s.len() > 0 {
        lemma_unlabeled_nonneg(s.drop_last(), dom);
    }
}

/// Labelling one more entry of `s` leaves fewer unlabelled entries.
proof fn lemma_unlabeled_insert(s: Seq<P1KEY>, dom: Set<P1KEY>, k: P1KEY)
    ensures
        unlabeled(s, dom.insert(k)) <= unlabeled(s, dom),
        s.contains(k) && !dom.contains(k) ==> unlabeled(s, dom.insert(k)) < unlabeled(s, dom),
        unlabeled(s, dom.insert(k)) >= 0,
    decreases s.len(),
{
    if s.len() > 0 {
        lemma_unlabeled_insert(s.drop_last(), dom, k);
        if s.contains(k) && !dom.contains(k) && s.last() != k {
            let y = choose|y: int| 0 <= y < s.len() && s[y] == k;
            assert(s.drop_last()[y] == k);
        }
    }
}

/// Giving `k` the level its earlier pairs determine keeps the levels consistent.
proof fn lemma_insert_level(v: PartialOrderView, before: Map<P1KEY, usize>, k: P1KEY, l: usize)
    requires
        levels_ok(v, before),
        !before.contains_key(k),
        v.pairs.contains(k),
        l >= 1,
        forall|a: P1KEY| #[trigger] precedes(v, a, k) ==> before.contains_key(a) && before[a] < l,
        (forall|a: P1KEY| !#[trigger] precedes(v, a, k)) ==> l == 1,
        (exists|a: P1KEY| #[trigger] precedes(v, a, k)) ==> exists|a: P1KEY|
            #[trigger] precedes(v, a, k) && l == before[a] + 1,
    ensures
        levels_ok(v, before.insert(k, l)),
{
    let after = before.insert(k, l);
    assert forall|q: P1KEY| #[trigger] after.contains_key(q) implies {
        &&& v.pairs.contains(q)
        &&& after[q] >= 1
        &&& forall|a: P1KEY|
            #[trigger] precedes(v, a, q) ==> after.contains_key(a) && after[a] < after[q]
        &&& (forall|a: P1KEY| !#[trigger] precedes(v, a, q)) ==> after[q] == 1
        &&& (exists|a: P1KEY| #[trigger] precedes(v, a, q)) ==> exists|a: P1KEY|
            #[trigger] precedes(v, a, q) && after[q] == after[a] + 1
    } by {
        if q != k {
            assert(before.contains_key(q));
            assert forall|a: P1KEY| #[trigger] precedes(v, a, q) implies after.contains_key(a)
                && after[a] < after[q] by {
                assert(before.contains_key(a));
            }
            if exists|a: P1KEY| #[trigger] precedes(v, a, q) {
                let a = choose|a: P1KEY| #[trigger] precedes(v, a, q) && before[q] == before[a] + 1;
                assert(before.contains_key(a));
                assert(after[a] == before[a]);
            }
        } else {
            assert forall|a: P1KEY| #[trigger] precedes(v, a, q) implies after.contains_key(a)
                && after[a] < after[q] by {
                assert(before.contains_key(a));
            }
            if exists|a: P1KEY| #[trigger] precedes(v, a, q) {
                let a = choose|a: P1KEY| #[trigger] precedes(v, a, k) && l == before[a] + 1;
                assert(before.contains_key(a));
                assert(after[a] == before[a]);
            }
        }
    }
}

/// An entry of `s` of least rank among those in `good` with a rank.
proof fn lemma_min_rank(s: Seq<P1KEY>, good: Set<P1KEY>, rank: Map<P1KEY, int>) -> (m: P1KEY)
    requires
        exists|y: int| 0 <= y < s.len() && good.contains(#[trigger] s[y]) && rank.contains_key(s[y]),
    ensures
        good.contains(m),
        rank.contains_key(m),
        s.contains(m),
        forall|y: int|
            0 <= y < s.len() && good.contains(#[trigger] s[y]) && rank.contains_key(s[y]) ==> rank[m]
                <= rank[s[y]],
    decreases s.len(),
{
    let last = s.last();
    let init = s.drop_last();
    if exists|y: int| 0 <= y < init.len() && good.contains(#[trigger] init[y]) && rank.contains_key(
        init[y],
    ) {
        let m0 = lemma_min_rank(init, good, rank);
        let y0 = choose|y: int| 0 <= y < init.len() && init[y] == m0;
        assert(s[y0] == m0);
        let m = if good.contains(last) && rank.contains_key(last) && rank[last] < rank[m0] {
            last
        } else {
            m0
        };
        assert forall|y: int|
            0 <= y < s.len() && good.contains(#[trigger] s[y]) && rank.contains_key(s[y]) implies rank[m]
            <= rank[s[y]] by {
            if y < init.len() {
                assert(init[y] == s[y]);
            }
        }
        assert(s[s.len() - 1] == last);
        m
    } else {
        let y = choose|y: int| 0 <= y < s.len() && good.contains(#[trigger] s[y]) && rank.contains_key(s[y]);
        if y < init.len() {
            assert(init[y] == s[y]);
        }
        assert(s[s.len() - 1] == last);
        assert forall|y2: int|
            0 <= y2 < s.len() && good.contains(#[trigger] s[y2]) && rank.contains_key(s[y2]) implies rank[last]
            <= rank[s[y2]] by {
            if y2 < init.len() {
                assert(init[y2] == s[y2]);
            }
        }
        last
    }
}

/// Without a cycle, a labelling in which every unlabelled pair is blocked
/// labels every pair.
proof fn lemma_all_levelled(v: PartialOrderView, nodes: Seq<P1KEY>, levels: Map<P1KEY, usize>, k: P1KEY)
    requires
        po_wf(v),
        acyclic(v),
        nodes.to_set() == v.pairs,
        forall|y: int|
            0 <= y < nodes.len() ==> levels.contains_key(#[trigger] nodes[y]) || blocked(v, levels, nodes[y]),
        v.pairs.contains(k),
    ensures
        levels.contains_key(k),
{
    if !levels.contains_key(k) {
        let rank = choose|rank: Map<P1KEY, int>| ranks_respect(v, rank);
        let good = Set::new(|q: P1KEY| !levels.contains_key(q));
        assert(nodes.to_set().contains(k));
        let yk = choose|y: int| 0 <= y < nodes.len() && nodes[y] == k;
        assert(blocked(v, levels, nodes[yk]));
        let a0 = choose|a: P1KEY| #[trigger] precedes(v, a, k) && !levels.contains_key(a);
        assert(rank.contains_key(k));
        assert(good.contains(nodes[yk]));
        let m = lemma_min_rank(nodes, good, rank);
        let ym = choose|y: int| 0 <= y < nodes.len() && nodes[y] == m;
        assert(blocked(v, levels, nodes[ym]));
        let a = choose|a: P1KEY| #[trigger] precedes(v, a, m) && !levels.contains_key(a);
        assert(rank[a] < rank[m]);
        assert(v.pairs.contains(a));
        assert(nodes.to_set().contains(a));
        let ya = choose|y: int| 0 <= y < nodes.len() && nodes[y] == a;
        assert(good.contains(nodes[ya]) && rank.contains_key(nodes[ya]));
        assert(rank[m] <= rank[a]);
    }
}

} // verus!
