//! The loop index of a structure: which loop each position belongs to.
use vstd::prelude::*;

use vstd::string::*;

use crate::pair::NAIDX;
use crate::text::{decimal, push_decimal};
use crate::pair_table::{nested, opens_at, partner, table_wf, PairTable};

verus! {

/// Number of pairs opened among the first `k` positions.
pub open spec fn opens_before(t: Seq<Option<NAIDX>>, k: int) -> int
    decreases k,
{
    if k <= 0 {
        0
    } else {
        opens_before(t, k - 1) + if opens_at(t, k - 1) {
            1int
        } else {
            0int
        }
    }
}

/// The id of the loop closed by the pair opened at `a`: loops are numbered in
/// the order their pairs open, from 1; the exterior loop is 0.
pub open spec fn inner_id(t: Seq<Option<NAIDX>>, a: int) -> int {
    opens_before(t, a) + 1
}

/// The pair opened at `a` encloses position `p`.
pub open spec fn encloses(t: Seq<Option<NAIDX>>, a: int, p: int) -> bool {
    0 <= a < p && opens_at(t, a) && p < partner(t, a)
}

/// The pair opened at `a` is the innermost one around `p`.
pub open spec fn innermost(t: Seq<Option<NAIDX>>, a: int, p: int) -> bool {
    encloses(t, a, p) && forall|b: int| #[trigger] encloses(t, b, p) ==> b <= a
}

/// The loop that position `p` lies in when it is taken as unpaired.
pub open spec fn context_id(t: Seq<Option<NAIDX>>, p: int) -> int {
    if exists|a: int| innermost(t, a, p) {
        inner_id(t, choose|a: int| innermost(t, a, p))
    } else {
        0
    }
}

/// The loop entry of one position.
#[derive(Debug, Clone, Copy, PartialEq, Eq, Structural)]
pub enum LoopInfo {
    /// An unpaired position and the loop it lies in.
    Unpaired { l: NAIDX },
    /// A paired position: the loop outside the pair and the loop it closes.
    Paired { o: NAIDX, i: NAIDX },
}

/// The entry that position `p` of table `t` gets.
pub open spec fn loop_info_ok(li: LoopInfo, t: Seq<Option<NAIDX>>, p: int) -> bool {
    match li {
        LoopInfo::Unpaired { l } => t[p] is None && l as int == context_id(t, p),
        LoopInfo::Paired { o, i } => {
            let a = if p < partner(t, p) {
                p
            } else {
                partner(t, p)
            };
            &&& t[p] is Some
            &&& o as int == context_id(t, a)
            &&& i as int == inner_id(t, a)
        },
    }
}

/// The text of one entry: `l` for an unpaired position, `o/i` for a paired one.
pub open spec fn loop_info_text(li: LoopInfo) -> Seq<char> {
    match li {
        LoopInfo::Unpaired { l } => decimal(l as nat),
        LoopInfo::Paired { o, i } => decimal(o as nat) + seq!['/'] + decimal(i as nat),
    }
}

/// The first `k` entries, separated by `, `.
pub open spec fn loop_entries_text(s: Seq<LoopInfo>, k: int) -> Seq<char>
    decreases k,
{
    if k <= 0 {
        Seq::empty()
    } else if k == 1 {
        loop_info_text(s[0])
    } else {
        loop_entries_text(s, k - 1) + seq![',', ' '] + loop_info_text(s[k - 1])
    }
}

/// For each position of a structure, the loop (or loops) it belongs to.
#[derive(Debug, Clone, PartialEq, Eq)]
pub struct LoopTable(pub Vec<LoopInfo>);

proof fn lemma_opens_before_bound(t: Seq<Option<NAIDX>>, k: int)
    requires
        0 <= k,
    ensures
        0 <= opens_before(t, k) <= k,
    decreases k,
{
    if k > 0 {
        lemma_opens_before_bound(t, k - 1);
    }
}

proof fn lemma_opens_before_mono(t: Seq<Option<NAIDX>>, a: int, b: int)
    requires
        0 <= a <= b,
    ensures
        opens_before(t, a) <= opens_before(t, b),
    decreases b - a,
{
    if a < b {
        lemma_opens_before_mono(t, a, b - 1);
    }
}

/// Different pairs close different loops.
pub proof fn lemma_inner_id_injective(t: Seq<Option<NAIDX>>, a: int, b: int)
    requires
        0 <= a < b,
        opens_at(t, a),
    ensures
        inner_id(t, a) < inner_id(t, b),
{
    lemma_opens_before_mono(t, a + 1, b);
}

/// The innermost enclosing pair fixes the context loop.
pub proof fn lemma_context_of_innermost(t: Seq<Option<NAIDX>>, a: int, p: int)
    requires
        innermost(t, a, p),
    ensures
        context_id(t, p) == inner_id(t, a),
{
    let c = choose|c: int| innermost(t, c, p);
    assert(c <= a && a <= c);
}

/// Loop ids of pairs are positive.
pub proof fn lemma_opens_before_nonneg(t: Seq<Option<NAIDX>>, a: int)
    requires
        0 <= a,
    ensures
        inner_id(t, a) >= 1,
{
    lemma_opens_before_bound(t, a);
}

/// A position with an enclosing pair has an innermost one.
pub proof fn lemma_innermost_exists(t: Seq<Option<NAIDX>>, c: int, p: int) -> (e: int)
    requires
        encloses(t, c, p),
    ensures
        innermost(t, e, p),
        c <= e,
    decreases p - c,
{
    if exists|b: int| #[trigger] encloses(t, b, p) && b > c {
        let b = choose|b: int| #[trigger] encloses(t, b, p) && b > c;
        lemma_innermost_exists(t, b, p)
    } else {
        c
    }
}

/// Without an enclosing pair a position lies in the exterior loop.
pub proof fn lemma_context_exterior(t: Seq<Option<NAIDX>>, p: int)
    requires
        forall|a: int| !#[trigger] encloses(t, a, p),
    ensures
        context_id(t, p) == 0,
{
}

/// The scan state after `k` positions: the open pairs on a stack, innermost
/// last, each with the id of the loop it closes.
spec fn scan_inv(
    t: Seq<Option<NAIDX>>,
    k: int,
    st: Seq<(usize, usize, NAIDX)>,
    loop_index: int,
    mloop: int,
) -> bool {
    &&& 0 <= k <= t.len()
    &&& mloop == opens_before(t, k)
    &&& forall|x: int, y: int| 0 <= x < y < st.len() ==> #[trigger] st[x].0 < #[trigger] st[y].0
    &&& forall|x: int|
        0 <= x < st.len() ==> {
            &&& (#[trigger] st[x]).0 < k
            &&& opens_at(t, st[x].0 as int)
            &&& st[x].1 as int == partner(t, st[x].0 as int)
            &&& st[x].1 >= k
            &&& st[x].2 as int == inner_id(t, st[x].0 as int)
        }
    &&& forall|a: int|
        0 <= a < k && #[trigger] opens_at(t, a) && partner(t, a) >= k ==> exists|x: int|
            0 <= x < st.len() && st[x].0 == a
    &&& loop_index == if st.len() == 0 {
        0
    } else {
        st[st.len() - 1].2 as int
    }
}

/// With the scan state at `k`, the top of the stack is the innermost pair around
/// position `k` when no stacked pair closes there, or there is none.
proof fn lemma_scan_context(
    t: Seq<Option<NAIDX>>,
    k: int,
    st: Seq<(usize, usize, NAIDX)>,
    loop_index: int,
    mloop: int,
    p: int,
)
    requires
        table_wf(t),
        scan_inv(t, k, st, loop_index, mloop),
        k == p < t.len(),
        forall|x: int| 0 <= x < st.len() ==> (#[trigger] st[x]).1 != p,
    ensures
        context_id(t, p) == loop_index,
{
    if st.len() == 0 {
        assert forall|a: int| !#[trigger] encloses(t, a, p) by {
            if encloses(t, a, p) {
                let x = choose|x: int| 0 <= x < st.len() && st[x].0 == a;
            }
        }
        lemma_context_exterior(t, p);
    } else {
        let top = st[st.len() - 1].0 as int;
        assert(encloses(t, top, p));
        assert forall|b: int| #[trigger] encloses(t, b, p) implies b <= top by {
            let x = choose|x: int| 0 <= x < st.len() && st[x].0 == b;
            if x < st.len() - 1 {
                assert(st[x].0 < st[st.len() - 1].0);
            }
        }
        lemma_context_of_innermost(t, top, p);
    }
}

impl LoopTable {
    /// Number of positions.
    pub fn len(&self) -> (r: usize)
        ensures
            r == self.0@.len(),
    {
        self.0.len()
    }

    /// The entry of position `i`.
    pub fn get(&self, i: usize) -> (r: LoopInfo)
        requires
            i < self.0@.len(),
        ensures
            r == self.0@[i as int],
    {
        self.0[i]
    }

    /// The entries in brackets, separated by commas: `[0, 0/1, 1/2, 2, 1/2, 0/1]`.
    pub fn to_string(&self) -> (r: String)
        ensures
            r@ == seq!['['] + loop_entries_text(self.0@, self.0@.len() as int) + seq![']'],
    {
        let mut out = String::new();
        proof {
            reveal_strlit("[");
            reveal_strlit("]");
        }
        out.append("[");
        let n = self.0.len();
        let mut k: usize = 0;
        while k < n
            invariant
                n == self.0@.len(),
                k <= n,
                out@ == seq!['['] + loop_entries_text(self.0@, k as int),
            decreases n - k,
        {
            proof {
                reveal_strlit(", ");
                reveal_strlit("/");
            }
            if k > 0 {
                out.append(", ");
            }
            match self.0[k] {
                LoopInfo::Unpaired { l } => {
                    push_decimal(&mut out, l as u64);
                },
                LoopInfo::Paired { o, i } => {
                    push_decimal(&mut out, o as u64);
                    out.append("/");
                    push_decimal(&mut out, i as u64);
                },
            }
            assert(out@ =~= seq!['['] + loop_entries_text(self.0@, k + 1));
            k += 1;
        }
        proof {
            reveal_strlit("]");
        }
        out.append("]");
        out
    }

    /// The loop index of a well-formed structure, by one left-to-right scan.
    pub fn from(pt: &PairTable) -> (r: LoopTable)
        requires
            table_wf(pt@),
        ensures
            r.0@.len() == pt@.len(),
            forall|p: int| 0 <= p < pt@.len() ==> loop_info_ok(#[trigger] r.0@[p], pt@, p),
    {
        let n = pt.len();
        let ghost t = pt@;
        let mut table: Vec<LoopInfo> = Vec::new();
        let mut loop_index: NAIDX = 0;
        let mut mloop: NAIDX = 0;
        let mut stack: Vec<(usize, usize, NAIDX)> = Vec::new();
        let mut k: usize = 0;
        while k < n
            invariant
                n == t.len(),
                t == pt@,
                table_wf(t),
                k <= n,
                table@.len() == k,
                forall|p: int| 0 <= p < k ==> loop_info_ok(#[trigger] table@[p], t, p),
                scan_inv(t, k as int, stack@, loop_index as int, mloop as int),
            decreases n - k,
        {
            let ghost st0 = stack@;
            proof {
                lemma_opens_before_bound(t, k as int);
            }
            match pt.get(k) {
                None => {
                    proof {
                        assert forall|x: int| 0 <= x < st0.len() implies (#[trigger] st0[x]).1
                            != k by {
                            assert(t[st0[x].1 as int] is Some);
                        }
                        lemma_scan_context(t, k as int, st0, loop_index as int, mloop as int, k as int);
                    }
                    table.push(LoopInfo::Unpaired { l: loop_index });
                    proof {
                        assert(scan_inv(t, k + 1, stack@, loop_index as int, mloop as int)) by {
                            assert forall|a: int|
                                0 <= a < k + 1 && #[trigger] opens_at(t, a) && partner(t, a) >= k
                                    + 1 implies exists|x: int|
                                0 <= x < stack@.len() && stack@[x].0 == a by {
                                if a == k {
                                    assert(t[k as int] is Some);
                                }
                            }
                        }
                    }
                },
                Some(j) => {
                    if (j as usize) > k {
                        proof {
                            assert forall|x: int| 0 <= x < st0.len() implies (#[trigger] st0[x]).1
                                != k by {
                                assert(t[st0[x].1 as int] == Some(st0[x].0 as NAIDX));
                            }
                            lemma_scan_context(
                                t,
                                k as int,
                                st0,
                                loop_index as int,
                                mloop as int,
                                k as int,
                            );
                        }
                        let outer_loop = loop_index;
                        mloop = mloop + 1;
                        loop_index = mloop;
                        table.push(LoopInfo::Paired { o: outer_loop, i: loop_index });
                        stack.push((k, j as usize, loop_index));
                        proof {
                            assert(opens_at(t, k as int));
                            let st1 = stack@;
                            assert(st1 == st0.push((k, j as usize, loop_index)));
                            assert forall|x: int| 0 <= x < st1.len() implies {
                                &&& (#[trigger] st1[x]).0 < k + 1
                                &&& opens_at(t, st1[x].0 as int)
                                &&& st1[x].1 as int == partner(t, st1[x].0 as int)
                                &&& st1[x].1 >= k + 1
                                &&& st1[x].2 as int == inner_id(t, st1[x].0 as int)
                            } by {
                                if x < st0.len() {
                                    assert(st1[x] == st0[x]);
                                    assert(t[st0[x].1 as int] == Some(st0[x].0 as NAIDX));
                                }
                            }
                            assert forall|a: int|
                                0 <= a < k + 1 && #[trigger] opens_at(t, a) && partner(t, a) >= k
                                    + 1 implies exists|x: int| 0 <= x < st1.len() && st1[x].0 == a by {
                                if a < k {
                                    let x = choose|x: int| 0 <= x < st0.len() && st0[x].0 == a;
                                    assert(st1[x].0 == a);
                                } else {
                                    assert(st1[st1.len() - 1].0 == a);
                                }
                            }
                            assert(forall|x: int, y: int|
                                0 <= x < y < st1.len() ==> #[trigger] st1[x].0 < #[trigger] st1[y].0);
                        }
                    } else {
                        proof {
                            assert(t[j as int] == Some(k as NAIDX));
                            assert(opens_at(t, j as int));
                            let x0 = choose|x: int| 0 <= x < st0.len() && st0[x].0 == j;
                            let last = st0.len() - 1;
                            if x0 != last {
                                assert(st0[x0].0 < st0[last].0);
                                let c = st0[last].0 as int;
                                assert(opens_at(t, c));
                                assert(t[st0[last].1 as int] == Some(c as NAIDX));
                                assert(st0[last].1 != k);
                                assert(nested(t));
                                assert(partner(t, c) < partner(t, j as int));
                            }
                            assert(st0[last].0 == j);
                        }
                        let popped = stack.pop();
                        let inner_loop = match popped {
                            Some(e) => e.2,
                            None => 0,
                        };
                        loop_index = if stack.len() > 0 {
                            stack[stack.len() - 1].2
                        } else {
                            0
                        };
                        proof {
                            let st1 = stack@;
                            assert(st1 == st0.drop_last());
                            assert(forall|x: int| 0 <= x < st1.len() ==> st1[x] == st0[x]);
                            assert forall|x: int| 0 <= x < st1.len() implies (#[trigger] st1[x]).1
                                != j as int by {
                                assert(st1[x].0 < j);
                                assert(t[st1[x].1 as int] == Some(st1[x].0 as NAIDX));
                            }
                            assert forall|a: int| #[trigger] encloses(t, a, j as int) implies a
                                < k + 1 && exists|x: int| 0 <= x < st1.len() && st1[x].0 == a by {
                                assert(opens_at(t, a));
                                assert(nested(t));
                                assert(partner(t, j as int) < partner(t, a));
                                let x = choose|x: int| 0 <= x < st0.len() && st0[x].0 == a;
                                assert(x != st0.len() - 1);
                                assert(st1[x].0 == a);
                            }
                            lemma_scan_context_closed(
                                t,
                                k as int,
                                st1,
                                loop_index as int,
                                j as int,
                            );
                        }
                        table.push(LoopInfo::Paired { o: loop_index, i: inner_loop });
                        proof {
                            let st1 = stack@;
                            assert forall|a: int|
                                0 <= a < k + 1 && #[trigger] opens_at(t, a) && partner(t, a) >= k
                                    + 1 implies exists|x: int| 0 <= x < st1.len() && st1[x].0 == a by {
                                let x = choose|x: int| 0 <= x < st0.len() && st0[x].0 == a;
                                assert(x != st0.len() - 1);
                                assert(st1[x].0 == a);
                            }
                            assert forall|x: int| 0 <= x < st1.len() implies (#[trigger] st1[x]).1
                                >= k + 1 by {
                                assert(st1[x] == st0[x]);
                                assert(t[st1[x].1 as int] == Some(st1[x].0 as NAIDX));
                            }
                        }
                    }
                },
            }
            k += 1;
        }
        proof {
            if stack@.len() > 0 {
                assert(stack@[0].1 >= n);
                assert(t[stack@[0].0 as int] is Some);
            }
        }
        LoopTable(table)
    }
}

/// After the pair closing at `k` is popped, the stack top is the innermost pair
/// around its opening position `a`.
proof fn lemma_scan_context_closed(
    t: Seq<Option<NAIDX>>,
    k: int,
    st: Seq<(usize, usize, NAIDX)>,
    loop_index: int,
    a: int,
)
    requires
        table_wf(t),
        0 <= a < k < t.len(),
        forall|x: int, y: int| 0 <= x < y < st.len() ==> #[trigger] st[x].0 < #[trigger] st[y].0,
        forall|x: int|
            0 <= x < st.len() ==> {
                &&& (#[trigger] st[x]).0 < a
                &&& opens_at(t, st[x].0 as int)
                &&& st[x].1 as int == partner(t, st[x].0 as int)
                &&& st[x].1 > k
                &&& st[x].2 as int == inner_id(t, st[x].0 as int)
            },
        forall|b: int| #[trigger] encloses(t, b, a) ==> exists|x: int| 0 <= x < st.len() && st[x].0 == b,
        loop_index == if st.len() == 0 {
            0
        } else {
            st[st.len() - 1].2 as int
        },
    ensures
        context_id(t, a) == loop_index,
{
    if st.len() == 0 {
        assert forall|b: int| !#[trigger] encloses(t, b, a) by {
            if encloses(t, b, a) {
                let x = choose|x: int| 0 <= x < st.len() && st[x].0 == b;
            }
        }
        lemma_context_exterior(t, a);
    } else {
        let top = st[st.len() - 1].0 as int;
        assert(encloses(t, top, a));
        assert forall|b: int| #[trigger] encloses(t, b, a) implies b <= top by {
            let x = choose|x: int| 0 <= x < st.len() && st[x].0 == b;
            if x < st.len() - 1 {
                assert(st[x].0 < st[st.len() - 1].0);
            }
        }
        lemma_context_of_innermost(t, top, a);
    }
}

} // verus!

verus! {

/// The loop index has one entry per position, starts in the exterior loop 0,
/// and gives both ends of a pair the same entry, which names the loop the pair closes.
pub proof fn lemma_loop_table_laws(t: Seq<Option<NAIDX>>, lt: Seq<LoopInfo>)
    requires
        table_wf(t),
        lt.len() == t.len(),
        forall|p: int| 0 <= p < t.len() ==> loop_info_ok(#[trigger] lt[p], t, p),
    ensures
        t.len() > 0 ==> match lt[0] {
            LoopInfo::Unpaired { l } => l == 0,
            LoopInfo::Paired { o, i } => o == 0,
        },
        forall|p: int|
            0 <= p < t.len() && #[trigger] t[p] is Some ==> lt[p] is Paired && lt[p]
                == lt[partner(t, p)],
{
    if t.len() > 0 {
        assert forall|a: int| !#[trigger] encloses(t, a, 0) by {}
        lemma_context_exterior(t, 0);
        assert(loop_info_ok(lt[0], t, 0));
    }
    assert forall|p: int| 0 <= p < t.len() && #[trigger] t[p] is Some implies lt[p] is Paired
        && lt[p] == lt[partner(t, p)] by {
        let q = partner(t, p);
        assert(loop_info_ok(lt[p], t, p));
        assert(loop_info_ok(lt[q], t, q));
        assert(t[q] == Some(p as NAIDX));
    }
}

} // verus!
