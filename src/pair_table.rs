//! The pair table: for each position, the partner it pairs with, if any.
use vstd::prelude::*;
use vstd::string::*;

use crate::pair::NAIDX;

verus! {

/// The partner recorded at position `i`.
pub open spec fn partner(t: Seq<Option<NAIDX>>, i: int) -> int {
    t[i]->Some_0 as int
}

/// Position `i` opens a pair: its partner lies to the right.
pub open spec fn opens_at(t: Seq<Option<NAIDX>>, i: int) -> bool {
    t[i] is Some && i < partner(t, i)
}

/// Every recorded partner is another position that records `i` back.
pub open spec fn symmetric(t: Seq<Option<NAIDX>>) -> bool {
    forall|i: int|
        0 <= i < t.len() && #[trigger] t[i] is Some ==> {
            &&& 0 <= partner(t, i) < t.len()
            &&& partner(t, i) != i
            &&& t[partner(t, i)] == Some(i as NAIDX)
        }
}

/// No two pairs cross: a pair opened inside another closes inside it.
pub open spec fn nested(t: Seq<Option<NAIDX>>) -> bool {
    forall|a: int, c: int|
        0 <= a < c < t.len() && #[trigger] opens_at(t, a) && #[trigger] opens_at(t, c) && c
            < partner(t, a) ==> partner(t, c) < partner(t, a)
}

/// A well-formed table: symmetric, nested, and short enough for 16-bit positions.
pub open spec fn table_wf(t: Seq<Option<NAIDX>>) -> bool {
    &&& t.len() <= 65535
    &&& symmetric(t)
    &&& nested(t)
}

/// Opening brackets minus closing brackets among the first `k` characters.
pub open spec fn depth(s: Seq<char>, k: int) -> int
    decreases k,
{
    if k <= 0 {
        0
    } else {
        depth(s, k - 1) + if s[k - 1] == '(' {
            1int
        } else if s[k - 1] == ')' {
            -1int
        } else {
            0int
        }
    }
}

/// Every character is `(`, `)` or `.`.
pub open spec fn dot_bracket_chars(s: Seq<char>) -> bool {
    forall|k: int| 0 <= k < s.len() ==> #[trigger] s[k] == '(' || s[k] == ')' || s[k] == '.'
}

/// No prefix closes more brackets than it opens, and all are closed at the end.
pub open spec fn balanced(s: Seq<char>) -> bool {
    &&& forall|k: int| 0 <= k <= s.len() ==> #[trigger] depth(s, k) >= 0
    &&& depth(s, s.len() as int) == 0
}

/// The dot-bracket character of position `i`.
pub open spec fn db_char(t: Seq<Option<NAIDX>>, i: int) -> char {
    if t[i] is None {
        '.'
    } else if i < partner(t, i) {
        '('
    } else {
        ')'
    }
}

/// The dot-bracket string of a table.
pub open spec fn dot_bracket(t: Seq<Option<NAIDX>>) -> Seq<char> {
    Seq::new(t.len(), |i: int| db_char(t, i))
}

/// What the bracket scan has built after the first `k` characters: the open
/// positions on a stack, every closed bracket paired, the pairs nested.
pub open spec fn parse_inv(s: Seq<char>, k: int, t: Seq<Option<NAIDX>>, st: Seq<usize>) -> bool {
    &&& 0 <= k <= s.len() == t.len() <= 65535
    &&& st.len() == depth(s, k)
    &&& forall|x: int, y: int| 0 <= x < y < st.len() ==> #[trigger] st[x] < #[trigger] st[y]
    &&& forall|x: int|
        0 <= x < st.len() ==> {
            &&& #[trigger] st[x] < k
            &&& s[st[x] as int] == '('
            &&& t[st[x] as int] is None
        }
    &&& forall|m: int| k <= m < t.len() ==> #[trigger] t[m] is None
    &&& forall|m: int|
        0 <= m < k ==> (#[trigger] t[m] is None <==> (s[m] == '.' || (s[m] == '(' && exists|
            x: int,
        | 0 <= x < st.len() && st[x] == m)))
    &&& forall|m: int|
        0 <= m < k && #[trigger] t[m] is Some ==> {
            &&& 0 <= partner(t, m) < k
            &&& partner(t, m) != m
            &&& t[partner(t, m)] == Some(m as NAIDX)
            &&& (s[m] == '(' <==> m < partner(t, m))
            &&& s[m] != '.'
        }
    &&& nested(t)
    &&& forall|a: int, x: int|
        0 <= a < k && 0 <= x < st.len() && #[trigger] opens_at(t, a) ==> !(a < #[trigger] st[x]
            < partner(t, a))
}

proof fn lemma_parse_open(s: Seq<char>, k: int, t: Seq<Option<NAIDX>>, st: Seq<usize>)
    requires
        parse_inv(s, k, t, st),
        k < s.len(),
        s[k] == '(',
        depth(s, k + 1) == depth(s, k) + 1,
    ensures
        parse_inv(s, k + 1, t, st.push(k as usize)),
{
    let st2 = st.push(k as usize);
    assert forall|m: int| 0 <= m < k + 1 implies (#[trigger] t[m] is None <==> (s[m] == '.' || (
    s[m] == '(' && exists|x: int| 0 <= x < st2.len() && st2[x] == m))) by {
        if m < k && s[m] == '(' && t[m] is None {
            let x = choose|x: int| 0 <= x < st.len() && st[x] == m;
            assert(st2[x] == m);
        }
        if m < k && s[m] == '(' && (exists|x: int| 0 <= x < st2.len() && st2[x] == m) {
            let x = choose|x: int| 0 <= x < st2.len() && st2[x] == m;
            assert(x < st.len());
        }
        if m == k {
            assert(st2[st2.len() - 1] == m);
        }
    }
    assert forall|a: int, x: int|
        0 <= a < k + 1 && 0 <= x < st2.len() && #[trigger] opens_at(t, a) implies !(a
        < #[trigger] st2[x] < partner(t, a)) by {
        if x < st.len() {
            assert(st2[x] == st[x]);
        }
    }
}

proof fn lemma_parse_dot(s: Seq<char>, k: int, t: Seq<Option<NAIDX>>, st: Seq<usize>)
    requires
        parse_inv(s, k, t, st),
        k < s.len(),
        s[k] == '.',
        depth(s, k + 1) == depth(s, k),
    ensures
        parse_inv(s, k + 1, t, st),
{
}

proof fn lemma_parse_close(s: Seq<char>, k: int, t: Seq<Option<NAIDX>>, st: Seq<usize>)
    requires
        parse_inv(s, k, t, st),
        k < s.len(),
        s[k] == ')',
        st.len() > 0,
        depth(s, k + 1) == depth(s, k) - 1,
    ensures
        ({
            let top = st[st.len() - 1] as int;
            parse_inv(
                s,
                k + 1,
                t.update(top, Some(k as NAIDX)).update(k, Some(top as NAIDX)),
                st.drop_last(),
            )
        }),
{
    let top = st[st.len() - 1] as int;
    let t2 = t.update(top, Some(k as NAIDX)).update(k, Some(top as NAIDX));
    let st2 = st.drop_last();
    assert(forall|x: int| 0 <= x < st2.len() ==> st2[x] == st[x]);
    assert(forall|x: int| 0 <= x < st2.len() ==> #[trigger] st2[x] < top);
    assert(partner(t2, top) == k);
    assert(partner(t2, k) == top);
    assert forall|m: int| 0 <= m < k + 1 && #[trigger] t2[m] is Some implies {
        &&& 0 <= partner(t2, m) < k + 1
        &&& partner(t2, m) != m
        &&& t2[partner(t2, m)] == Some(m as NAIDX)
        &&& (s[m] == '(' <==> m < partner(t2, m))
        &&& s[m] != '.'
    } by {
        if m != top && m != k {
            assert(t[m] is Some);
            assert(partner(t2, m) == partner(t, m));
        }
    }
    assert forall|a: int, b: int|
        0 <= a < b < t2.len() && #[trigger] opens_at(t2, a) && #[trigger] opens_at(t2, b) && b
            < partner(t2, a) implies partner(t2, b) < partner(t2, a) by {
        if a == top {
            assert(t[b] is Some);
        } else if b == top {
            assert(opens_at(t, a));
            assert(st[st.len() - 1] == top);
        } else {
            assert(opens_at(t, a) && opens_at(t, b));
        }
    }
    assert forall|m: int| 0 <= m < k + 1 implies (#[trigger] t2[m] is None <==> (s[m] == '.' || (
    s[m] == '(' && exists|x: int| 0 <= x < st2.len() && st2[x] == m))) by {
        if m < k && m != top && s[m] == '(' && t[m] is None {
            let x = choose|x: int| 0 <= x < st.len() && st[x] == m;
            assert(x != st.len() - 1);
            assert(st2[x] == m);
        }
        if m < k && s[m] == '(' && (exists|x: int| 0 <= x < st2.len() && st2[x] == m) {
            let x = choose|x: int| 0 <= x < st2.len() && st2[x] == m;
            assert(st[x] == m);
        }
        if m == top {
            if exists|x: int| 0 <= x < st2.len() && st2[x] == m {
                let x = choose|x: int| 0 <= x < st2.len() && st2[x] == m;
                assert(st2[x] < top);
            }
        }
    }
    assert forall|a: int, x: int|
        0 <= a < k + 1 && 0 <= x < st2.len() && #[trigger] opens_at(t2, a) implies !(a
        < #[trigger] st2[x] < partner(t2, a)) by {
        assert(st2[x] == st[x]);
        if a != top {
            assert(opens_at(t, a));
        }
    }
}

proof fn lemma_parse_done(s: Seq<char>, t: Seq<Option<NAIDX>>, st: Seq<usize>)
    requires
        parse_inv(s, s.len() as int, t, st),
        st.len() == 0,
        dot_bracket_chars(s),
    ensures
        table_wf(t),
        dot_bracket(t) == s,
{
    assert forall|m: int| 0 <= m < s.len() implies #[trigger] db_char(t, m) == s[m] by {
        assert(s[m] == '(' || s[m] == ')' || s[m] == '.');
    }
    assert(dot_bracket(t) =~= s);
}

/// Why a string is not a dot-bracket structure.
#[derive(Debug, Clone, Copy, PartialEq, Eq, Structural)]
pub enum DotBracketError {
    /// Longer than positions can address.
    TooLong,
    /// A character other than `(`, `)` and `.` at this position.
    InvalidCharacter(usize),
    /// Brackets do not match.
    Unbalanced,
}

/// A nested secondary structure as a table of partners.
#[derive(Debug, Clone, PartialEq, Eq)]
pub struct PairTable {
    pub(crate) table: Vec<Option<NAIDX>>,
}

impl View for PairTable {
    type V = Seq<Option<NAIDX>>;

    closed spec fn view(&self) -> Seq<Option<NAIDX>> {
        self.table@
    }
}

impl PairTable {
    /// Parse a dot-bracket string.
    pub fn try_from(s: &str) -> (r: Result<PairTable, DotBracketError>)
        ensures
            s@.len() > 65535 ==> r == Err::<PairTable, DotBracketError>(DotBracketError::TooLong),
            s@.len() <= 65535 && !dot_bracket_chars(s@) ==> (r matches Err(
                DotBracketError::InvalidCharacter(k),
            ) && k < s@.len() && s@[k as int] != '(' && s@[k as int] != ')' && s@[k as int]
                != '.'),
            s@.len() <= 65535 && dot_bracket_chars(s@) && !balanced(s@) ==> r == Err::<
                PairTable,
                DotBracketError,
            >(DotBracketError::Unbalanced),
            r is Ok <==> (s@.len() <= 65535 && dot_bracket_chars(s@) && balanced(s@)),
            r matches Ok(pt) ==> table_wf(pt@) && dot_bracket(pt@) == s@,
    {
        let n = s.unicode_len();
        if n > 65535 {
            return Err(DotBracketError::TooLong);
        }
        let mut k: usize = 0;
        while k < n
            invariant
                n == s@.len(),
                n <= 65535,
                k <= n,
                forall|m: int| 0 <= m < k ==> #[trigger] s@[m] == '(' || s@[m] == ')' || s@[m] == '.',
            decreases n - k,
        {
            let c = s.get_char(k);
            if c != '(' && c != ')' && c != '.' {
                assert(c == s@[k as int]);
                assert(!dot_bracket_chars(s@));
                return Err(DotBracketError::InvalidCharacter(k));
            }
            k += 1;
        }
        let mut table: Vec<Option<NAIDX>> = Vec::new();
        let mut k: usize = 0;
        while k < n
            invariant
                k <= n,
                table@.len() == k,
                forall|m: int| 0 <= m < k ==> #[trigger] table@[m] is None,
            decreases n - k,
        {
            table.push(None);
            k += 1;
        }
        let mut stack: Vec<usize> = Vec::new();
        let mut k: usize = 0;
        proof {
            assert(depth(s@, 0) == 0);
        }
        while k < n
            invariant
                n == s@.len(),
                n <= 65535,
                dot_bracket_chars(s@),
                k <= n,
                table@.len() == n,
                forall|m: int| 0 <= m <= k ==> #[trigger] depth(s@, m) >= 0,
                parse_inv(s@, k as int, table@, stack@),
            decreases n - k,
        {
            let c = s.get_char(k);
            assert(depth(s@, k as int + 1) == depth(s@, k as int) + if c == '(' {
                1int
            } else if c == ')' {
                -1int
            } else {
                0int
            });
            let ghost s0 = stack@;
            if c == '(' {
                stack.push(k);
                proof {
                    lemma_parse_open(s@, k as int, table@, s0);
                    assert(stack@ == s0.push(k));
                }
            } else if c == ')' {
                if stack.len() == 0 {
                    assert(depth(s@, k as int + 1) < 0);
                    return Err(DotBracketError::Unbalanced);
                }
                let top = stack.pop().unwrap();
                let ghost t0 = table@;
                table.set(top, Some(k as NAIDX));
                table.set(k, Some(top as NAIDX));
                proof {
                    assert(stack@ == s0.drop_last());
                    assert(table@ == t0.update(top as int, Some(k as NAIDX)).update(
                        k as int,
                        Some(top as NAIDX),
                    ));
                    lemma_parse_close(s@, k as int, t0, s0);
                }
            } else {
                proof {
                    lemma_parse_dot(s@, k as int, table@, s0);
                }
            }
            k += 1;
        }
        if stack.len() != 0 {
            return Err(DotBracketError::Unbalanced);
        }
        proof {
            lemma_parse_done(s@, table@, stack@);
        }
        Ok(PairTable { table })
    }
}

} // verus!

verus! {

impl PairTable {
    /// Number of positions.
    pub fn len(&self) -> (r: usize)
        ensures
            r == self@.len(),
    {
        self.table.len()
    }

    /// The partner of position `i`, if any.
    pub fn get(&self, i: usize) -> (r: Option<NAIDX>)
        requires
            i < self@.len(),
        ensures
            r == self@[i as int],
    {
        self.table[i]
    }

    /// The dot-bracket string of this structure.
    pub fn to_string(&self) -> (r: String)
        ensures
            r@ == dot_bracket(self@),
    {
        let mut out = String::new();
        let n = self.table.len();
        let mut k: usize = 0;
        while k < n
            invariant
                n == self@.len(),
                k <= n,
                out@ == dot_bracket(self@).subrange(0, k as int),
            decreases n - k,
        {
            proof {
                reveal_strlit("(");
                reveal_strlit(")");
                reveal_strlit(".");
            }
            match self.table[k] {
                None => out.append("."),
                Some(j) => {
                    if (j as usize) > k {
                        out.append("(");
                    } else {
                        out.append(")");
                    }
                },
            }
            assert(out@ =~= dot_bracket(self@).subrange(0, k + 1));
            k += 1;
        }
        assert(out@ =~= dot_bracket(self@));
        out
    }

    /// A copy of this table.
    pub fn duplicate(&self) -> (r: PairTable)
        ensures
            r@ == self@,
    {
        let mut table: Vec<Option<NAIDX>> = Vec::new();
        let mut k: usize = 0;
        while k < self.table.len()
            invariant
                k <= self.table@.len(),
                table@ == self.table@.subrange(0, k as int),
            decreases self.table@.len() - k,
        {
            table.push(self.table[k]);
            assert(table@ =~= self.table@.subrange(0, k + 1));
            k += 1;
        }
        assert(table@ =~= self.table@);
        PairTable { table }
    }

    /// Whether two tables are equal.
    pub fn same_as(&self, other: &PairTable) -> (r: bool)
        ensures
            r == (self@ == other@),
    {
        if self.table.len() != other.table.len() {
            return false;
        }
        let mut k: usize = 0;
        while k < self.table.len()
            invariant
                k <= self.table@.len(),
                self.table@.len() == other.table@.len(),
                forall|m: int| 0 <= m < k ==> self.table@[m] == other.table@[m],
            decreases self.table@.len() - k,
        {
            if self.table[k] != other.table[k] {
                return false;
            }
            k += 1;
        }
        assert(self.table@ =~= other.table@);
        true
    }

    /// A table holding exactly these entries.
    pub(crate) fn from_vec(table: Vec<Option<NAIDX>>) -> (r: PairTable)
        ensures
            r@ == table@,
    {
        PairTable { table }
    }

    /// Record `v` at position `i`.
    pub(crate) fn set(&mut self, i: usize, v: Option<NAIDX>)
        requires
            i < old(self)@.len(),
        ensures
            final(self)@ == old(self)@.update(i as int, v),
    {
        self.table.set(i, v);
    }

    /// Extend the structure by one unpaired position at the 3' end.
    pub fn append_unpaired(&mut self)
        requires
            old(self)@.len() < 65535,
        ensures
            final(self)@ == old(self)@.push(None),
    {
        self.table.push(None);
    }
}

/// Appending an unpaired position keeps a table well formed.
pub proof fn lemma_append_unpaired_wf(t: Seq<Option<NAIDX>>)
    requires
        table_wf(t),
        t.len() < 65535,
    ensures
        table_wf(t.push(None)),
{
    let t2 = t.push(None);
    assert forall|i: int| 0 <= i < t2.len() && #[trigger] t2[i] is Some implies {
        &&& 0 <= partner(t2, i) < t2.len()
        &&& partner(t2, i) != i
        &&& t2[partner(t2, i)] == Some(i as NAIDX)
    } by {
        assert(t[i] is Some);
    }
    assert forall|a: int, c: int|
        0 <= a < c < t2.len() && #[trigger] opens_at(t2, a) && #[trigger] opens_at(t2, c) && c
            < partner(t2, a) implies partner(t2, c) < partner(t2, a) by {
        assert(opens_at(t, a) && opens_at(t, c));
    }
}

} // verus!
