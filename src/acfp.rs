//! Text of folding paths: the dot-bracket strings of a chain, one after another.
use vstd::prelude::*;

use itertools::Itertools;

use crate::pair_table::{dot_bracket, PairTable};

verus! {

/// The words separated by single spaces.
pub open spec fn space_joined(ws: Seq<Seq<char>>) -> Seq<char>
    decreases ws.len(),
{
    if ws.len() == 0 {
        Seq::empty()
    } else if ws.len() == 1 {
        ws[0]
    } else {
        space_joined(ws.drop_last()) + seq![' '] + ws.last()
    }
}

/// Relies on itertools' `Itertools::join` with a single space: the first word,
/// then a space and the next word for each further word.
#[verifier::external_body]
fn join_with_spaces(words: &Vec<String>) -> (r: String)
    ensures
        r@ == space_joined(words@.map_values(|w: String| w@)),
{
    words.iter().join(" ")
}

/// The dot-bracket strings of a chain of structures, separated by spaces.
pub fn display_acfp(acfp: &Vec<PairTable>) -> (r: String)
    ensures
        r@ == space_joined(acfp@.map_values(|t: PairTable| dot_bracket(t@))),
{
    let mut words: Vec<String> = Vec::new();
    let mut x: usize = 0;
    while x < acfp.len()
        invariant
            x <= acfp@.len(),
            words@.map_values(|w: String| w@) == acfp@.subrange(0, x as int).map_values(
                |t: PairTable| dot_bracket(t@),
            ),
        decreases acfp@.len() - x,
    {
        let ghost w0 = words@;
        let s = acfp[x].to_string();
        words.push(s);
        proof {
            let lhs = words@.map_values(|w: String| w@);
            let rhs = acfp@.subrange(0, x + 1).map_values(|t: PairTable| dot_bracket(t@));
            let prev = acfp@.subrange(0, x as int).map_values(|t: PairTable| dot_bracket(t@));
            assert(w0.map_values(|w: String| w@).len() == w0.len());
            assert(prev.len() == x);
            assert(words@ == w0.push(s));
            assert forall|y: int| 0 <= y < x + 1 implies lhs[y] == rhs[y] by {
                if y < x {
                    assert(w0.map_values(|w: String| w@)[y] == prev[y]);
                    assert(words@[y] == w0[y]);
                }
            }
            assert(lhs =~= rhs);
        }
        x += 1;
    }
    assert(acfp@.subrange(0, acfp@.len() as int) =~= acfp@);
    join_with_spaces(&words)
}

} // verus!
