//! The per-class table in the order in which it is reported.

use vstd::prelude::*;
use vstd::seq_lib::{to_multiset_build, to_multiset_insert};
use crate::table::ClassScore;

verus! {

/// A score in thousandths of a point, cut off towards zero.
pub open spec fn thousandths(score: int) -> int {
    if score >= 0 {
        score / 100_000
    } else {
        -((-score) / 100_000)
    }
}

/// The entries come by falling score, in thousandths.
pub open spec fn by_falling_score(v: Seq<ClassScore>) -> bool {
    forall|i: int, j: int|
        0 <= i < j < v.len() ==> thousandths((#[trigger] v[i]).score as int) >= thousandths(
            (#[trigger] v[j]).score as int,
        )
}

/// A score in thousandths of a point, cut off towards zero.
pub fn score_thousandths(score: i128) -> (r: i128)
    ensures
        r == thousandths(score as int),
{
    if score >= 0 {
        ((score as u128) / 100_000) as i128
    } else if score == i128::MIN {
        -((170_141_183_460_469_231_731_687_303_715_884_105_728u128 / 100_000) as i128)
    } else {
        -((((-score) as u128) / 100_000) as i128)
    }
}

/// The entries of the table by falling score, in thousandths of a point.
/// Entries with the same score in thousandths come in no stated order.
pub fn ranking(table: &Vec<ClassScore>) -> (r: Vec<ClassScore>)
    ensures
        r@.to_multiset() == table@.to_multiset(),
        by_falling_score(r@),
{
    let mut out: Vec<ClassScore> = Vec::new();
    let mut i: usize = 0;
    assert(table@.take(0) =~= out@);
    while i < table.len()
        invariant
            0 <= i <= table@.len(),
            out@.to_multiset() == table@.take(i as int).to_multiset(),
            by_falling_score(out@),
        decreases table@.len() - i,
    {
        let e = table[i];
        let key = score_thousandths(e.score);
        let mut at: usize = 0;
        while at < out.len() && score_thousandths(out[at].score) >= key
            invariant
                0 <= at <= out@.len(),
                key == thousandths(e.score as int),
                forall|k: int|
                    0 <= k < at ==> thousandths((#[trigger] out@[k]).score as int) >= key,
            decreases out@.len() - at,
        {
            at += 1;
        }
        let ghost before = out@;
        out.insert(at, e);
        proof {
            to_multiset_insert(before, at as int, e);
            assert(table@.take(i + 1) == table@.take(i as int).push(e));
            to_multiset_build(table@.take(i as int), e);
        }
        i += 1;
    }
    assert(table@.take(table@.len() as int) == table@);
    out
}

} // verus!
