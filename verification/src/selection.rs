//! Greedy resolution of the candidates of a frame into a one-to-one
//! assignment: the candidate with the largest overlap wins, and takes its
//! annotation and its detection out of the game.

use vstd::prelude::*;
use crate::matching::Hit;

verus! {

/// Two candidates share their annotation or their detection.
pub open spec fn conflicts(h: Hit, m: Hit) -> bool {
    h.gt_idx == m.gt_idx || h.sol_idx == m.sol_idx
}

/// `b` is the last candidate among those with the largest overlap.
pub open spec fn is_last_maximum(hits: Seq<Hit>, b: int) -> bool {
    &&& 0 <= b < hits.len()
    &&& forall|i: int| 0 <= i < hits.len() ==> (#[trigger] hits[i]).iou <= hits[b].iou
    &&& forall|i: int| b < i < hits.len() ==> (#[trigger] hits[i]).iou < hits[b].iou
}

/// The index of the candidate that wins: the one with the largest overlap,
/// and among equals the last.
pub open spec fn best_index(hits: Seq<Hit>) -> int
    decreases hits.len(),
{
    if hits.len() <= 1 {
        0
    } else {
        let b = best_index(hits.drop_last());
        if hits.last().iou >= hits[b].iou {
            hits.len() - 1
        } else {
            b
        }
    }
}

/// The candidates that do not conflict with `m`, in their order.
pub open spec fn prune(hits: Seq<Hit>, m: Hit) -> Seq<Hit> {
    hits.filter(|h: Hit| !conflicts(h, m))
}

/// The selected candidates, in the order in which they win.
pub open spec fn select(hits: Seq<Hit>) -> Seq<Hit>
    decreases hits.len(),
    via select_decreases
{
    if hits.len() == 0 {
        Seq::empty()
    } else {
        let m = hits[best_index(hits)];
        seq![m] + select(prune(hits, m))
    }
}

#[via_fn]
proof fn select_decreases(hits: Seq<Hit>) {
    if hits.len() != 0 {
        lemma_best_index(hits);
        lemma_prune_shrinks(hits, best_index(hits));
    }
}

/// `best_index` is the last maximum.
pub proof fn lemma_best_index(hits: Seq<Hit>)
    requires
        hits.len() > 0,
    ensures
        is_last_maximum(hits, best_index(hits)),
    decreases hits.len(),
{
    if hits.len() > 1 {
        let front = hits.drop_last();
        lemma_best_index(front);
        assert(forall|i: int| 0 <= i < front.len() ==> front[i] == hits[i]);
    }
}

proof fn lemma_filter_drops(s: Seq<Hit>, pred: spec_fn(Hit) -> bool, i: int)
    requires
        0 <= i < s.len(),
        !pred(s[i]),
    ensures
        s.filter(pred).len() < s.len(),
    decreases s.len(),
{
    let front = s.drop_last();
    assert(s == front.push(s.last()));
    front.lemma_filter_push(s.last(), pred);
    if i < s.len() - 1 {
        lemma_filter_drops(front, pred, i);
    }
}

/// Pruning by a candidate of the sequence removes at least that candidate.
pub proof fn lemma_prune_shrinks(hits: Seq<Hit>, i: int)
    requires
        0 <= i < hits.len(),
    ensures
        prune(hits, hits[i]).len() < hits.len(),
{
    let m = hits[i];
    lemma_filter_drops(hits, |h: Hit| !conflicts(h, m), i);
}

/// Pruning keeps exactly the candidates that do not conflict.
pub proof fn lemma_prune_members(hits: Seq<Hit>, m: Hit)
    ensures
        forall|h: Hit| #[trigger]
            prune(hits, m).contains(h) <==> hits.contains(h) && !conflicts(h, m),
{
    let pred = |h: Hit| !conflicts(h, m);
    assert forall|h: Hit| #[trigger] prune(hits, m).contains(h) implies hits.contains(h)
        && !conflicts(h, m) by {
        hits.lemma_filter_contains_rev(pred, h);
    }
}

/// Only candidates are selected.
pub proof fn lemma_select_subset(hits: Seq<Hit>)
    ensures
        forall|h: Hit| #[trigger] select(hits).contains(h) ==> hits.contains(h),
        select(hits).len() <= hits.len(),
    decreases hits.len(),
{
    if hits.len() != 0 {
        lemma_best_index(hits);
        let m = hits[best_index(hits)];
        let rest = prune(hits, m);
        lemma_prune_shrinks(hits, best_index(hits));
        lemma_select_subset(rest);
        lemma_prune_members(hits, m);
        assert forall|h: Hit| #[trigger] select(hits).contains(h) implies hits.contains(h) by {
            let i = choose|i: int| 0 <= i < select(hits).len() && select(hits)[i] == h;
            if i > 0 {
                assert(select(rest).contains(h));
            }
        }
    }
}

/// The selection is one-to-one: no two selected candidates share their
/// annotation, and no two share their detection.
pub proof fn lemma_select_one_to_one(hits: Seq<Hit>)
    ensures
        forall|i: int, j: int|
            0 <= i < j < select(hits).len() ==> {
                &&& (#[trigger] select(hits)[i]).gt_idx != (#[trigger] select(hits)[j]).gt_idx
                &&& select(hits)[i].sol_idx != select(hits)[j].sol_idx
            },
    decreases hits.len(),
{
    if hits.len() != 0 {
        lemma_best_index(hits);
        let m = hits[best_index(hits)];
        let rest = prune(hits, m);
        lemma_prune_shrinks(hits, best_index(hits));
        lemma_select_one_to_one(rest);
        lemma_select_subset(rest);
        let sel = select(hits);
        assert forall|i: int, j: int| 0 <= i < j < sel.len() implies {
            &&& (#[trigger] sel[i]).gt_idx != (#[trigger] sel[j]).gt_idx
            &&& sel[i].sol_idx != sel[j].sol_idx
        } by {
            if i == 0 {
                assert(select(rest).contains(sel[j]));
            }
        }
    }
}

/// Candidates are selected in the order of their overlap, the largest first.
pub proof fn lemma_select_order(hits: Seq<Hit>)
    ensures
        forall|i: int, j: int|
            0 <= i < j < select(hits).len() ==> (#[trigger] select(hits)[i]).iou >= (
            #[trigger] select(hits)[j]).iou,
    decreases hits.len(),
{
    if hits.len() != 0 {
        lemma_best_index(hits);
        let m = hits[best_index(hits)];
        let rest = prune(hits, m);
        lemma_prune_shrinks(hits, best_index(hits));
        lemma_select_order(rest);
        lemma_select_subset(rest);
        lemma_prune_members(hits, m);
        let sel = select(hits);
        assert forall|i: int, j: int| 0 <= i < j < sel.len() implies (#[trigger] sel[i]).iou >= (
        #[trigger] sel[j]).iou by {
            if i == 0 {
                assert(select(rest).contains(sel[j]));
            }
        }
    }
}

/// The selection is greedy: every candidate conflicts with a selected one
/// whose overlap is no smaller (itself, if it is selected).
pub proof fn lemma_select_greedy(hits: Seq<Hit>, h: Hit)
    requires
        hits.contains(h),
    ensures
        exists|k: int|
            0 <= k < select(hits).len() && conflicts(h, #[trigger] select(hits)[k]) && select(
                hits,
            )[k].iou >= h.iou,
    decreases hits.len(),
{
    lemma_best_index(hits);
    let m = hits[best_index(hits)];
    let rest = prune(hits, m);
    let sel = select(hits);
    if conflicts(h, m) {
        assert(sel[0] == m);
    } else {
        lemma_prune_shrinks(hits, best_index(hits));
        lemma_select_greedy(rest, h);
        let k = choose|k: int|
            0 <= k < select(rest).len() && conflicts(h, #[trigger] select(rest)[k]) && select(
                rest,
            )[k].iou >= h.iou;
        assert(sel[k + 1] == select(rest)[k]);
    }
}

/// The index of the candidate with the largest overlap, the last among
/// equals.
pub fn find_best(hits: &Vec<Hit>) -> (b: usize)
    requires
        hits@.len() > 0,
    ensures
        b == best_index(hits@),
        b < hits@.len(),
{
    let mut b: usize = 0;
    let mut i: usize = 1;
    while i < hits.len()
        invariant
            1 <= i <= hits@.len(),
            0 <= b < i,
            b == best_index(hits@.take(i as int)),
        decreases hits@.len() - i,
    {
        proof {
            let cur = hits@.take(i + 1);
            assert(cur.drop_last() == hits@.take(i as int));
        }
        if hits[i].iou >= hits[b].iou {
            b = i;
        }
        i += 1;
    }
    assert(hits@.take(hits@.len() as int) == hits@);
    b
}

/// The candidates that share neither annotation nor detection with `m`.
pub fn prune_hits(hits: &Vec<Hit>, m: Hit) -> (r: Vec<Hit>)
    ensures
        r@ == prune(hits@, m),
{
    let ghost pred = |h: Hit| !conflicts(h, m);
    let mut kept: Vec<Hit> = Vec::new();
    let mut i: usize = 0;
    while i < hits.len()
        invariant
            0 <= i <= hits@.len(),
            pred == (|h: Hit| !conflicts(h, m)),
            kept@ == hits@.take(i as int).filter(pred),
        decreases hits@.len() - i,
    {
        let h = hits[i];
        proof {
            assert(hits@.take(i + 1) == hits@.take(i as int).push(h));
            hits@.take(i as int).lemma_filter_push(h, pred);
        }
        if h.gt_idx != m.gt_idx && h.sol_idx != m.sol_idx {
            kept.push(h);
        }
        i += 1;
    }
    assert(hits@.take(hits@.len() as int) == hits@);
    kept
}

/// Resolves the candidates into a one-to-one assignment: again and again the
/// candidate with the largest overlap is selected (the last of them, where
/// several are largest), and every candidate that shares its annotation or
/// its detection is dropped.
pub fn select_hits(hits: Vec<Hit>) -> (r: Vec<Hit>)
    ensures
        r@ == select(hits@),
{
    let ghost all = hits@;
    let mut rest = hits;
    let mut selected: Vec<Hit> = Vec::new();
    while rest.len() != 0
        invariant
            select(all) == selected@ + select(rest@),
        decreases rest@.len(),
    {
        let b = find_best(&rest);
        let m = rest[b];
        proof {
            lemma_prune_shrinks(rest@, b as int);
        }
        selected.push(m);
        rest = prune_hits(&rest, m);
    }
    selected
}

} // verus!
