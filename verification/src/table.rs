//! The per-class table of scores and penalties: one entry for each class
//! that a scored detection has claimed.

use vstd::prelude::*;
use crate::config::MAX_STEP;
use crate::sign_class::SignClass;

verus! {

/// Score and penalty that the detections of one class have gathered, in
/// parts of `SCORE_UNIT`.
#[derive(Debug, Clone, Copy, PartialEq, Eq, Structural)]
pub struct ClassScore {
    pub class: SignClass,
    pub score: i128,
    pub penalty: i128,
}

/// The table has an entry for the class.
pub open spec fn has_class(v: Seq<ClassScore>, c: SignClass) -> bool {
    exists|i: int| 0 <= i < v.len() && (#[trigger] v[i]).class == c
}

/// The classes that have an entry.
pub open spec fn class_set(v: Seq<ClassScore>) -> Set<SignClass> {
    Set::new(|c: SignClass| has_class(v, c))
}

/// The score held for a class; 0 where the table has no entry for it.
pub open spec fn class_score(v: Seq<ClassScore>, c: SignClass) -> int
    decreases v.len(),
{
    if v.len() == 0 {
        0
    } else {
        class_score(v.drop_last(), c) + if v.last().class == c {
            v.last().score as int
        } else {
            0
        }
    }
}

/// The penalty held for a class; 0 where the table has no entry for it.
pub open spec fn class_penalty(v: Seq<ClassScore>, c: SignClass) -> int
    decreases v.len(),
{
    if v.len() == 0 {
        0
    } else {
        class_penalty(v.drop_last(), c) + if v.last().class == c {
            v.last().penalty as int
        } else {
            0
        }
    }
}

/// No class has two entries.
pub open spec fn distinct_classes(v: Seq<ClassScore>) -> bool {
    forall|i: int, j: int|
        0 <= i < j < v.len() ==> (#[trigger] v[i]).class != (#[trigger] v[j]).class
}

/// A total that `count` detections can have brought about.
pub open spec fn score_within(v: int, count: int) -> bool {
    -count * MAX_STEP <= v <= count * MAX_STEP
}

/// A penalty that `count` detections can have brought about.
pub open spec fn penalty_within(v: int, count: int) -> bool {
    0 <= v <= count * MAX_STEP
}

/// Every entry holds what `count` detections can have brought about.
pub open spec fn entries_within(v: Seq<ClassScore>, count: int) -> bool {
    forall|i: int|
        0 <= i < v.len() ==> score_within((#[trigger] v[i]).score as int, count) && penalty_within(
            v[i].penalty as int,
            count,
        )
}

/// The table as a map from each class that has an entry to its score and
/// its penalty.
pub open spec fn table_view(v: Seq<ClassScore>) -> Map<SignClass, (int, int)> {
    Map::new(|c: SignClass| has_class(v, c), |c: SignClass| (class_score(v, c), class_penalty(v, c)))
}

/// In a table without repeated classes an entry holds all that is held for
/// its class, and a class without an entry holds nothing.
pub proof fn lemma_class_totals(v: Seq<ClassScore>, c: SignClass)
    requires
        distinct_classes(v),
    ensures
        !has_class(v, c) ==> class_score(v, c) == 0 && class_penalty(v, c) == 0,
        forall|i: int|
            0 <= i < v.len() && (#[trigger] v[i]).class == c ==> class_score(v, c) == v[i].score
                && class_penalty(v, c) == v[i].penalty,
    decreases v.len(),
{
    if v.len() > 0 {
        let front = v.drop_last();
        assert(forall|i: int| 0 <= i < front.len() ==> front[i] == v[i]);
        lemma_class_totals(front, c);
    }
}

proof fn lemma_replace_entry(v: Seq<ClassScore>, i: int, e: ClassScore, c: SignClass)
    requires
        0 <= i < v.len(),
        e.class == v[i].class,
    ensures
        class_score(v.update(i, e), c) == class_score(v, c) + if c == e.class {
            e.score - v[i].score
        } else {
            0
        },
        class_penalty(v.update(i, e), c) == class_penalty(v, c) + if c == e.class {
            e.penalty - v[i].penalty
        } else {
            0
        },
    decreases v.len(),
{
    let w = v.update(i, e);
    if i == v.len() - 1 {
        assert(w.drop_last() == v.drop_last());
    } else {
        assert(w.drop_last() == v.drop_last().update(i, e));
        lemma_replace_entry(v.drop_last(), i, e, c);
    }
}

/// The index of the entry of a class, if the table has one: the first,
/// should the class have several.
pub fn find_class(table: &Vec<ClassScore>, class: SignClass) -> (r: Option<usize>)
    ensures
        r is Some <==> has_class(table@, class),
        r matches Some(i) ==> {
            &&& i < table@.len()
            &&& table@[i as int].class == class
            &&& forall|j: int| 0 <= j < i ==> (#[trigger] table@[j]).class != class
        },
{
    let mut i: usize = 0;
    while i < table.len()
        invariant
            0 <= i <= table@.len(),
            forall|j: int| 0 <= j < i ==> (#[trigger] table@[j]).class != class,
        decreases table@.len() - i,
    {
        if table[i].class == class {
            return Some(i);
        }
        i += 1;
    }
    None
}

/// Adds `gain` to the score and `fine` to the penalty held for a class,
/// making an entry for the class if the table has none.
pub(crate) fn bump(
    table: &mut Vec<ClassScore>,
    class: SignClass,
    gain: i128,
    fine: i128,
    Ghost(count): Ghost<int>,
)
    requires
        distinct_classes(old(table)@),
        entries_within(old(table)@, count),
        0 <= count < u64::MAX,
        -MAX_STEP <= gain <= MAX_STEP,
        0 <= fine <= MAX_STEP,
    ensures
        distinct_classes(final(table)@),
        entries_within(final(table)@, count + 1),
        forall|c: SignClass|
            class_score(final(table)@, c) == #[trigger] class_score(old(table)@, c) + if c
                == class {
                gain as int
            } else {
                0
            },
        forall|c: SignClass|
            class_penalty(final(table)@, c) == #[trigger] class_penalty(old(table)@, c) + if c
                == class {
                fine as int
            } else {
                0
            },
        class_set(final(table)@) == class_set(old(table)@).insert(class),
{
    let ghost before = table@;
    match find_class(table, class) {
        Some(i) => {
            let e = table[i];
            let next = ClassScore { class: e.class, score: e.score + gain, penalty: e.penalty + fine };
            table.set(i, next);
            proof {
                assert forall|c: SignClass|
                    class_score(table@, c) == #[trigger] class_score(before, c) + if c == class {
                        gain as int
                    } else {
                        0
                    } by {
                    lemma_replace_entry(before, i as int, next, c);
                }
                assert forall|c: SignClass|
                    class_penalty(table@, c) == #[trigger] class_penalty(before, c) + if c
                        == class {
                        fine as int
                    } else {
                        0
                    } by {
                    lemma_replace_entry(before, i as int, next, c);
                }
                assert forall|c: SignClass|
                    has_class(table@, c) == (has_class(before, c) || c == class) by {
                    if has_class(before, c) {
                        let j = choose|j: int| 0 <= j < before.len() && (#[trigger] before[j]).class == c;
                        assert(table@[j].class == c);
                    }
                }
            }
        },
        None => {
            let next = ClassScore { class, score: gain, penalty: fine };
            table.push(next);
            proof {
                assert(table@.drop_last() == before);
            }
        },
    }
}

} // verus!
