//! Counting and summing over sequences of cell marks.

use vstd::prelude::*;

verus! {

/// Number of positions of `s` that hold `mark`.
pub open spec fn count_mark(s: Seq<i8>, mark: i8) -> nat
    decreases s.len(),
{
    if s.len() == 0 {
        0
    } else {
        count_mark(s.drop_last(), mark) + if s.last() == mark { 1nat } else { 0nat }
    }
}

/// Sum of the marks of `s`.
pub open spec fn sum_marks(s: Seq<i8>) -> int
    decreases s.len(),
{
    if s.len() == 0 {
        0
    } else {
        sum_marks(s.drop_last()) + s.last()
    }
}

/// Every position of `s` holds one of `lo..=hi`.
pub open spec fn marks_within(s: Seq<i8>, lo: int, hi: int) -> bool {
    forall|i: int| 0 <= i < s.len() ==> lo <= #[trigger] s[i] <= hi
}

/// Counting over one more position adds that position's share.
pub proof fn lemma_count_step(s: Seq<i8>, mark: i8, i: int)
    requires
        0 <= i < s.len(),
    ensures
        count_mark(s.take(i + 1), mark) == count_mark(s.take(i), mark) + if s[i] == mark {
            1nat
        } else {
            0nat
        },
{
    assert(s.take(i + 1).drop_last() =~= s.take(i));
}

/// Summing over one more position adds that position's mark.
pub proof fn lemma_sum_step(s: Seq<i8>, i: int)
    requires
        0 <= i < s.len(),
    ensures
        sum_marks(s.take(i + 1)) == sum_marks(s.take(i)) + s[i],
{
    assert(s.take(i + 1).drop_last() =~= s.take(i));
}

/// A count never exceeds the length.
pub proof fn lemma_count_bound(s: Seq<i8>, mark: i8)
    ensures
        count_mark(s, mark) <= s.len(),
    decreases s.len(),
{
    if s.len() > 0 {
        lemma_count_bound(s.drop_last(), mark);
    }
}

/// A count is zero exactly when no position holds the mark.
pub proof fn lemma_count_zero(s: Seq<i8>, mark: i8)
    ensures
        count_mark(s, mark) == 0 <==> forall|i: int| 0 <= i < s.len() ==> s[i] != mark,
    decreases s.len(),
{
    if s.len() > 0 {
        lemma_count_zero(s.drop_last(), mark);
        let t = s.drop_last();
        if count_mark(s, mark) == 0 {
            assert forall|i: int| 0 <= i < s.len() implies s[i] != mark by {
                if i < t.len() {
                    assert(t[i] == s[i]);
                }
            }
        } else {
            if s.last() != mark {
                let i = choose|i: int| 0 <= i < t.len() && t[i] == mark;
                assert(s[i] == mark);
            }
        }
    }
}

/// The sum of marks that all lie in `-1..=1` lies within the length.
pub proof fn lemma_sum_bound(s: Seq<i8>)
    requires
        marks_within(s, -1, 1),
    ensures
        -s.len() <= sum_marks(s) <= s.len(),
    decreases s.len(),
{
    if s.len() > 0 {
        let t = s.drop_last();
        assert forall|i: int| 0 <= i < t.len() implies -1 <= #[trigger] t[i] <= 1 by {
            assert(t[i] == s[i]);
        }
        lemma_sum_bound(t);
    }
}

/// Position `i` is the first of `s` that holds `mark`.
pub open spec fn first_at(s: Seq<i8>, mark: i8, i: int) -> bool {
    &&& 0 <= i < s.len()
    &&& s[i] == mark
    &&& forall|j: int| 0 <= j < i ==> s[j] != mark
}

/// A count equals the length exactly when every position holds the mark.
pub proof fn lemma_count_full(s: Seq<i8>, mark: i8)
    ensures
        count_mark(s, mark) == s.len() <==> forall|i: int| 0 <= i < s.len() ==> s[i] == mark,
    decreases s.len(),
{
    if s.len() > 0 {
        let t = s.drop_last();
        lemma_count_full(t, mark);
        lemma_count_bound(t, mark);
        if count_mark(s, mark) == s.len() {
            assert forall|i: int| 0 <= i < s.len() implies s[i] == mark by {
                if i < t.len() {
                    assert(t[i] == s[i]);
                }
            }
        } else {
            if s.last() == mark {
                let i = choose|i: int| 0 <= i < t.len() && t[i] != mark;
                assert(s[i] != mark);
            }
        }
    }
}

/// Writing a mark over another changes the two counts by one.
pub proof fn lemma_count_update(s: Seq<i8>, i: int, mark: i8, counted: i8)
    requires
        0 <= i < s.len(),
    ensures
        count_mark(s.update(i, mark), counted) == count_mark(s, counted) - (if s[i] == counted {
            1int
        } else {
            0int
        }) + (if mark == counted {
            1int
        } else {
            0int
        }),
    decreases s.len(),
{
    let u = s.update(i, mark);
    if i == s.len() - 1 {
        assert(u.drop_last() =~= s.drop_last());
    } else {
        assert(u.drop_last() =~= s.drop_last().update(i, mark));
        lemma_count_update(s.drop_last(), i, mark, counted);
    }
}

/// Renaming a mark that occurs under no other name keeps its count.
pub proof fn lemma_count_renamed(s: Seq<i8>, t: Seq<i8>, from: i8, to: i8)
    requires
        s.len() == t.len(),
        forall|i: int| 0 <= i < s.len() ==> (s[i] == from <==> t[i] == to),
    ensures
        count_mark(s, from) == count_mark(t, to),
    decreases s.len(),
{
    if s.len() > 0 {
        let s0 = s.drop_last();
        let t0 = t.drop_last();
        assert forall|i: int| 0 <= i < s0.len() implies (s0[i] == from <==> t0[i] == to) by {
            assert(s0[i] == s[i] && t0[i] == t[i]);
        }
        lemma_count_renamed(s0, t0, from, to);
    }
}

/// Marks between -1 and 1 whose sum is their number are all 1.
pub proof fn lemma_sum_full(s: Seq<i8>)
    requires
        marks_within(s, -1, 1),
        sum_marks(s) == s.len(),
    ensures
        forall|i: int| 0 <= i < s.len() ==> #[trigger] s[i] == 1,
    decreases s.len(),
{
    if s.len() > 0 {
        let t = s.drop_last();
        assert forall|i: int| 0 <= i < t.len() implies -1 <= #[trigger] t[i] <= 1 by {
            assert(t[i] == s[i]);
        }
        lemma_sum_bound(t);
        lemma_sum_full(t);
        assert forall|i: int| 0 <= i < s.len() implies #[trigger] s[i] == 1 by {
            if i < t.len() {
                assert(t[i] == s[i]);
            }
        }
    }
}

} // verus!
