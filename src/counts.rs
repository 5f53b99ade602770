//! Sparse per-day counts of one participant: a list of `(day, count)`
//! entries with distinct days and positive counts.
use vstd::prelude::*;

verus! {

/// The count held for `d`; zero where no entry names it.
pub open spec fn day_count(days: Seq<(u16, u32)>, d: u16) -> nat
    decreases days.len(),
{
    if days.len() == 0 {
        0
    } else if days.last().0 == d {
        days.last().1 as nat
    } else {
        day_count(days.drop_last(), d)
    }
}

/// The sum of all counts held.
pub open spec fn day_sum(days: Seq<(u16, u32)>) -> nat
    decreases days.len(),
{
    if days.len() == 0 {
        0
    } else {
        day_sum(days.drop_last()) + days.last().1 as nat
    }
}

/// Distinct days, and no entry with a zero count.
pub open spec fn days_wf(days: Seq<(u16, u32)>) -> bool {
    &&& forall|i: int, j: int|
        0 <= i < j < days.len() ==> #[trigger] days[i].0 != #[trigger] days[j].0
    &&& forall|i: int| 0 <= i < days.len() ==> #[trigger] days[i].1 > 0
}

pub proof fn lemma_count_bounded(days: Seq<(u16, u32)>, d: u16)
    ensures
        day_count(days, d) <= u32::MAX,
    decreases days.len(),
{
    if days.len() > 0 {
        lemma_count_bounded(days.drop_last(), d);
    }
}

pub proof fn lemma_count_absent(days: Seq<(u16, u32)>, d: u16)
    requires
        forall|i: int| 0 <= i < days.len() ==> #[trigger] days[i].0 != d,
    ensures
        day_count(days, d) == 0,
    decreases days.len(),
{
    if days.len() > 0 {
        lemma_count_absent(days.drop_last(), d);
    }
}

pub proof fn lemma_count_at(days: Seq<(u16, u32)>, j: int)
    requires
        days_wf(days),
        0 <= j < days.len(),
    ensures
        day_count(days, days[j].0) == days[j].1,
    decreases days.len(),
{
    if j < days.len() - 1 {
        assert(days[days.len() - 1].0 != days[j].0);
        assert(days.drop_last()[j] == days[j]);
        lemma_count_at(days.drop_last(), j);
    }
}

/// Adding one to the entry at `j` adds one to its day's count and to the sum.
pub proof fn lemma_bump(days: Seq<(u16, u32)>, j: int)
    requires
        days_wf(days),
        0 <= j < days.len(),
        days[j].1 < u32::MAX,
    ensures
        ({
            let next = days.update(j, (days[j].0, (days[j].1 + 1) as u32));
            &&& days_wf(next)
            &&& day_sum(next) == day_sum(days) + 1
            &&& forall|e: u16|
                #[trigger] day_count(next, e) == day_count(days, e) + (if e == days[j].0 {
                    1nat
                } else {
                    0nat
                })
        }),
    decreases days.len(),
{
    let next = days.update(j, (days[j].0, (days[j].1 + 1) as u32));
    let n = days.len();
    assert(days_wf(next)) by {
        assert forall|a: int, b: int| 0 <= a < b < next.len() implies #[trigger] next[a].0
            != #[trigger] next[b].0 by {
            assert(days[a].0 != days[b].0);
        }
    }
    if j == n - 1 {
        assert(next.drop_last() =~= days.drop_last());
        assert(day_sum(next) == day_sum(days) + 1);
        assert forall|e: u16|
            #[trigger] day_count(next, e) == day_count(days, e) + (if e == days[j].0 {
                1nat
            } else {
                0nat
            }) by {
            if e != days[j].0 {
                assert(day_count(next, e) == day_count(next.drop_last(), e));
            }
        }
    } else {
        let prev = days.drop_last();
        assert(days_wf(prev)) by {
            assert forall|a: int, b: int| 0 <= a < b < prev.len() implies #[trigger] prev[a].0
                != #[trigger] prev[b].0 by {
                assert(days[a].0 != days[b].0);
            }
            assert forall|a: int| 0 <= a < prev.len() implies #[trigger] prev[a].1 > 0 by {
                assert(days[a].1 > 0);
            }
        }
        lemma_bump(prev, j);
        assert(next.drop_last() =~= prev.update(j, (prev[j].0, (prev[j].1 + 1) as u32)));
        assert(days[n - 1].0 != days[j].0);
        assert(next.last() == days.last());
        assert(day_sum(next) == day_sum(days) + 1);
        assert forall|e: u16|
            #[trigger] day_count(next, e) == day_count(days, e) + (if e == days[j].0 {
                1nat
            } else {
                0nat
            }) by {
            if e != days.last().0 {
                assert(day_count(next, e) == day_count(next.drop_last(), e));
            }
        }
    }
}

/// Appending an entry `(d, 1)` for a day that has none adds one to that
/// day's count and to the sum.
pub proof fn lemma_append_new(days: Seq<(u16, u32)>, d: u16)
    requires
        days_wf(days),
        forall|i: int| 0 <= i < days.len() ==> #[trigger] days[i].0 != d,
    ensures
        ({
            let next = days.push((d, 1u32));
            &&& days_wf(next)
            &&& day_sum(next) == day_sum(days) + 1
            &&& forall|e: u16|
                #[trigger] day_count(next, e) == day_count(days, e) + (if e == d {
                    1nat
                } else {
                    0nat
                })
        }),
{
    let next = days.push((d, 1u32));
    assert(next.drop_last() =~= days);
    lemma_count_absent(days, d);
    assert(days_wf(next)) by {
        assert forall|a: int, b: int| 0 <= a < b < next.len() implies #[trigger] next[a].0
            != #[trigger] next[b].0 by {
            if b < days.len() {
                assert(days[a].0 != days[b].0);
            }
        }
    }
}

/// The index of the entry for `d`, if there is one.
pub fn find_day(days: &Vec<(u16, u32)>, d: u16) -> (r: Option<usize>)
    ensures
        match r {
            Some(j) => j < days@.len() && days@[j as int].0 == d,
            None => forall|i: int| 0 <= i < days@.len() ==> #[trigger] days@[i].0 != d,
        },
{
    let mut j: usize = 0;
    while j < days.len()
        invariant
            j <= days@.len(),
            forall|i: int| 0 <= i < j ==> #[trigger] days@[i].0 != d,
        decreases days@.len() - j,
    {
        if days[j].0 == d {
            return Some(j);
        }
        j = j + 1;
    }
    None
}

/// The count held for `d`.
pub fn count_on(days: &Vec<(u16, u32)>, d: u16) -> (r: u32)
    requires
        days_wf(days@),
    ensures
        r as nat == day_count(days@, d),
{
    match find_day(days, d) {
        Some(j) => {
            proof {
                lemma_count_at(days@, j as int);
            }
            days[j].1
        },
        None => {
            proof {
                lemma_count_absent(days@, d);
            }
            0
        },
    }
}

} // verus!
