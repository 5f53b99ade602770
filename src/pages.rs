//! Processing one fetched page of a channel, and what a sequence of pages
//! does to the counts, the range and the cursor.
use crate::day::day_of;
use crate::participants::{Author, KeyView};
use crate::store::{widen, Datastore, MessageRecord, RecordError, StoreView};
use vstd::prelude::*;

verus! {

/// How many messages of the sequence participant `k` sent.
pub open spec fn occurrences(ms: Seq<MessageRecord>, k: KeyView) -> nat
    decreases ms.len(),
{
    if ms.len() == 0 {
        0
    } else {
        occurrences(ms.drop_last(), k) + (if ms.last().author.key() == k {
            1nat
        } else {
            0nat
        })
    }
}

/// How many messages of the sequence participant `k` sent on day `d`.
pub open spec fn occurrences_on(ms: Seq<MessageRecord>, k: KeyView, d: u16) -> nat
    decreases ms.len(),
{
    if ms.len() == 0 {
        0
    } else {
        occurrences_on(ms.drop_last(), k, d) + (if ms.last().author.key() == k && day_of(
            ms.last().timestamp as int,
        ) == Some(d) {
            1nat
        } else {
            0nat
        })
    }
}

/// Every message's timestamp has a day number.
pub open spec fn days_valid(ms: Seq<MessageRecord>) -> bool {
    forall|i: int| 0 <= i < ms.len() ==> (#[trigger] day_of(ms[i].timestamp as int)) is Some
}

/// The range widened by the day of one message.
pub open spec fn widen_msg(range: Option<(u16, u16)>, m: MessageRecord) -> Option<(u16, u16)> {
    match day_of(m.timestamp as int) {
        Some(d) => widen(range, d),
        None => range,
    }
}

/// The range widened by the day of each message in turn.
pub open spec fn widen_all(range: Option<(u16, u16)>, ms: Seq<MessageRecord>) -> Option<(u16, u16)>
    decreases ms.len(),
{
    if ms.len() == 0 {
        range
    } else {
        widen_msg(widen_all(range, ms.drop_last()), ms.last())
    }
}

/// The larger of a cursor and a message's identifier.
pub open spec fn advance_msg(cursor: Option<u64>, m: MessageRecord) -> Option<u64> {
    match cursor {
        Some(x) => Some(if m.id > x { m.id } else { x }),
        None => Some(m.id),
    }
}

/// The cursor after a page: the largest of the old cursor and the page's
/// message identifiers. Identifiers grow with send time, so this is the
/// identifier of the page's latest message.
pub open spec fn advance(cursor: Option<u64>, ms: Seq<MessageRecord>) -> Option<u64>
    decreases ms.len(),
{
    if ms.len() == 0 {
        cursor
    } else {
        advance_msg(advance(cursor, ms.drop_last()), ms.last())
    }
}

/// Whether `a` was sent no later than `b`: by timestamp, then by identifier.
pub open spec fn not_after(a: MessageRecord, b: MessageRecord) -> bool {
    a.timestamp < b.timestamp || (a.timestamp == b.timestamp && a.id <= b.id)
}

/// Messages in the order they were sent.
pub open spec fn chronological(ms: Seq<MessageRecord>) -> bool {
    forall|a: int, b: int| 0 <= a < b < ms.len() ==> not_after(#[trigger] ms[a], #[trigger] ms[b])
}

/// The earliest message of participant `k` in `ms` shows `avatar`.
pub open spec fn first_avatar(ms: Seq<MessageRecord>, k: KeyView, avatar: Seq<char>) -> bool {
    exists|i: int|
        0 <= i < ms.len() && #[trigger] ms[i].author.key() == k && ms[i].author.avatar() == avatar
            && forall|j: int|
            0 <= j < ms.len() && #[trigger] ms[j].author.key() == k ==> not_after(ms[i], ms[j])
}

/// Some message of `ms` before position `i` is from participant `k`.
pub open spec fn sent_before(ms: Seq<MessageRecord>, i: int, k: KeyView) -> bool {
    exists|t: int| 0 <= t < i && #[trigger] ms[t].author.key() == k
}

/// The message at `t` is the first of `ms` from participant `k`.
pub open spec fn first_at(ms: Seq<MessageRecord>, t: int, k: KeyView) -> bool {
    &&& ms[t].author.key() == k
    &&& forall|u: int| 0 <= u < t ==> #[trigger] ms[u].author.key() != k
}

/// What recording a whole page of `channel` does to a store: every count,
/// total and the range take in the page's messages; the channel's cursor
/// moves to the page's largest identifier and the others stay; participants
/// seen for the first time are added, each with the avatar of its earliest
/// message in the page, and those seen before keep theirs.
pub open spec fn page_recorded(o: StoreView, n: StoreView, channel: u64, page: Seq<MessageRecord>) -> bool {
    &&& n.range == widen_all(o.range, page)
    &&& n.cursor(channel) == advance(o.cursor(channel), page)
    &&& forall|c: u64| c != channel ==> #[trigger] n.cursor(c) == o.cursor(c)
    &&& forall|k: KeyView, d: u16|
        #[trigger] n.count(k, d) == o.count(k, d) + occurrences_on(page, k, d)
    &&& forall|k: KeyView| #[trigger] n.total(k) == o.total(k) + occurrences(page, k)
    &&& forall|k: KeyView| #[trigger] n.has(k) == (o.has(k) || sent_by(page, k))
    &&& forall|k: KeyView| o.has(k) ==> #[trigger] n.avatar(k) == o.avatar(k)
    &&& forall|k: KeyView|
        !o.has(k) && #[trigger] sent_by(page, k) ==> first_avatar(page, k, n.avatar(k))
}

/// Some message of `ms` is from participant `k`.
pub open spec fn sent_by(ms: Seq<MessageRecord>, k: KeyView) -> bool {
    exists|i: int| 0 <= i < ms.len() && #[trigger] ms[i].author.key() == k
}

proof fn lemma_remove_one(
    s: Seq<MessageRecord>,
    i: int,
    range: Option<(u16, u16)>,
    c: Option<u64>,
)
    requires
        0 <= i < s.len(),
    ensures
        widen_all(range, s) == widen_msg(widen_all(range, s.remove(i)), s[i]),
        advance(c, s) == advance_msg(advance(c, s.remove(i)), s[i]),
        forall|k: KeyView|
            #[trigger] occurrences(s, k) == occurrences(s.remove(i), k) + (if s[i].author.key()
                == k {
                1nat
            } else {
                0nat
            }),
        forall|k: KeyView, d: u16|
            #[trigger] occurrences_on(s, k, d) == occurrences_on(s.remove(i), k, d) + (if s[i].author.key()
                == k && day_of(s[i].timestamp as int) == Some(d) {
                1nat
            } else {
                0nat
            }),
    decreases s.len(),
{
    if i == s.len() - 1 {
        assert(s.remove(i) =~= s.drop_last());
        assert forall|k: KeyView|
            #[trigger] occurrences(s, k) == occurrences(s.remove(i), k) + (if s[i].author.key()
                == k {
                1nat
            } else {
                0nat
            }) by {}
        assert forall|k: KeyView, d: u16|
            #[trigger] occurrences_on(s, k, d) == occurrences_on(s.remove(i), k, d) + (if s[i].author.key()
                == k && day_of(s[i].timestamp as int) == Some(d) {
                1nat
            } else {
                0nat
            }) by {}
    } else {
        lemma_remove_one(s.drop_last(), i, range, c);
        let r = s.remove(i);
        assert(r.drop_last() =~= s.drop_last().remove(i));
        assert(r.last() == s.last());
        assert(s.drop_last()[i] == s[i]);
        assert forall|k: KeyView|
            #[trigger] occurrences(s, k) == occurrences(r, k) + (if s[i].author.key()
                == k {
                1nat
            } else {
                0nat
            }) by {
            assert(occurrences(s.drop_last(), k) == occurrences(s.drop_last().remove(i), k) + (if s[i].author.key()
                == k {
                1nat
            } else {
                0nat
            }));
            assert(occurrences(r, k) == occurrences(r.drop_last(), k) + (if r.last().author.key() == k {
                1nat
            } else {
                0nat
            }));
        }
        assert forall|k: KeyView, d: u16|
            #[trigger] occurrences_on(s, k, d) == occurrences_on(r, k, d) + (if s[i].author.key()
                == k && day_of(s[i].timestamp as int) == Some(d) {
                1nat
            } else {
                0nat
            }) by {
            assert(occurrences_on(s.drop_last(), k, d) == occurrences_on(s.drop_last().remove(i), k, d) + (if s[i].author.key()
                == k && day_of(s[i].timestamp as int) == Some(d) {
                1nat
            } else {
                0nat
            }));
            assert(occurrences_on(r, k, d) == occurrences_on(r.drop_last(), k, d) + (if r.last().author.key() == k
                && day_of(r.last().timestamp as int) == Some(d) {
                1nat
            } else {
                0nat
            }));
        }
    }
}

/// Recording the same messages in another order gives the same counts,
/// range and cursor.
pub proof fn lemma_page_permutation(
    a: Seq<MessageRecord>,
    b: Seq<MessageRecord>,
    range: Option<(u16, u16)>,
    c: Option<u64>,
)
    requires
        a.to_multiset() == b.to_multiset(),
    ensures
        widen_all(range, a) == widen_all(range, b),
        advance(c, a) == advance(c, b),
        forall|k: KeyView| #[trigger] occurrences(a, k) == occurrences(b, k),
        forall|k: KeyView, d: u16| #[trigger] occurrences_on(a, k, d) == occurrences_on(b, k, d),
    decreases a.len(),
{
    broadcast use vstd::seq_lib::group_to_multiset_ensures;
    broadcast use vstd::multiset::group_multiset_axioms;

    if a.len() == 0 {
        assert(b.to_multiset().len() == 0);
        assert(b =~= a);
    } else {
        let x = a.last();
        let pre = a.drop_last();
        assert(pre.push(x) =~= a);
        assert(a.to_multiset() == pre.to_multiset().insert(x));
        assert(b.to_multiset().count(x) > 0);
        assert(b.contains(x));
        let i = choose|i: int| 0 <= i < b.len() && b[i] == x;
        let rest = b.remove(i);
        assert(rest.to_multiset() == b.to_multiset().remove(x));
        assert(pre.to_multiset() =~= rest.to_multiset());
        lemma_page_permutation(pre, rest, range, c);
        lemma_remove_one(b, i, range, c);
        assert forall|k: KeyView| #[trigger] occurrences(a, k) == occurrences(b, k) by {
            assert(a.drop_last() == pre);
            assert(occurrences(pre, k) == occurrences(rest, k));
            assert(occurrences(b, k) == occurrences(rest, k) + (if b[i].author.key() == k {
                1nat
            } else {
                0nat
            }));
        }
        assert forall|k: KeyView, d: u16| #[trigger] occurrences_on(a, k, d) == occurrences_on(b, k, d) by {
            assert(a.drop_last() == pre);
            assert(occurrences_on(pre, k, d) == occurrences_on(rest, k, d));
            assert(occurrences_on(b, k, d) == occurrences_on(rest, k, d) + (if b[i].author.key() == k
                && day_of(b[i].timestamp as int) == Some(d) {
                1nat
            } else {
                0nat
            }));
        }
    }
}

/// Two sequences with the same elements hold the same messages.
pub proof fn lemma_same_elements(a: Seq<MessageRecord>, b: Seq<MessageRecord>, i: int)
    requires
        a.to_multiset() == b.to_multiset(),
        0 <= i < a.len(),
    ensures
        exists|j: int| 0 <= j < b.len() && b[j] == a[i],
{
    broadcast use vstd::seq_lib::group_to_multiset_ensures;

    assert(a.contains(a[i]));
    assert(a.to_multiset().count(a[i]) > 0);
    assert(b.contains(a[i]));
}

/// The cursor after a sequence of pages.
pub open spec fn advance_pages(cursor: Option<u64>, pages: Seq<Seq<MessageRecord>>) -> Option<u64>
    decreases pages.len(),
{
    if pages.len() == 0 {
        cursor
    } else {
        advance(advance_pages(cursor, pages.drop_last()), pages.last())
    }
}

/// No participant's count on any day would pass `u32::MAX` once the page is in.
pub open spec fn page_fits(v: StoreView, ms: Seq<MessageRecord>) -> bool {
    forall|k: KeyView, d: u16| #[trigger] v.count(k, d) + occurrences_on(ms, k, d) <= u32::MAX
}

proof fn lemma_occurrences_on_prefix(ms: Seq<MessageRecord>, i: int, k: KeyView, d: u16)
    requires
        0 <= i <= ms.len(),
    ensures
        occurrences_on(ms.take(i), k, d) <= occurrences_on(ms, k, d),
    decreases ms.len() - i,
{
    if i < ms.len() {
        lemma_occurrences_on_prefix(ms, i + 1, k, d);
        assert(ms.take(i + 1).drop_last() =~= ms.take(i));
    } else {
        assert(ms.take(i) =~= ms);
    }
}

/// A count held by a store never passes `u32::MAX`.
proof fn lemma_count_bounded(v: StoreView, k: KeyView, d: u16)
    requires
        v.wf(),
    ensures
        v.count(k, d) <= u32::MAX,
{
    crate::participants::lemma_list_count_bounded(v.list_for(k), k, d);
}

proof fn lemma_advance_bounds(start: Option<u64>, ms: Seq<MessageRecord>)
    ensures
        forall|i: int|
            0 <= i < ms.len() ==> (advance(start, ms) matches Some(x) && #[trigger] ms[i].id <= x),
        start matches Some(s) ==> (advance(start, ms) matches Some(x) && s <= x),
        advance(start, ms) == start || exists|i: int|
            0 <= i < ms.len() && advance(start, ms) == Some(#[trigger] ms[i].id),
    decreases ms.len(),
{
    if ms.len() > 0 {
        let pre = ms.drop_last();
        lemma_advance_bounds(start, pre);
        assert forall|i: int|
            0 <= i < ms.len() implies (advance(start, ms) matches Some(x) && #[trigger] ms[i].id
            <= x) by {
            if i < ms.len() - 1 {
                assert(pre[i] == ms[i]);
            }
        }
        if advance(start, ms) != start && advance(start, ms) != Some(ms.last().id) {
            let j = choose|j: int| 0 <= j < pre.len() && advance(start, pre) == Some(#[trigger] pre[j].id);
            assert(ms[j] == pre[j]);
        }
    }
}

/// The cursor after any sequence of pages is the largest of the starting
/// cursor and all identifiers seen. So every message seen lies at or before
/// it, and a fetch strictly after it returns only messages not seen yet.
pub proof fn lemma_cursor_is_max(start: Option<u64>, pages: Seq<Seq<MessageRecord>>)
    ensures
        forall|p: int, i: int|
            0 <= p < pages.len() && 0 <= i < pages[p].len() ==> (advance_pages(start, pages) matches Some(
                x,
            ) && #[trigger] pages[p][i].id <= x),
        start matches Some(s) ==> (advance_pages(start, pages) matches Some(x) && s <= x),
        advance_pages(start, pages) == start || exists|p: int, i: int|
            0 <= p < pages.len() && 0 <= i < pages[p].len() && advance_pages(start, pages) == Some(
                #[trigger] pages[p][i].id,
            ),
    decreases pages.len(),
{
    if pages.len() > 0 {
        let pre = pages.drop_last();
        let c = advance_pages(start, pre);
        lemma_cursor_is_max(start, pre);
        lemma_advance_bounds(c, pages.last());
        assert forall|p: int, i: int|
            0 <= p < pages.len() && 0 <= i < pages[p].len() implies (advance_pages(start, pages) matches Some(
                x,
            ) && #[trigger] pages[p][i].id <= x) by {
            if p < pages.len() - 1 {
                assert(pre[p] == pages[p]);
                assert(pre[p][i].id <= c->0);
            } else {
                assert(pages.last()[i] == pages[p][i]);
            }
        }
        let r = advance_pages(start, pages);
        if r != start {
            if r == c {
                let (p, i) = choose|p: int, i: int|
                    0 <= p < pre.len() && 0 <= i < pre[p].len() && c == Some(#[trigger] pre[p][i].id);
                assert(pre[p] == pages[p]);
            } else {
                let i = choose|i: int|
                    0 <= i < pages.last().len() && r == Some(#[trigger] pages.last()[i].id);
                assert(pages[pages.len() - 1][i] == pages.last()[i]);
            }
        }
    }
}

/// A non-empty page fetched strictly after the cursor moves the cursor
/// strictly forward, so the cursors a channel is fetched after rise.
pub proof fn lemma_cursor_rises(cursor: Option<u64>, ms: Seq<MessageRecord>)
    requires
        ms.len() > 0,
        forall|i: int| 0 <= i < ms.len() ==> (cursor matches Some(x) ==> #[trigger] ms[i].id > x),
    ensures
        advance(cursor, ms) matches Some(y) && (cursor matches Some(x) ==> y > x),
{
    lemma_advance_bounds(cursor, ms);
    assert(advance(cursor, ms) matches Some(y) && ms[0].id <= y);
}

/// Processing messages never shrinks the range, and the range takes in the
/// day of every message processed.
pub proof fn lemma_range_widening(range: Option<(u16, u16)>, ms: Seq<MessageRecord>)
    requires
        range matches Some((lo, hi)) ==> lo <= hi,
    ensures
        widen_all(range, ms) matches Some((lo2, hi2)) ==> lo2 <= hi2,
        range matches Some((lo, hi)) ==> (widen_all(range, ms) matches Some((lo2, hi2)) && lo2 <= lo
            && hi <= hi2),
        forall|i: int|
            0 <= i < ms.len() && #[trigger] day_of(ms[i].timestamp as int) is Some ==> (widen_all(
                range,
                ms,
            ) matches Some((lo2, hi2)) && lo2 <= day_of(ms[i].timestamp as int)->0 <= hi2),
    decreases ms.len(),
{
    if ms.len() > 0 {
        let pre = ms.drop_last();
        lemma_range_widening(range, pre);
        assert forall|i: int|
            0 <= i < ms.len() && #[trigger] day_of(ms[i].timestamp as int) is Some implies (widen_all(
                range,
                ms,
            ) matches Some((lo2, hi2)) && lo2 <= day_of(ms[i].timestamp as int)->0 <= hi2) by {
            if i < ms.len() - 1 {
                assert(pre[i] == ms[i]);
            }
        }
    }
}

/// Count conservation: recording messages in batches `a` then `b` adds to a
/// participant's total the same as recording `a + b` at once, and recording
/// the same messages in any other order adds the same; a store that holds
/// nothing has a total of zero for everyone. So a participant's total is the
/// number of its messages ever recorded.
pub proof fn lemma_count_conservation(
    a: Seq<MessageRecord>,
    b: Seq<MessageRecord>,
    reordered: Seq<MessageRecord>,
    k: KeyView,
)
    requires
        reordered.to_multiset() == (a + b).to_multiset(),
    ensures
        occurrences(a + b, k) == occurrences(a, k) + occurrences(b, k),
        occurrences(reordered, k) == occurrences(a + b, k),
        StoreView::empty().total(k) == 0,
{
    lemma_occurrences_concat(a, b, k);
    lemma_page_permutation(reordered, a + b, None, None);
}


/// The messages of a sequence of pages, one page after another.
pub open spec fn flat(pages: Seq<Seq<MessageRecord>>) -> Seq<MessageRecord>
    decreases pages.len(),
{
    if pages.len() == 0 {
        Seq::empty()
    } else {
        flat(pages.drop_last()) + pages.last()
    }
}

/// What a sequence of pages adds to participant `k`'s count on day `d`.
pub open spec fn pages_count_on(pages: Seq<Seq<MessageRecord>>, k: KeyView, d: u16) -> nat
    decreases pages.len(),
{
    if pages.len() == 0 {
        0
    } else {
        pages_count_on(pages.drop_last(), k, d) + occurrences_on(pages.last(), k, d)
    }
}

/// The range after a sequence of pages.
pub open spec fn pages_range(range: Option<(u16, u16)>, pages: Seq<Seq<MessageRecord>>) -> Option<(u16, u16)>
    decreases pages.len(),
{
    if pages.len() == 0 {
        range
    } else {
        widen_all(pages_range(range, pages.drop_last()), pages.last())
    }
}

proof fn lemma_concat_all(range: Option<(u16, u16)>, a: Seq<MessageRecord>, b: Seq<MessageRecord>)
    ensures
        widen_all(range, a + b) == widen_all(widen_all(range, a), b),
        forall|k: KeyView, d: u16|
            #[trigger] occurrences_on(a + b, k, d) == occurrences_on(a, k, d) + occurrences_on(b, k, d),
    decreases b.len(),
{
    if b.len() == 0 {
        assert(a + b =~= a);
    } else {
        lemma_concat_all(range, a, b.drop_last());
        assert((a + b).drop_last() =~= a + b.drop_last());
        assert((a + b).last() == b.last());
        assert forall|k: KeyView, d: u16|
            #[trigger] occurrences_on(a + b, k, d) == occurrences_on(a, k, d) + occurrences_on(b, k, d) by {
            assert(occurrences_on(a + b.drop_last(), k, d) == occurrences_on(a, k, d) + occurrences_on(
                b.drop_last(),
                k,
                d,
            ));
        }
    }
}

proof fn lemma_pages_flat(range: Option<(u16, u16)>, pages: Seq<Seq<MessageRecord>>)
    ensures
        pages_range(range, pages) == widen_all(range, flat(pages)),
        forall|k: KeyView, d: u16| #[trigger] pages_count_on(pages, k, d) == occurrences_on(flat(pages), k, d),
    decreases pages.len(),
{
    if pages.len() > 0 {
        lemma_pages_flat(range, pages.drop_last());
        lemma_concat_all(range, flat(pages.drop_last()), pages.last());
        assert forall|k: KeyView, d: u16| #[trigger] pages_count_on(pages, k, d) == occurrences_on(flat(pages), k, d) by {
            assert(pages_count_on(pages.drop_last(), k, d) == occurrences_on(flat(pages.drop_last()), k, d));
        }
    }
}

/// How the transport cuts a history into pages, and in what order each
/// page comes, does not matter: two sequences of pages that hold the same
/// messages add the same to every count and leave the same range.
pub proof fn lemma_paging_irrelevant(
    range: Option<(u16, u16)>,
    one: Seq<Seq<MessageRecord>>,
    other: Seq<Seq<MessageRecord>>,
)
    requires
        flat(one).to_multiset() == flat(other).to_multiset(),
    ensures
        pages_range(range, one) == pages_range(range, other),
        forall|k: KeyView, d: u16| #[trigger] pages_count_on(one, k, d) == pages_count_on(other, k, d),
{
    lemma_pages_flat(range, one);
    lemma_pages_flat(range, other);
    lemma_page_permutation(flat(one), flat(other), range, None);
    assert forall|k: KeyView, d: u16| #[trigger] pages_count_on(one, k, d) == pages_count_on(other, k, d) by {
        assert(occurrences_on(flat(one), k, d) == occurrences_on(flat(other), k, d));
    }
}

proof fn lemma_occurrences_concat(a: Seq<MessageRecord>, b: Seq<MessageRecord>, k: KeyView)
    ensures
        occurrences(a + b, k) == occurrences(a, k) + occurrences(b, k),
    decreases b.len(),
{
    if b.len() == 0 {
        assert(a + b =~= a);
    } else {
        lemma_occurrences_concat(a, b.drop_last(), k);
        assert((a + b).drop_last() =~= a + b.drop_last());
    }
}

/// The page's messages in the order they were sent (by timestamp, then
/// identifier).
pub fn sort_page(page: &Vec<MessageRecord>) -> (r: Vec<MessageRecord>)
    ensures
        r@.to_multiset() == page@.to_multiset(),
        chronological(r@),
{
    broadcast use vstd::seq_lib::group_to_multiset_ensures;

    let mut out: Vec<MessageRecord> = Vec::new();
    let mut i: usize = 0;
    while i < page.len()
        invariant
            i <= page@.len(),
            out@.to_multiset() == page@.take(i as int).to_multiset(),
            chronological(out@),
        decreases page@.len() - i,
    {
        let m = &page[i];
        let x = MessageRecord { id: m.id, author: m.author.duplicate(), timestamp: m.timestamp };
        let mut p: usize = 0;
        while p < out.len() && !(x.timestamp < out[p].timestamp || (x.timestamp == out[p].timestamp
            && x.id < out[p].id))
            invariant
                p <= out@.len(),
                forall|t: int| 0 <= t < p ==> not_after(#[trigger] out@[t], x),
            decreases out@.len() - p,
        {
            p = p + 1;
        }
        let ghost before = out@;
        out.insert(p, x);
        proof {
            assert(x == page@[i as int]);
            assert(page@.take(i + 1) =~= page@.take(i as int).push(x));
            assert(out@ == before.insert(p as int, x));
            vstd::seq_lib::to_multiset_insert(before, p as int, x);
            vstd::seq_lib::to_multiset_build(page@.take(i as int), x);
            assert forall|a: int, b: int| 0 <= a < b < out@.len() implies not_after(
                #[trigger] out@[a],
                #[trigger] out@[b],
            ) by {
                if b < p {
                    assert(not_after(before[a], before[b]));
                } else if b == p {
                    assert(not_after(before[a], x));
                } else if a < p {
                    assert(not_after(before[a], before[b - 1]));
                } else if a == p {
                    assert(not_after(before[p as int], before[b - 1]) || p as int == b - 1);
                } else {
                    assert(not_after(before[a - 1], before[b - 1]));
                }
            }
        }
        i = i + 1;
    }
    proof {
        assert(page@.take(page@.len() as int) =~= page@);
    }
    out
}

proof fn lemma_sent_on(ms: Seq<MessageRecord>, k: KeyView, d: u16)
    requires
        occurrences_on(ms, k, d) > 0,
    ensures
        exists|i: int|
            0 <= i < ms.len() && #[trigger] ms[i].author.key() == k && day_of(
                ms[i].timestamp as int,
            ) == Some(d),
    decreases ms.len(),
{
    if occurrences_on(ms.drop_last(), k, d) > 0 {
        lemma_sent_on(ms.drop_last(), k, d);
        let i = choose|i: int|
            0 <= i < ms.drop_last().len() && #[trigger] ms.drop_last()[i].author.key() == k
                && day_of(ms.drop_last()[i].timestamp as int) == Some(d);
        assert(ms[i] == ms.drop_last()[i]);
    } else {
        assert(ms[ms.len() - 1].author.key() == k);
    }
}

/// How many messages of the page `author` sent on day `d`.
fn page_count(page: &Vec<MessageRecord>, author: &Author, d: u16) -> (r: u64)
    ensures
        r as nat == occurrences_on(page@, author.key(), d),
{
    let mut n: u64 = 0;
    let mut j: usize = 0;
    while j < page.len()
        invariant
            j <= page@.len(),
            n <= j,
            n as nat == occurrences_on(page@.take(j as int), author.key(), d),
        decreases page@.len() - j,
    {
        let same_day = match crate::day::timestamp_to_uday(page[j].timestamp) {
            Some(e) => e == d,
            None => false,
        };
        proof {
            assert(page@.take(j + 1).drop_last() =~= page@.take(j as int));
            assert(page@.take(j + 1).last() == page@[j as int]);
        }
        if same_day && page[j].author.same_participant(author) {
            n = n + 1;
        }
        j = j + 1;
    }
    proof {
        assert(page@.take(page@.len() as int) =~= page@);
    }
    n
}

impl Datastore {
    /// Whether the store can take in the whole page without a count passing
    /// `u32::MAX`.
    pub fn page_fits_in(&self, page: &Vec<MessageRecord>) -> (r: bool)
        requires
            self@.wf(),
        ensures
            r == page_fits(self@, page@),
    {
        let mut i: usize = 0;
        while i < page.len()
            invariant
                i <= page@.len(),
                self@.wf(),
                forall|t: int|
                    0 <= t < i && (#[trigger] day_of(page@[t].timestamp as int)) is Some ==> self@.count(
                        page@[t].author.key(),
                        day_of(page@[t].timestamp as int)->0,
                    ) + occurrences_on(page@, page@[t].author.key(), day_of(page@[t].timestamp as int)->0)
                        <= u32::MAX,
            decreases page@.len() - i,
        {
            match crate::day::timestamp_to_uday(page[i].timestamp) {
                Some(d) => {
                    let held = self.count_of(&page[i].author, d);
                    let more = page_count(page, &page[i].author, d);
                    if more > (u32::MAX - held) as u64 {
                        proof {
                            let k = page@[i as int].author.key();
                            assert(self@.count(k, d) + occurrences_on(page@, k, d) > u32::MAX);
                        }
                        return false;
                    }
                },
                None => {},
            }
            i = i + 1;
        }
        proof {
            assert forall|k: KeyView, d: u16|
                #[trigger] self@.count(k, d) + occurrences_on(page@, k, d) <= u32::MAX by {
                if occurrences_on(page@, k, d) > 0 {
                    lemma_sent_on(page@, k, d);
                    let t = choose|t: int|
                        0 <= t < page@.len() && #[trigger] page@[t].author.key() == k && day_of(
                            page@[t].timestamp as int,
                        ) == Some(d);
                    assert(day_of(page@[t].timestamp as int) is Some);
                } else {
                    lemma_count_bounded(self@, k, d);
                }
            }
        }
        true
    }

    /// Processes one page of `channel`'s messages, all or nothing. A page
    /// holding a message whose day cannot be held, or one that would take a
    /// count past `u32::MAX`, is refused before anything changes. Otherwise
    /// the messages are recorded in the order they were sent, so a webhook
    /// poster first seen in this page keeps the avatar of its earliest
    /// message, and the channel's cursor moves to the largest identifier of
    /// the page, that of its latest message.
    pub fn process_page(&mut self, channel: u64, page: &Vec<MessageRecord>) -> (r: Result<
        (),
        RecordError,
    >)
        requires
            old(self)@.wf(),
        ensures
            final(self)@.wf(),
            !days_valid(page@) ==> r == Err::<(), RecordError>(RecordError::DayOutOfRange),
            days_valid(page@) && !page_fits(old(self)@, page@) ==> r == Err::<(), RecordError>(
                RecordError::CountOverflow,
            ),
            r is Ok <==> days_valid(page@) && page_fits(old(self)@, page@),
            r is Err ==> final(self)@ == old(self)@,
            r is Ok ==> page_recorded(old(self)@, final(self)@, channel, page@),
    {
        let mut i: usize = 0;
        while i < page.len()
            invariant
                i <= page@.len(),
                self@ == old(self)@,
                old(self)@.wf(),
                forall|j: int| 0 <= j < i ==> (#[trigger] day_of(page@[j].timestamp as int)) is Some,
            decreases page@.len() - i,
        {
            if crate::day::timestamp_to_uday(page[i].timestamp).is_none() {
                proof {
                    assert(!days_valid(page@)) by {
                        assert(day_of(page@[i as int].timestamp as int) is None);
                    }
                }
                return Err(RecordError::DayOutOfRange);
            }
            i = i + 1;
        }
        if !self.page_fits_in(page) {
            return Err(RecordError::CountOverflow);
        }
        let sorted = sort_page(page);
        let ghost o = self@;
        let ghost ms = sorted@;
        proof {
            lemma_page_permutation(ms, page@, o.range, o.cursor(channel));
            assert forall|t: int| 0 <= t < ms.len() implies (#[trigger] day_of(ms[t].timestamp as int)) is Some by {
                lemma_same_elements(ms, page@, t);
                let j = choose|j: int| 0 <= j < page@.len() && page@[j] == ms[t];
                assert(day_of(page@[j].timestamp as int) is Some);
            }
            assert forall|k: KeyView, d: u16| #[trigger] o.count(k, d) + occurrences_on(ms, k, d) <= u32::MAX by {
                assert(o.count(k, d) + occurrences_on(page@, k, d) <= u32::MAX);
            }
            assert(ms.take(0) =~= Seq::<MessageRecord>::empty());
        }
        let mut cursor = self.get_last_fetch(channel);
        let mut i: usize = 0;
        while i < sorted.len()
            invariant
                i <= ms.len(),
                ms == sorted@,
                days_valid(ms),
                page_fits(o, ms),
                o == old(self)@,
                self@.wf(),
                self@.cursors == o.cursors,
                cursor == advance(o.cursor(channel), ms.take(i as int)),
                self@.range == widen_all(o.range, ms.take(i as int)),
                forall|k: KeyView, d: u16|
                    #[trigger] self@.count(k, d) == o.count(k, d) + occurrences_on(
                        ms.take(i as int),
                        k,
                        d,
                    ),
                forall|k: KeyView|
                    #[trigger] self@.total(k) == o.total(k) + occurrences(ms.take(i as int), k),
                forall|k: KeyView| #[trigger] self@.has(k) == (o.has(k) || sent_before(ms, i as int, k)),
                forall|k: KeyView| o.has(k) ==> #[trigger] self@.avatar(k) == o.avatar(k),
                forall|k: KeyView|
                    !o.has(k) && #[trigger] self@.has(k) ==> exists|t: int|
                        0 <= t < i && first_at(ms, t, k) && self@.avatar(k) == ms[t].author.avatar(),
            decreases ms.len() - i,
        {
            let msg = &sorted[i];
            let ghost before = self@;
            let ghost pre = ms.take(i as int);
            let ghost next = ms.take(i + 1);
            let ghost key = msg.author.key();
            let ghost d = day_of(msg.timestamp as int)->0;
            proof {
                assert(next.drop_last() =~= pre);
                assert(next.last() == ms[i as int]);
                assert(day_of(ms[i as int].timestamp as int) is Some);
                lemma_occurrences_on_prefix(ms, i + 1, key, d);
                assert(o.count(key, d) + occurrences_on(ms, key, d) <= u32::MAX);
                assert(before.count(key, d) < u32::MAX);
            }
            match self.process_message(msg) {
                Ok(()) => {},
                Err(e) => {
                    proof {
                        assert(false);
                    }
                    return Err(e);
                },
            }
            proof {
                let n = self@;
                assert forall|k: KeyView| #[trigger] n.has(k) == (o.has(k) || sent_before(ms, i + 1, k)) by {
                    if sent_before(ms, i + 1, k) && !sent_before(ms, i as int, k) {
                        let t = choose|t: int| 0 <= t < i + 1 && #[trigger] ms[t].author.key() == k;
                        assert(t == i);
                    }
                    if sent_before(ms, i as int, k) {
                        let t = choose|t: int| 0 <= t < i && #[trigger] ms[t].author.key() == k;
                        assert(0 <= t < i + 1 && ms[t].author.key() == k);
                    }
                    if k == key {
                        assert(0 <= i < i + 1 && ms[i as int].author.key() == k);
                    }
                }
                assert forall|k: KeyView|
                    !o.has(k) && #[trigger] n.has(k) implies exists|t: int|
                        0 <= t < i + 1 && first_at(ms, t, k) && n.avatar(k) == ms[t].author.avatar() by {
                    if before.has(k) {
                        let t = choose|t: int|
                            0 <= t < i && first_at(ms, t, k) && before.avatar(k) == ms[t].author.avatar();
                        assert(n.avatar(k) == before.avatar(k));
                    } else {
                        assert(k == key);
                        assert(!sent_before(ms, i as int, k));
                        assert forall|u: int| 0 <= u < i implies #[trigger] ms[u].author.key() != k by {
                            if ms[u].author.key() == k {
                                assert(sent_before(ms, i as int, k));
                            }
                        }
                        assert(first_at(ms, i as int, k));
                    }
                }
            }
            cursor = match cursor {
                Some(x) => Some(if msg.id > x { msg.id } else { x }),
                None => Some(msg.id),
            };
            i = i + 1;
        }
        let ghost mid = self@;
        match cursor {
            Some(c) => self.save_last_fetch(channel, c),
            None => {},
        }
        proof {
            let n = self@;
            assert(ms.take(ms.len() as int) =~= ms);
            assert forall|k: KeyView, d: u16|
                #[trigger] n.count(k, d) == o.count(k, d) + occurrences_on(page@, k, d) by {
                assert(n.count(k, d) == mid.count(k, d));
            }
            assert forall|k: KeyView| #[trigger] n.total(k) == o.total(k) + occurrences(page@, k) by {
                assert(n.total(k) == mid.total(k));
            }
            assert forall|k: KeyView| #[trigger] n.has(k) == (o.has(k) || sent_by(page@, k)) by {
                assert(n.has(k) == mid.has(k));
                if sent_before(ms, ms.len() as int, k) {
                    let t = choose|t: int| 0 <= t < ms.len() && #[trigger] ms[t].author.key() == k;
                    lemma_same_elements(ms, page@, t);
                    let j = choose|j: int| 0 <= j < page@.len() && page@[j] == ms[t];
                    assert(page@[j].author.key() == k);
                }
                if sent_by(page@, k) {
                    let j = choose|j: int| 0 <= j < page@.len() && #[trigger] page@[j].author.key() == k;
                    lemma_same_elements(page@, ms, j);
                    let t = choose|t: int| 0 <= t < ms.len() && ms[t] == page@[j];
                    assert(ms[t].author.key() == k);
                }
            }
            assert forall|k: KeyView| o.has(k) implies #[trigger] n.avatar(k) == o.avatar(k) by {
                assert(n.avatar(k) == mid.avatar(k));
            }
            assert forall|k: KeyView|
                !o.has(k) && #[trigger] sent_by(page@, k) implies first_avatar(page@, k, n.avatar(k)) by {
                assert(n.has(k));
                assert(mid.has(k));
                assert(n.avatar(k) == mid.avatar(k));
                let t = choose|t: int|
                    0 <= t < ms.len() && first_at(ms, t, k) && mid.avatar(k) == ms[t].author.avatar();
                lemma_same_elements(ms, page@, t);
                let i0 = choose|j: int| 0 <= j < page@.len() && page@[j] == ms[t];
                assert forall|j: int|
                    0 <= j < page@.len() && #[trigger] page@[j].author.key() == k implies not_after(
                    page@[i0],
                    page@[j],
                ) by {
                    lemma_same_elements(page@, ms, j);
                    let u = choose|u: int| 0 <= u < ms.len() && ms[u] == page@[j];
                    if u < t {
                        assert(ms[u].author.key() != k);
                    } else if t < u {
                        assert(not_after(ms[t], ms[u]));
                    }
                }
                assert(page@[i0].author.key() == k);
            }
        }
        Ok(())
    }
}

} // verus!
