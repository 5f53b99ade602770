//! The aggregate store: per-participant day counts, the observed day range,
//! and the per-channel fetch cursors.
use crate::counts::{days_wf, lemma_count_absent, lemma_count_at};
use crate::day::{day_of, timestamp_to_uday};
use crate::participants::{
    lemma_key_index, list_count, list_count_on, list_has, list_index, list_recorded, list_total, list_wf, record_in, views, Author, WebhookData,
    KeyView, Participant, ParticipantView,
};
use vstd::prelude::*;

verus! {

/// One message as the store reads it.
pub struct MessageRecord {
    /// The message's identifier; identifiers grow with send time.
    pub id: u64,
    pub author: Author,
    /// Unix time of sending, in seconds.
    pub timestamp: i64,
}

/// Why a message could not be recorded.
#[derive(Debug, Clone, Copy, PartialEq, Eq, Structural)]
pub enum RecordError {
    /// The timestamp's day number does not fit in 16 bits.
    DayOutOfRange,
    /// The participant's count for that day is already `u32::MAX`.
    CountOverflow,
}

/// The range widened to take in day `d`.
pub open spec fn widen(range: Option<(u16, u16)>, d: u16) -> Option<(u16, u16)> {
    match range {
        None => Some((d, d)),
        Some((lo, hi)) => Some((if d < lo { d } else { lo }, if d > hi { d } else { hi })),
    }
}

pub open spec fn in_range(range: Option<(u16, u16)>, d: u16) -> bool {
    match range {
        None => false,
        Some((lo, hi)) => lo <= d && d <= hi,
    }
}

/// Every day held by a participant of the list lies in the range.
pub open spec fn list_in_range(ps: Seq<ParticipantView>, range: Option<(u16, u16)>) -> bool {
    forall|i: int, j: int|
        0 <= i < ps.len() && 0 <= j < ps[i].days.len() ==> in_range(
            range,
            #[trigger] ps[i].days[j].0,
        )
}

pub open spec fn cursor_in(cs: Seq<(u64, u64)>, channel: u64) -> Option<u64> {
    if exists|i: int| 0 <= i < cs.len() && #[trigger] cs[i].0 == channel {
        Some(cs[choose|i: int| 0 <= i < cs.len() && #[trigger] cs[i].0 == channel].1)
    } else {
        None
    }
}

/// One entry per channel.
pub open spec fn cursors_wf(cs: Seq<(u64, u64)>) -> bool {
    forall|i: int, j: int| 0 <= i < j < cs.len() ==> #[trigger] cs[i].0 != #[trigger] cs[j].0
}

proof fn lemma_cursor_at(cs: Seq<(u64, u64)>, i: int)
    requires
        cursors_wf(cs),
        0 <= i < cs.len(),
    ensures
        cursor_in(cs, cs[i].0) == Some(cs[i].1),
{
    let j = choose|j: int| 0 <= j < cs.len() && #[trigger] cs[j].0 == cs[i].0;
    if j < i {
        assert(cs[j].0 != cs[i].0);
    } else if i < j {
        assert(cs[i].0 != cs[j].0);
    }
}

proof fn lemma_cursor_same(cs: Seq<(u64, u64)>, ns: Seq<(u64, u64)>, c: u64)
    requires
        cursors_wf(cs),
        cursors_wf(ns),
        cs.len() <= ns.len(),
        forall|i: int| 0 <= i < ns.len() && #[trigger] ns[i].0 == c ==> i < cs.len() && ns[i] == cs[i],
        forall|i: int| 0 <= i < cs.len() && #[trigger] cs[i].0 == c ==> ns[i] == cs[i],
    ensures
        cursor_in(ns, c) == cursor_in(cs, c),
{
    if exists|i: int| 0 <= i < cs.len() && #[trigger] cs[i].0 == c {
        let i = choose|i: int| 0 <= i < cs.len() && #[trigger] cs[i].0 == c;
        lemma_cursor_at(cs, i);
        assert(ns[i].0 == c);
        lemma_cursor_at(ns, i);
    } else if exists|i: int| 0 <= i < ns.len() && #[trigger] ns[i].0 == c {
        let i = choose|i: int| 0 <= i < ns.len() && #[trigger] ns[i].0 == c;
        assert(cs[i].0 == c);
    }
}

fn find_cursor(cs: &Vec<(u64, u64)>, channel: u64) -> (r: Option<usize>)
    ensures
        match r {
            Some(i) => i < cs@.len() && cs@[i as int].0 == channel,
            None => forall|j: int| 0 <= j < cs@.len() ==> #[trigger] cs@[j].0 != channel,
        },
{
    let mut i: usize = 0;
    while i < cs.len()
        invariant
            i <= cs@.len(),
            forall|j: int| 0 <= j < i ==> #[trigger] cs@[j].0 != channel,
        decreases cs@.len() - i,
    {
        if cs[i].0 == channel {
            return Some(i);
        }
        i = i + 1;
    }
    None
}

/// The contents of a store.
pub struct StoreView {
    /// The least and greatest day of any message recorded; `None` before the first.
    pub range: Option<(u16, u16)>,
    pub users: Seq<ParticipantView>,
    pub webhooks: Seq<ParticipantView>,
    /// `(channel, last processed message)`, one entry per channel.
    pub cursors: Seq<(u64, u64)>,
}

impl StoreView {
    pub open spec fn list_for(self, k: KeyView) -> Seq<ParticipantView> {
        match k {
            KeyView::User(_) => self.users,
            KeyView::Webhook(_) => self.webhooks,
        }
    }

    pub open spec fn has(self, k: KeyView) -> bool {
        list_has(self.list_for(k), k)
    }

    /// Participant `k`'s message count on day `d` (zero where none).
    pub open spec fn count(self, k: KeyView, d: u16) -> nat {
        list_count(self.list_for(k), k, d)
    }

    /// The sum of participant `k`'s per-day counts.
    pub open spec fn total(self, k: KeyView) -> nat {
        list_total(self.list_for(k), k)
    }

    /// The avatar URL captured when webhook poster `k` was first seen.
    pub open spec fn avatar(self, k: KeyView) -> Seq<char> {
        let ps = self.list_for(k);
        if list_has(ps, k) {
            ps[list_index(ps, k)].avatar
        } else {
            Seq::empty()
        }
    }

    /// The last processed message of `channel`; `None` if it was never fetched.
    pub open spec fn cursor(self, channel: u64) -> Option<u64> {
        cursor_in(self.cursors, channel)
    }

    pub open spec fn wf(self) -> bool {
        &&& list_wf(self.users)
        &&& list_wf(self.webhooks)
        &&& forall|i: int|
            0 <= i < self.users.len() ==> (#[trigger] self.users[i]).key is User
                && self.users[i].avatar.len() == 0
        &&& forall|i: int|
            0 <= i < self.webhooks.len() ==> (#[trigger] self.webhooks[i]).key is Webhook
        &&& list_in_range(self.users, self.range)
        &&& list_in_range(self.webhooks, self.range)
        &&& (self.range matches Some((lo, hi)) ==> lo <= hi)
        &&& cursors_wf(self.cursors)
    }

    /// The store that holds nothing.
    pub open spec fn empty() -> StoreView {
        StoreView { range: None, users: Seq::empty(), webhooks: Seq::empty(), cursors: Seq::empty() }
    }
}

/// The aggregate of a guild's message history.
pub struct Datastore {
    range: Option<(u16, u16)>,
    users: Vec<Participant>,
    webhooks: Vec<Participant>,
    cursors: Vec<(u64, u64)>,
}

impl View for Datastore {
    type V = StoreView;

    closed spec fn view(&self) -> StoreView {
        StoreView {
            range: self.range,
            users: views(self.users@),
            webhooks: views(self.webhooks@),
            cursors: self.cursors@,
        }
    }
}

proof fn lemma_list_outside_range(
    ps: Seq<ParticipantView>,
    range: Option<(u16, u16)>,
    k: KeyView,
    d: u16,
)
    requires
        list_in_range(ps, range),
        !in_range(range, d),
    ensures
        list_count(ps, k, d) == 0,
{
    if list_has(ps, k) {
        let i = list_index(ps, k);
        assert forall|j: int| 0 <= j < ps[i].days.len() implies #[trigger] ps[i].days[j].0
            != d by {
            assert(in_range(range, ps[i].days[j].0));
        }
        lemma_count_absent(ps[i].days, d);
    }
}

/// A participant has no messages outside the observed range.
pub proof fn lemma_nothing_outside_range(v: StoreView, k: KeyView, d: u16)
    requires
        v.wf(),
        !in_range(v.range, d),
    ensures
        v.count(k, d) == 0,
{
    lemma_list_outside_range(v.list_for(k), v.range, k, d);
}

proof fn lemma_in_range_widen(ps: Seq<ParticipantView>, range: Option<(u16, u16)>, d: u16)
    requires
        list_in_range(ps, range),
    ensures
        list_in_range(ps, widen(range, d)),
{
    lemma_widen_keeps(range, d);
    assert forall|i: int, j: int|
        0 <= i < ps.len() && 0 <= j < ps[i].days.len() implies in_range(
        widen(range, d),
        #[trigger] ps[i].days[j].0,
    ) by {
        assert(in_range(range, ps[i].days[j].0));
    }
}

proof fn lemma_widen_keeps(range: Option<(u16, u16)>, d: u16)
    ensures
        forall|e: u16| in_range(range, e) ==> #[trigger] in_range(widen(range, d), e),
        in_range(widen(range, d), d),
{
}

proof fn lemma_recorded_in_range(
    ops: Seq<ParticipantView>,
    ps: Seq<ParticipantView>,
    key: KeyView,
    avatar: Seq<char>,
    d: u16,
    range: Option<(u16, u16)>,
)
    requires
        list_in_range(ops, range),
        list_recorded(ops, ps, key, avatar, d),
    ensures
        list_in_range(ps, widen(range, d)),
{
    lemma_widen_keeps(range, d);
    assert forall|i: int, j: int|
        0 <= i < ps.len() && 0 <= j < ps[i].days.len() implies in_range(
        widen(range, d),
        #[trigger] ps[i].days[j].0,
    ) by {
        let e = ps[i].days[j].0;
        let k = ps[i].key;
        if !in_range(range, e) {
            lemma_list_outside_range(ops, range, k, e);
            lemma_key_index(ps, i);
            assert(days_wf(ps[i].days));
            lemma_count_at(ps[i].days, j);
            assert(list_count(ps, k, e) > 0);
            assert(list_count(ps, k, e) == list_count(ops, k, e) + (if k == key && e == d {
                1nat
            } else {
                0nat
            }));
        }
    }
}

/// Processing a message can only widen the range, and always to take in its day.
pub proof fn lemma_widen(range: Option<(u16, u16)>, d: u16)
    requires
        range matches Some((lo, hi)) ==> lo <= hi,
    ensures
        widen(range, d) matches Some((lo2, hi2)) && lo2 <= d <= hi2 && (range matches Some((
            lo,
            hi,
        )) ==> lo2 <= lo && hi <= hi2),
        forall|e: u16| in_range(range, e) ==> #[trigger] in_range(widen(range, d), e),
{
}

/// What recording one message of participant `key` (showing `avatar`) on
/// day `d` does to a store: that participant's count on that day, and its
/// total, grow by one; nothing else is counted; a participant seen for the
/// first time is added with `avatar`, and one seen before keeps the avatar it
/// had; the range widens to take in `d`; the cursors stay.
pub open spec fn recorded(o: StoreView, n: StoreView, key: KeyView, avatar: Seq<char>, d: u16) -> bool {
    &&& n.range == widen(o.range, d)
    &&& n.cursors == o.cursors
    &&& forall|k: KeyView, e: u16|
        #[trigger] n.count(k, e) == o.count(k, e) + (if k == key && e == d {
            1nat
        } else {
            0nat
        })
    &&& forall|k: KeyView|
        #[trigger] n.total(k) == o.total(k) + (if k == key {
            1nat
        } else {
            0nat
        })
    &&& forall|k: KeyView| #[trigger] n.has(k) == (o.has(k) || k == key)
    &&& forall|k: KeyView| o.has(k) ==> #[trigger] n.avatar(k) == o.avatar(k)
    &&& !o.has(key) ==> n.avatar(key) == avatar
    &&& key is User ==> n.webhooks == o.webhooks
    &&& key is Webhook ==> n.users == o.users
}

fn in_range_exec(range: Option<(u16, u16)>, d: u16) -> (r: bool)
    ensures
        r == in_range(range, d),
{
    match range {
        None => false,
        Some((lo, hi)) => lo <= d && d <= hi,
    }
}

/// Whether the entries are well formed and lie in the range.
fn days_ok(days: &Vec<(u16, u32)>, range: Option<(u16, u16)>) -> (r: bool)
    ensures
        r == (days_wf(days@) && forall|j: int|
            0 <= j < days@.len() ==> in_range(range, #[trigger] days@[j].0)),
{
    let mut i: usize = 0;
    while i < days.len()
        invariant
            i <= days@.len(),
            forall|a: int, b: int| 0 <= a < b < i ==> #[trigger] days@[a].0 != #[trigger] days@[b].0,
            forall|a: int| 0 <= a < i ==> #[trigger] days@[a].1 > 0,
            forall|a: int| 0 <= a < i ==> in_range(range, #[trigger] days@[a].0),
        decreases days@.len() - i,
    {
        let (d, c) = days[i];
        if c == 0 || !in_range_exec(range, d) {
            proof {
                assert(days@[i as int].1 == c);
            }
            return false;
        }
        let mut j: usize = 0;
        while j < i
            invariant
                j <= i,
                i < days@.len(),
                d == days@[i as int].0,
                forall|t: int| 0 <= t < j ==> #[trigger] days@[t].0 != d,
            decreases i - j,
        {
            if days[j].0 == d {
                proof {
                    assert(days@[j as int].0 == days@[i as int].0);
                }
                return false;
            }
            j = j + 1;
        }
        i = i + 1;
    }
    true
}

/// Whether the list holds distinct keys and well-formed counts that lie in the range.
fn list_ok(ps: &Vec<Participant>, range: Option<(u16, u16)>) -> (r: bool)
    ensures
        r == (list_wf(views(ps@)) && list_in_range(views(ps@), range)),
{
    let ghost vs = views(ps@);
    let mut i: usize = 0;
    while i < ps.len()
        invariant
            i <= ps@.len(),
            vs == views(ps@),
            forall|a: int, b: int| 0 <= a < b < i ==> #[trigger] vs[a].key != #[trigger] vs[b].key,
            forall|a: int| 0 <= a < i ==> days_wf(#[trigger] vs[a].days),
            forall|a: int, j: int|
                0 <= a < i && 0 <= j < vs[a].days.len() ==> in_range(range, #[trigger] vs[a].days[j].0),
        decreases ps@.len() - i,
    {
        if !days_ok(&ps[i].days, range) {
            proof {
                assert(vs[i as int].days == ps@[i as int].days@);
                if days_wf(vs[i as int].days) {
                    let j = choose|j: int|
                        0 <= j < vs[i as int].days.len() && !in_range(range, #[trigger] vs[i as int].days[j].0);
                    assert(!in_range(range, vs[i as int].days[j].0));
                }
            }
            return false;
        }
        let mut j: usize = 0;
        while j < i
            invariant
                j <= i,
                i < ps@.len(),
                vs == views(ps@),
                forall|t: int| 0 <= t < j ==> #[trigger] vs[t].key != vs[i as int].key,
            decreases i - j,
        {
            if ps[j].author.same_participant(&ps[i].author) {
                proof {
                    assert(vs[j as int].key == vs[i as int].key);
                }
                return false;
            }
            j = j + 1;
        }
        i = i + 1;
    }
    true
}

/// Whether each channel has one entry.
fn cursors_ok(cs: &Vec<(u64, u64)>) -> (r: bool)
    ensures
        r == cursors_wf(cs@),
{
    let mut i: usize = 0;
    while i < cs.len()
        invariant
            i <= cs@.len(),
            forall|a: int, b: int| 0 <= a < b < i ==> #[trigger] cs@[a].0 != #[trigger] cs@[b].0,
        decreases cs@.len() - i,
    {
        let mut j: usize = 0;
        while j < i
            invariant
                j <= i,
                i < cs@.len(),
                forall|t: int| 0 <= t < j ==> #[trigger] cs@[t].0 != cs@[i as int].0,
            decreases i - j,
        {
            if cs[j].0 == cs[i].0 {
                proof {
                    assert(cs@[j as int].0 == cs@[i as int].0);
                }
                return false;
            }
            j = j + 1;
        }
        i = i + 1;
    }
    true
}

impl Datastore {
    /// The store with these parts, where they form a well-formed store.
    pub(crate) fn from_parts(
        range: Option<(u16, u16)>,
        users: Vec<Participant>,
        webhooks: Vec<Participant>,
        cursors: Vec<(u64, u64)>,
    ) -> (r: Option<Datastore>)
        requires
            forall|i: int|
                0 <= i < users@.len() ==> (#[trigger] users@[i]).author is User,
            forall|i: int|
                0 <= i < webhooks@.len() ==> (#[trigger] webhooks@[i]).author is Webhook,
        ensures
            ({
                let v = StoreView {
                    range,
                    users: views(users@),
                    webhooks: views(webhooks@),
                    cursors: cursors@,
                };
                match r {
                    Some(d) => v.wf() && d@ == v,
                    None => !v.wf(),
                }
            }),
    {
        let ghost v = StoreView {
            range,
            users: views(users@),
            webhooks: views(webhooks@),
            cursors: cursors@,
        };
        let range_ok = match range {
            None => true,
            Some((lo, hi)) => lo <= hi,
        };
        if range_ok && list_ok(&users, range) && list_ok(&webhooks, range) && cursors_ok(&cursors) {
            proof {
                assert forall|i: int| 0 <= i < v.users.len() implies (#[trigger] v.users[i]).key is User
                    && v.users[i].avatar.len() == 0 by {
                    assert(users@[i].author is User);
                }
                assert forall|i: int| 0 <= i < v.webhooks.len() implies (#[trigger] v.webhooks[i]).key is Webhook by {
                    assert(webhooks@[i].author is Webhook);
                }
            }
            Some(Datastore { range, users, webhooks, cursors })
        } else {
            None
        }
    }

    /// The `(channel, last processed message)` entries.
    pub(crate) fn cursor_entries(&self) -> (r: &Vec<(u64, u64)>)
        ensures
            r@ == self@.cursors,
    {
        &self.cursors
    }

    /// A store that holds nothing.
    pub fn new() -> (r: Datastore)
        ensures
            r@ == StoreView::empty(),
            r@.wf(),
    {
        let r = Datastore { range: None, users: Vec::new(), webhooks: Vec::new(), cursors: Vec::new() };
        assert(r@.users =~= Seq::empty());
        assert(r@.webhooks =~= Seq::empty());
        r
    }

    /// The last processed message of `channel`, if it was ever fetched.
    pub fn get_last_fetch(&self, channel: u64) -> (r: Option<u64>)
        requires
            self@.wf(),
        ensures
            r == self@.cursor(channel),
    {
        match find_cursor(&self.cursors, channel) {
            Some(i) => {
                proof {
                    lemma_cursor_at(self.cursors@, i as int);
                }
                Some(self.cursors[i].1)
            },
            None => None,
        }
    }

    /// Sets the cursor of `channel` to message `id`; the rest stays.
    pub fn save_last_fetch(&mut self, channel: u64, id: u64)
        requires
            old(self)@.wf(),
        ensures
            final(self)@.wf(),
            final(self)@.cursor(channel) == Some(id),
            forall|c: u64| c != channel ==> #[trigger] final(self)@.cursor(c) == old(self)@.cursor(c),
            final(self)@.range == old(self)@.range,
            final(self)@.users == old(self)@.users,
            final(self)@.webhooks == old(self)@.webhooks,
    {
        let ghost cs = self.cursors@;
        match find_cursor(&self.cursors, channel) {
            Some(i) => {
                self.cursors[i] = (channel, id);
                proof {
                    let ns = self.cursors@;
                    assert(cursors_wf(ns)) by {
                        assert forall|a: int, b: int| 0 <= a < b < ns.len() implies #[trigger] ns[a].0
                            != #[trigger] ns[b].0 by {
                            assert(cs[a].0 != cs[b].0);
                        }
                    }
                    lemma_cursor_at(ns, i as int);
                    assert forall|c: u64| c != channel implies #[trigger] cursor_in(ns, c)
                        == cursor_in(cs, c) by {
                        lemma_cursor_same(cs, ns, c);
                    }
                    assert(self@.wf());
                }
            },
            None => {
                self.cursors.push((channel, id));
                proof {
                    let ns = self.cursors@;
                    assert(cursors_wf(ns)) by {
                        assert forall|a: int, b: int| 0 <= a < b < ns.len() implies #[trigger] ns[a].0
                            != #[trigger] ns[b].0 by {
                            if b < cs.len() {
                                assert(cs[a].0 != cs[b].0);
                            }
                        }
                    }
                    lemma_cursor_at(ns, cs.len() as int);
                    assert forall|c: u64| c != channel implies #[trigger] cursor_in(ns, c)
                        == cursor_in(cs, c) by {
                        lemma_cursor_same(cs, ns, c);
                    }
                    assert(self@.wf());
                }
            },
        }
    }

    /// How many messages of `author` fell on day `d`.
    pub fn count_of(&self, author: &Author, d: u16) -> (r: u32)
        requires
            self@.wf(),
        ensures
            r as nat == self@.count(author.key(), d),
    {
        match author {
            Author::User(_) => list_count_on(&self.users, author, d),
            Author::Webhook(_) => list_count_on(&self.webhooks, author, d),
        }
    }

    /// How many registered users the store holds.
    pub fn user_count(&self) -> (r: usize)
        ensures
            r == self@.users.len(),
    {
        self.users.len()
    }

    /// How many webhook posters the store holds.
    pub fn webhook_count(&self) -> (r: usize)
        ensures
            r == self@.webhooks.len(),
    {
        self.webhooks.len()
    }

    /// The identifier of the `i`-th user.
    pub fn user_id(&self, i: usize) -> (r: u64)
        requires
            self@.wf(),
            i < self@.users.len(),
        ensures
            self@.users[i as int].key == KeyView::User(r),
    {
        match &self.users[i].author {
            Author::User(id) => *id,
            Author::Webhook(_) => 0,
        }
    }

    /// The day counts of the `i`-th user.
    pub fn user_days(&self, i: usize) -> (r: &Vec<(u16, u32)>)
        requires
            i < self@.users.len(),
        ensures
            r@ == self@.users[i as int].days,
    {
        &self.users[i].days
    }

    /// The name and the captured avatar URL of the `i`-th webhook poster.
    pub fn webhook(&self, i: usize) -> (r: (String, String))
        requires
            self@.wf(),
            i < self@.webhooks.len(),
        ensures
            self@.webhooks[i as int].key == KeyView::Webhook(r.0@),
            self@.webhooks[i as int].avatar == r.1@,
    {
        match &self.webhooks[i].author {
            Author::Webhook(w) => (w.name.clone(), w.avatar_url.clone()),
            Author::User(_) => (String::new(), String::new()),
        }
    }

    /// The day counts of the `i`-th webhook poster.
    pub fn webhook_days(&self, i: usize) -> (r: &Vec<(u16, u32)>)
        requires
            i < self@.webhooks.len(),
        ensures
            r@ == self@.webhooks[i as int].days,
    {
        &self.webhooks[i].days
    }

    pub fn range(&self) -> (r: Option<(u16, u16)>)
        ensures
            r == self@.range,
    {
        self.range
    }

    /// Records one message: its participant's count on its day grows by one
    /// (a participant seen for the first time is added, with the avatar URL
    /// it shows now), and the range widens to take in that day. On an error
    /// nothing changes.
    pub fn process_message(&mut self, msg: &MessageRecord) -> (r: Result<(), RecordError>)
        requires
            old(self)@.wf(),
        ensures
            final(self)@.wf(),
            match day_of(msg.timestamp as int) {
                None => r == Err::<(), RecordError>(RecordError::DayOutOfRange) && final(self)@
                    == old(self)@,
                Some(d) => if old(self)@.count(msg.author.key(), d) == u32::MAX {
                    r == Err::<(), RecordError>(RecordError::CountOverflow) && final(self)@
                        == old(self)@
                } else {
                    r is Ok && recorded(
                        old(self)@,
                        final(self)@,
                        msg.author.key(),
                        msg.author.avatar(),
                        d,
                    )
                },
            },
    {
        let day = match timestamp_to_uday(msg.timestamp) {
            Some(d) => d,
            None => return Err(RecordError::DayOutOfRange),
        };
        let ghost o = self@;
        let ghost key = msg.author.key();
        let recorded = match &msg.author {
            Author::User(_) => record_in(&mut self.users, &msg.author, day),
            Author::Webhook(_) => record_in(&mut self.webhooks, &msg.author, day),
        };
        if !recorded {
            return Err(RecordError::CountOverflow);
        }
        let ghost mid = self@;
        self.range = match self.range {
            None => Some((day, day)),
            Some((lo, hi)) => Some((if day < lo { day } else { lo }, if day > hi { day } else { hi })),
        };
        proof {
            let n = self@;
            lemma_widen(o.range, day);
            assert(list_recorded(o.list_for(key), n.list_for(key), key, msg.author.avatar(), day));
            lemma_recorded_in_range(o.list_for(key), n.list_for(key), key, msg.author.avatar(), day, o.range);
            lemma_in_range_widen(o.users, o.range, day);
            lemma_in_range_widen(o.webhooks, o.range, day);
            if key is User {
                assert(n.webhooks == o.webhooks);
                assert(list_wf(n.users));
                assert(list_in_range(n.users, n.range));
            } else {
                assert(n.users == o.users);
                assert(list_wf(n.webhooks));
                assert(list_in_range(n.webhooks, n.range));
            }
            assert forall|i: int| 0 <= i < n.users.len() implies (#[trigger] n.users[i]).key is User
                && n.users[i].avatar.len() == 0 by {
                if i < o.users.len() {
                    assert(o.users[i].key is User);
                }
            }
            assert forall|i: int| 0 <= i < n.webhooks.len() implies (#[trigger] n.webhooks[i]).key is Webhook by {
                if i < o.webhooks.len() {
                    assert(o.webhooks[i].key is Webhook);
                }
            }
            assert(n.wf());
        }
        Ok(())
    }
}

} // verus!
