//! Participants (registered users and webhook posters) and the per-kind lists
//! of their day counts.
use crate::counts::{
    count_on, day_count, day_sum, days_wf, find_day, lemma_append_new, lemma_bump,
    lemma_count_absent, lemma_count_at,
};
use vstd::prelude::*;

verus! {

/// A poster that has no account: known by its display name alone, with the
/// avatar URL it showed.
pub struct WebhookData {
    pub name: String,
    pub avatar_url: String,
}

/// Who sent a message.
pub enum Author {
    /// A registered account, by its numeric identifier.
    User(u64),
    /// A webhook poster.
    Webhook(WebhookData),
}

/// The identity of a participant: users and webhook posters never collide.
pub enum KeyView {
    User(u64),
    Webhook(Seq<char>),
}

impl KeyView {
    /// The identifier of a user key.
    pub open spec fn user_id(self) -> u64 {
        match self {
            KeyView::User(id) => id,
            KeyView::Webhook(_) => 0,
        }
    }

    /// The name of a webhook key.
    pub open spec fn name(self) -> Seq<char> {
        match self {
            KeyView::User(_) => Seq::empty(),
            KeyView::Webhook(name) => name,
        }
    }
}

impl Author {
    pub open spec fn key(&self) -> KeyView {
        match self {
            Author::User(id) => KeyView::User(*id),
            Author::Webhook(w) => KeyView::Webhook(w.name@),
        }
    }

    /// The avatar URL that a webhook poster showed; empty for a user.
    pub open spec fn avatar(&self) -> Seq<char> {
        match self {
            Author::User(_) => Seq::empty(),
            Author::Webhook(w) => w.avatar_url@,
        }
    }

    /// A webhook poster, showing `avatar_url` or, where it shows none, the
    /// default avatar.
    pub fn webhook(name: String, avatar_url: Option<String>) -> (r: Author)
        ensures
            r.key() == KeyView::Webhook(name@),
            r.avatar() == match avatar_url {
                Some(u) => u@,
                None => crate::report::DEFAULT_PFP@,
            },
    {
        let avatar_url = match avatar_url {
            Some(u) => u,
            None => String::from_str(crate::report::DEFAULT_PFP),
        };
        Author::Webhook(WebhookData { name, avatar_url })
    }

    /// Whether two authors are the same participant.
    pub fn same_participant(&self, other: &Author) -> (r: bool)
        ensures
            r == (self.key() == other.key()),
    {
        match (self, other) {
            (Author::User(a), Author::User(b)) => *a == *b,
            (Author::Webhook(a), Author::Webhook(b)) => a.name == b.name,
            _ => false,
        }
    }

    /// An author with the same fields.
    pub fn duplicate(&self) -> (r: Author)
        ensures
            r == *self,
    {
        match self {
            Author::User(id) => Author::User(*id),
            Author::Webhook(w) => Author::Webhook(
                WebhookData { name: w.name.clone(), avatar_url: w.avatar_url.clone() },
            ),
        }
    }
}

/// What the store knows of one participant.
pub struct ParticipantView {
    pub key: KeyView,
    /// The avatar URL captured when the participant was first seen.
    pub avatar: Seq<char>,
    pub days: Seq<(u16, u32)>,
}

/// One participant: who it is (as first seen) and its day counts.
pub struct Participant {
    pub author: Author,
    pub days: Vec<(u16, u32)>,
}

impl View for Participant {
    type V = ParticipantView;

    open spec fn view(&self) -> ParticipantView {
        ParticipantView { key: self.author.key(), avatar: self.author.avatar(), days: self.days@ }
    }
}

pub open spec fn views(ps: Seq<Participant>) -> Seq<ParticipantView> {
    ps.map_values(|p: Participant| p@)
}

/// Distinct keys, and well-formed day counts for each.
pub open spec fn list_wf(ps: Seq<ParticipantView>) -> bool {
    &&& forall|i: int, j: int|
        0 <= i < j < ps.len() ==> #[trigger] ps[i].key != #[trigger] ps[j].key
    &&& forall|i: int| 0 <= i < ps.len() ==> days_wf(#[trigger] ps[i].days)
}

pub open spec fn list_has(ps: Seq<ParticipantView>, k: KeyView) -> bool {
    exists|i: int| 0 <= i < ps.len() && #[trigger] ps[i].key == k
}

pub open spec fn list_index(ps: Seq<ParticipantView>, k: KeyView) -> int {
    choose|i: int| 0 <= i < ps.len() && #[trigger] ps[i].key == k
}

/// How many messages of participant `k` fell on day `d`.
pub open spec fn list_count(ps: Seq<ParticipantView>, k: KeyView, d: u16) -> nat {
    if list_has(ps, k) {
        day_count(ps[list_index(ps, k)].days, d)
    } else {
        0
    }
}

/// The sum of participant `k`'s per-day counts.
pub open spec fn list_total(ps: Seq<ParticipantView>, k: KeyView) -> nat {
    if list_has(ps, k) {
        day_sum(ps[list_index(ps, k)].days)
    } else {
        0
    }
}

/// The avatar URL captured for participant `k`.
pub open spec fn list_avatar(ps: Seq<ParticipantView>, k: KeyView) -> Seq<char> {
    if list_has(ps, k) {
        ps[list_index(ps, k)].avatar
    } else {
        Seq::empty()
    }
}

/// What recording one message of `key` on day `d` does to a list: the
/// participant's count that day grows by one; a new participant is appended.
pub open spec fn list_recorded(
    old: Seq<ParticipantView>,
    new: Seq<ParticipantView>,
    key: KeyView,
    avatar: Seq<char>,
    d: u16,
) -> bool {
    &&& list_wf(new)
    &&& forall|k: KeyView, e: u16|
        #[trigger] list_count(new, k, e) == list_count(old, k, e) + (if k == key && e == d {
            1nat
        } else {
            0nat
        })
    &&& forall|k: KeyView|
        #[trigger] list_total(new, k) == list_total(old, k) + (if k == key {
            1nat
        } else {
            0nat
        })
    &&& forall|k: KeyView| #[trigger] list_has(new, k) == (list_has(old, k) || k == key)
    &&& new.len() == old.len() + (if list_has(old, key) {
        0int
    } else {
        1int
    })
    &&& forall|i: int|
        0 <= i < old.len() ==> #[trigger] new[i].key == old[i].key && new[i].avatar
            == old[i].avatar
    &&& !list_has(old, key) ==> new.last().key == key && new.last().avatar == avatar
}

/// A count held in a list never passes `u32::MAX`.
pub proof fn lemma_list_count_bounded(ps: Seq<ParticipantView>, k: KeyView, d: u16)
    ensures
        list_count(ps, k, d) <= u32::MAX,
{
    if list_has(ps, k) {
        crate::counts::lemma_count_bounded(ps[list_index(ps, k)].days, d);
    }
}

/// The participant at `i` is the one found for its key.
pub proof fn lemma_key_index(ps: Seq<ParticipantView>, i: int)
    requires
        list_wf(ps),
        0 <= i < ps.len(),
    ensures
        list_has(ps, ps[i].key),
        list_index(ps, ps[i].key) == i,
{
    let b = list_index(ps, ps[i].key);
    if b < i {
        assert(ps[b].key != ps[i].key);
    } else if i < b {
        assert(ps[i].key != ps[b].key);
    }
}

proof fn lemma_index_kept(old: Seq<ParticipantView>, new: Seq<ParticipantView>, k: KeyView)
    requires
        list_wf(old),
        list_has(old, k),
        old.len() <= new.len(),
        forall|i: int| 0 <= i < old.len() ==> #[trigger] new[i].key == old[i].key,
        forall|i: int| old.len() <= i < new.len() ==> #[trigger] new[i].key != k,
    ensures
        list_has(new, k),
        list_index(new, k) == list_index(old, k),
{
    let a = list_index(old, k);
    assert(new[a].key == k);
    let b = list_index(new, k);
    if b != a {
        assert(old[b].key == k);
        if a < b {
            assert(old[a].key != old[b].key);
        } else {
            assert(old[b].key != old[a].key);
        }
    }
}

/// The position of participant `author` in the list, if present.
pub(crate) fn find_participant(ps: &Vec<Participant>, author: &Author) -> (r: Option<usize>)
    ensures
        match r {
            Some(i) => i < ps@.len() && views(ps@)[i as int].key == author.key(),
            None => !list_has(views(ps@), author.key()),
        },
{
    let mut i: usize = 0;
    while i < ps.len()
        invariant
            i <= ps@.len(),
            forall|j: int| 0 <= j < i ==> #[trigger] views(ps@)[j].key != author.key(),
        decreases ps@.len() - i,
    {
        if ps[i].author.same_participant(author) {
            return Some(i);
        }
        i = i + 1;
    }
    None
}

/// How many messages of `author` the list holds on day `d`.
pub(crate) fn list_count_on(ps: &Vec<Participant>, author: &Author, d: u16) -> (r: u32)
    requires
        list_wf(views(ps@)),
    ensures
        r as nat == list_count(views(ps@), author.key(), d),
{
    match find_participant(ps, author) {
        Some(i) => {
            proof {
                let vs = views(ps@);
                lemma_index_kept(vs, vs, author.key());
                assert(days_wf(vs[i as int].days));
            }
            count_on(&ps[i].days, d)
        },
        None => 0,
    }
}

/// Records one message of `author` on day `d`, unless its count that day is
/// already the largest a `u32` holds; the list is then left as it was.
pub(crate) fn record_in(ps: &mut Vec<Participant>, author: &Author, d: u16) -> (r: bool)
    requires
        list_wf(views(old(ps)@)),
    ensures
        r == (list_count(views(old(ps)@), author.key(), d) != u32::MAX),
        r ==> list_recorded(views(old(ps)@), views(final(ps)@), author.key(), author.avatar(), d),
        !r ==> final(ps)@ == old(ps)@,
{
    let ghost vold = views(ps@);
    let ghost key = author.key();
    match find_participant(ps, author) {
        Some(i) => {
            proof {
                lemma_index_kept(vold, vold, key);
            }
            let found = find_day(&ps[i].days, d);
            match found {
                Some(j) => {
                    let c = ps[i].days[j].1;
                    proof {
                        lemma_count_at(vold[i as int].days, j as int);
                    }
                    if c == u32::MAX {
                        return false;
                    }
                    proof {
                        lemma_bump(vold[i as int].days, j as int);
                    }
                    ps[i].days[j] = (d, c + 1);
                },
                None => {
                    proof {
                        lemma_count_absent(vold[i as int].days, d);
                        lemma_append_new(vold[i as int].days, d);
                    }
                    ps[i].days.push((d, 1));
                },
            }
            proof {
                let vnew = views(ps@);
                assert(list_wf(vnew)) by {
                    assert forall|a: int, b: int| 0 <= a < b < vnew.len() implies #[trigger] vnew[a].key
                        != #[trigger] vnew[b].key by {
                        assert(vold[a].key != vold[b].key);
                    }
                    assert forall|a: int| 0 <= a < vnew.len() implies days_wf(
                        #[trigger] vnew[a].days,
                    ) by {
                        if a != i {
                            assert(vnew[a] == vold[a]);
                        }
                    }
                }
                assert forall|k: KeyView| #[trigger] list_has(vnew, k) == list_has(vold, k) by {
                    if list_has(vold, k) {
                        lemma_index_kept(vold, vnew, k);
                    }
                    if list_has(vnew, k) {
                        let b = list_index(vnew, k);
                        assert(vold[b].key == k);
                    }
                }
                assert forall|k: KeyView, e: u16|
                    #[trigger] list_count(vnew, k, e) == list_count(vold, k, e) + (if k == key
                        && e == d {
                        1nat
                    } else {
                        0nat
                    }) by {
                    if list_has(vold, k) {
                        lemma_index_kept(vold, vnew, k);
                        if list_index(vold, k) != i {
                            assert(vnew[list_index(vold, k)] == vold[list_index(vold, k)]);
                        }
                    }
                }
                assert forall|k: KeyView|
                    #[trigger] list_total(vnew, k) == list_total(vold, k) + (if k == key {
                        1nat
                    } else {
                        0nat
                    }) by {
                    if list_has(vold, k) {
                        lemma_index_kept(vold, vnew, k);
                        if list_index(vold, k) != i {
                            assert(vnew[list_index(vold, k)] == vold[list_index(vold, k)]);
                        }
                    }
                }
            }
        },
        None => {
            let ghost days0: Seq<(u16, u32)> = Seq::empty();
            proof {
                lemma_append_new(days0, d);
                assert(days0.push((d, 1u32)) =~= seq![(d, 1u32)]);
            }
            let p = Participant { author: author.duplicate(), days: vec![(d, 1)] };
            ps.push(p);
            proof {
                let vnew = views(ps@);
                let n = vold.len();
                assert(vnew.drop_last() =~= vold);
                assert(list_wf(vnew)) by {
                    assert forall|a: int, b: int| 0 <= a < b < vnew.len() implies #[trigger] vnew[a].key
                        != #[trigger] vnew[b].key by {
                        if b < n {
                            assert(vold[a].key != vold[b].key);
                        } else {
                            assert(vold[a].key != key);
                        }
                    }
                    assert forall|a: int| 0 <= a < vnew.len() implies days_wf(
                        #[trigger] vnew[a].days,
                    ) by {
                        if a < n {
                            assert(vnew[a] == vold[a]);
                        }
                    }
                }
                assert(vnew[n as int].key == key);
                assert(vnew[n as int].days =~= days0.push((d, 1u32)));
                assert forall|k: KeyView| #[trigger] list_has(vnew, k) == (list_has(vold, k) || k
                    == key) by {
                    if list_has(vold, k) {
                        lemma_index_kept(vold, vnew, k);
                    }
                    if list_has(vnew, k) && k != key {
                        let b = list_index(vnew, k);
                        assert(b < n);
                        assert(vold[b].key == k);
                    }
                }
                assert(list_index(vnew, key) == n) by {
                    let b = list_index(vnew, key);
                    if b < n {
                        assert(vold[b].key == key);
                    }
                }
                assert forall|k: KeyView, e: u16|
                    #[trigger] list_count(vnew, k, e) == list_count(vold, k, e) + (if k == key
                        && e == d {
                        1nat
                    } else {
                        0nat
                    }) by {
                    if list_has(vold, k) {
                        lemma_index_kept(vold, vnew, k);
                        assert(vnew[list_index(vold, k)] == vold[list_index(vold, k)]);
                    } else if k == key {
                        lemma_count_absent(days0, e);
                    }
                }
                assert forall|k: KeyView|
                    #[trigger] list_total(vnew, k) == list_total(vold, k) + (if k == key {
                        1nat
                    } else {
                        0nat
                    }) by {
                    if list_has(vold, k) {
                        lemma_index_kept(vold, vnew, k);
                        assert(vnew[list_index(vold, k)] == vold[list_index(vold, k)]);
                    }
                }
            }
        },
    }
    true
}

} // verus!
