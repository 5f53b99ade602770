//! The flat form in which a store is persisted, and the conversions to and
//! from it.
use crate::participants::{Author, KeyView, Participant, ParticipantView, WebhookData};
use crate::store::{Datastore, StoreView};
use vstd::prelude::*;

verus! {

/// A store as plain values: the two range bounds, each user's identifier and
/// day counts, each webhook poster's name, captured avatar URL and day
/// counts, and the channel cursors.
pub struct Snapshot {
    pub range: (Option<u16>, Option<u16>),
    pub user_data: Vec<(u64, Vec<(u16, u32)>)>,
    pub wh_data: Vec<(String, String, Vec<(u16, u32)>)>,
    pub last_fetches: Vec<(u64, u64)>,
}

pub struct SnapshotView {
    pub range: (Option<u16>, Option<u16>),
    pub users: Seq<(u64, Seq<(u16, u32)>)>,
    pub webhooks: Seq<(Seq<char>, Seq<char>, Seq<(u16, u32)>)>,
    pub cursors: Seq<(u64, u64)>,
}

impl View for Snapshot {
    type V = SnapshotView;

    open spec fn view(&self) -> SnapshotView {
        SnapshotView {
            range: self.range,
            users: self.user_data@.map_values(|u: (u64, Vec<(u16, u32)>)| (u.0, u.1@)),
            webhooks: self.wh_data@.map_values(
                |w: (String, String, Vec<(u16, u32)>)| (w.0@, w.1@, w.2@),
            ),
            cursors: self.last_fetches@,
        }
    }
}

/// The flat form of a store.
pub open spec fn encode(v: StoreView) -> SnapshotView {
    SnapshotView {
        range: match v.range {
            Some((lo, hi)) => (Some(lo), Some(hi)),
            None => (None, None),
        },
        users: v.users.map_values(|p: ParticipantView| (p.key.user_id(), p.days)),
        webhooks: v.webhooks.map_values(|p: ParticipantView| (p.key.name(), p.avatar, p.days)),
        cursors: v.cursors,
    }
}

/// The store that a flat form stands for, where it stands for a
/// well-formed one.
pub open spec fn decode(s: SnapshotView) -> Option<StoreView> {
    let range = match s.range {
        (Some(lo), Some(hi)) => Some(Some((lo, hi))),
        (None, None) => Some(None),
        _ => None,
    };
    match range {
        None => None,
        Some(range) => {
            let v = StoreView {
                range,
                users: s.users.map_values(
                    |u: (u64, Seq<(u16, u32)>)|
                        ParticipantView { key: KeyView::User(u.0), avatar: Seq::empty(), days: u.1 },
                ),
                webhooks: s.webhooks.map_values(
                    |w: (Seq<char>, Seq<char>, Seq<(u16, u32)>)|
                        ParticipantView { key: KeyView::Webhook(w.0), avatar: w.1, days: w.2 },
                ),
                cursors: s.cursors,
            };
            if v.wf() {
                Some(v)
            } else {
                None
            }
        },
    }
}

/// Saving and loading keeps a store whole: the flat form of a well-formed
/// store decodes to the same range, the same counts of every participant
/// (with the captured avatar URLs) and the same cursors.
pub proof fn lemma_round_trip(v: StoreView)
    requires
        v.wf(),
    ensures
        decode(encode(v)) == Some(v),
{
    let s = encode(v);
    let users = s.users.map_values(
        |u: (u64, Seq<(u16, u32)>)|
            ParticipantView { key: KeyView::User(u.0), avatar: Seq::empty(), days: u.1 },
    );
    let webhooks = s.webhooks.map_values(
        |w: (Seq<char>, Seq<char>, Seq<(u16, u32)>)|
            ParticipantView { key: KeyView::Webhook(w.0), avatar: w.1, days: w.2 },
    );
    assert forall|i: int| 0 <= i < v.users.len() implies #[trigger] users[i] == v.users[i] by {
        assert(v.users[i].key is User);
        assert(v.users[i].avatar =~= Seq::empty());
    }
    assert forall|i: int| 0 <= i < v.webhooks.len() implies #[trigger] webhooks[i] == v.webhooks[i] by {
        assert(v.webhooks[i].key is Webhook);
    }
    assert(users =~= v.users);
    assert(webhooks =~= v.webhooks);
}

fn copy_days(days: &Vec<(u16, u32)>) -> (r: Vec<(u16, u32)>)
    ensures
        r@ == days@,
{
    let mut r: Vec<(u16, u32)> = Vec::new();
    let mut i: usize = 0;
    while i < days.len()
        invariant
            i <= days@.len(),
            r@ == days@.take(i as int),
        decreases days@.len() - i,
    {
        r.push(days[i]);
        i = i + 1;
        assert(r@ =~= days@.take(i as int));
    }
    assert(days@.take(days@.len() as int) =~= days@);
    r
}

impl Datastore {
    /// The flat form of this store.
    pub fn to_snapshot(&self) -> (r: Snapshot)
        requires
            self@.wf(),
        ensures
            r@ == encode(self@),
    {
        let ghost e = encode(self@);
        let mut user_data: Vec<(u64, Vec<(u16, u32)>)> = Vec::new();
        let mut i: usize = 0;
        while i < self.user_count()
            invariant
                self@.wf(),
                e == encode(self@),
                i <= self@.users.len(),
                user_data@.len() == i,
                forall|j: int|
                    0 <= j < i ==> (#[trigger] user_data@[j]).0 == e.users[j].0
                        && user_data@[j].1@ == e.users[j].1,
            decreases self@.users.len() - i,
        {
            let id = self.user_id(i);
            user_data.push((id, copy_days(self.user_days(i))));
            i = i + 1;
        }
        let mut wh_data: Vec<(String, String, Vec<(u16, u32)>)> = Vec::new();
        let mut i: usize = 0;
        while i < self.webhook_count()
            invariant
                self@.wf(),
                e == encode(self@),
                i <= self@.webhooks.len(),
                wh_data@.len() == i,
                forall|j: int|
                    0 <= j < i ==> (#[trigger] wh_data@[j]).0@ == e.webhooks[j].0
                        && wh_data@[j].1@ == e.webhooks[j].1 && wh_data@[j].2@ == e.webhooks[j].2,
            decreases self@.webhooks.len() - i,
        {
            let (name, avatar) = self.webhook(i);
            wh_data.push((name, avatar, copy_days(self.webhook_days(i))));
            i = i + 1;
        }
        let range = match self.range() {
            Some((lo, hi)) => (Some(lo), Some(hi)),
            None => (None, None),
        };
        let r = Snapshot { range, user_data, wh_data, last_fetches: copy_cursors(self.cursor_entries()) };
        assert(r@.users =~= e.users);
        assert(r@.webhooks =~= e.webhooks);
        r
    }

    /// The store that a flat form stands for; `None` where it stands for
    /// none (its range bounds disagree, a participant or a channel appears
    /// twice, a day appears twice in one participant's counts, a count is
    /// zero, or a day lies outside the range).
    pub fn from_snapshot(s: &Snapshot) -> (r: Option<Datastore>)
        ensures
            match r {
                Some(d) => decode(s@) == Some(d@),
                None => decode(s@) is None,
            },
    {
        let range = match s.range {
            (Some(lo), Some(hi)) => Some((lo, hi)),
            (None, None) => None,
            _ => return None,
        };
        let ghost sv = s@;
        let mut users: Vec<Participant> = Vec::new();
        let mut i: usize = 0;
        while i < s.user_data.len()
            invariant
                sv == s@,
                i <= sv.users.len(),
                users@.len() == i,
                forall|j: int| 0 <= j < i ==> (#[trigger] users@[j]).author is User,
                forall|j: int|
                    0 <= j < i ==> #[trigger] users@[j]@ == (ParticipantView {
                        key: KeyView::User(sv.users[j].0),
                        avatar: Seq::empty(),
                        days: sv.users[j].1,
                    }),
            decreases sv.users.len() - i,
        {
            let (id, days) = (&s.user_data[i].0, &s.user_data[i].1);
            users.push(Participant { author: Author::User(*id), days: copy_days(days) });
            i = i + 1;
        }
        let mut webhooks: Vec<Participant> = Vec::new();
        let mut i: usize = 0;
        while i < s.wh_data.len()
            invariant
                sv == s@,
                i <= sv.webhooks.len(),
                webhooks@.len() == i,
                forall|j: int| 0 <= j < i ==> (#[trigger] webhooks@[j]).author is Webhook,
                forall|j: int|
                    0 <= j < i ==> #[trigger] webhooks@[j]@ == (ParticipantView {
                        key: KeyView::Webhook(sv.webhooks[j].0),
                        avatar: sv.webhooks[j].1,
                        days: sv.webhooks[j].2,
                    }),
            decreases sv.webhooks.len() - i,
        {
            let w = &s.wh_data[i];
            let author = Author::Webhook(
                WebhookData { name: w.0.clone(), avatar_url: w.1.clone() },
            );
            webhooks.push(Participant { author, days: copy_days(&w.2) });
            i = i + 1;
        }
        let cursors = copy_cursors(&s.last_fetches);
        proof {
            assert(crate::participants::views(users@) =~= sv.users.map_values(
                |u: (u64, Seq<(u16, u32)>)|
                    ParticipantView { key: KeyView::User(u.0), avatar: Seq::empty(), days: u.1 },
            ));
            assert(crate::participants::views(webhooks@) =~= sv.webhooks.map_values(
                |w: (Seq<char>, Seq<char>, Seq<(u16, u32)>)|
                    ParticipantView { key: KeyView::Webhook(w.0), avatar: w.1, days: w.2 },
            ));
        }
        Datastore::from_parts(range, users, webhooks, cursors)
    }
}

fn copy_cursors(cs: &Vec<(u64, u64)>) -> (r: Vec<(u64, u64)>)
    ensures
        r@ == cs@,
{
    let mut r: Vec<(u64, u64)> = Vec::new();
    let mut i: usize = 0;
    while i < cs.len()
        invariant
            i <= cs@.len(),
            r@ == cs@.take(i as int),
        decreases cs@.len() - i,
    {
        r.push(cs[i]);
        i = i + 1;
        assert(r@ =~= cs@.take(i as int));
    }
    assert(cs@.take(cs@.len() as int) =~= cs@);
    r
}

} // verus!
