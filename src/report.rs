//! The report tables: a header of dates over the observed range, and for
//! each participant a header, a row of daily counts and a row of running
//! totals.
use crate::counts::{count_on, day_count, days_wf};
use crate::day::{calendar_label_of, uday_to_date};
use crate::store::Datastore;
use crate::text::{decimal, decimal_of};
use vstd::prelude::*;

verus! {

/// The avatar shown for a participant that has none of its own.
pub const DEFAULT_PFP: &'static str = "https://cdn.discordapp.com/embed/avatars/0.png";

/// The volume category of a participant with `n` messages in all.
pub open spec fn category_of(n: int) -> Seq<char> {
    if n < 10 {
        "<10"@
    } else if n < 25 {
        "10-25"@
    } else if n < 50 {
        "25-50"@
    } else if n < 100 {
        "50-100"@
    } else if n < 250 {
        "100-250"@
    } else if n < 500 {
        "250-500"@
    } else if n < 1000 {
        "500-1000"@
    } else if n < 2500 {
        "1000-2500"@
    } else if n < 5000 {
        "2500-5000"@
    } else if n < 10000 {
        "5000-10,000"@
    } else if n < 25000 {
        "10,000-25,000"@
    } else if n < 50000 {
        "25,000-50,000"@
    } else {
        "50,000+"@
    }
}

/// The volume category of a participant with `n` messages in all: the first
/// bucket whose bound `n` stays strictly below.
pub fn categorize_num(n: u64) -> (r: &'static str)
    ensures
        r@ == category_of(n as int),
{
    if n < 10 {
        "<10"
    } else if n < 25 {
        "10-25"
    } else if n < 50 {
        "25-50"
    } else if n < 100 {
        "50-100"
    } else if n < 250 {
        "100-250"
    } else if n < 500 {
        "250-500"
    } else if n < 1000 {
        "500-1000"
    } else if n < 2500 {
        "1000-2500"
    } else if n < 5000 {
        "2500-5000"
    } else if n < 10000 {
        "5000-10,000"
    } else if n < 25000 {
        "10,000-25,000"
    } else if n < 50000 {
        "25,000-50,000"
    } else {
        "50,000+"
    }
}

/// The sum of the counts on days `lo ..= lo + i`.
pub open spec fn running(days: Seq<(u16, u32)>, lo: int, i: int) -> nat
    decreases i + 1,
{
    if i < 0 {
        0
    } else {
        running(days, lo, i - 1) + day_count(days, (lo + i) as u16)
    }
}

/// A participant's two rows over the days `lo ..= hi`.
pub struct MessageStats {
    /// The sum of all the row's counts.
    pub total: u64,
    /// The count of each day.
    pub daily: Vec<u32>,
    /// The running total up to and including each day.
    pub totals: Vec<u64>,
}

impl MessageStats {
    /// Whether these are the rows of `days` over the range (none without one).
    pub open spec fn of(self, days: Seq<(u16, u32)>, range: Option<(u16, u16)>) -> bool {
        match range {
            None => self.daily@.len() == 0 && self.totals@.len() == 0 && self.total == 0,
            Some((lo, hi)) => {
                let n = hi - lo + 1;
                &&& self.daily@.len() == n
                &&& self.totals@.len() == n
                &&& forall|i: int|
                    0 <= i < n ==> #[trigger] self.daily@[i] == day_count(days, (lo + i) as u16)
                &&& forall|i: int|
                    0 <= i < n ==> #[trigger] self.totals@[i] == running(days, lo as int, i)
                &&& self.total == running(days, lo as int, n - 1)
            },
        }
    }

    /// Each running total is the one before it (zero before the first)
    /// plus that day's count, so the totals never decrease.
    pub open spec fn cumulative(self) -> bool {
        &&& self.daily@.len() == self.totals@.len()
        &&& self.totals@.len() > 0 ==> self.totals@[0] == self.daily@[0]
        &&& forall|i: int|
            0 < i < self.totals@.len() ==> #[trigger] self.totals@[i] == self.totals@[i - 1]
                + self.daily@[i]
        &&& forall|i: int, j: int|
            0 <= i <= j < self.totals@.len() ==> #[trigger] self.totals@[i]
                <= #[trigger] self.totals@[j]
        &&& self.totals@.len() > 0 ==> self.total == self.totals@.last()
    }

    /// The daily counts and running totals of `days` over the range.
    pub fn generate(days: &Vec<(u16, u32)>, range: Option<(u16, u16)>) -> (r: MessageStats)
        requires
            days_wf(days@),
            range matches Some((lo, hi)) ==> lo <= hi,
        ensures
            r.of(days@, range),
            r.cumulative(),
    {
        let mut out = MessageStats { total: 0, daily: Vec::new(), totals: Vec::new() };
        let (lo, hi) = match range {
            None => return out,
            Some(r) => r,
        };
        let n: u32 = (hi - lo) as u32 + 1;
        let mut i: u32 = 0;
        while i < n
            invariant
                n == hi - lo + 1,
                i <= n,
                lo <= hi,
                days_wf(days@),
                out.daily@.len() == i,
                out.totals@.len() == i,
                out.total == running(days@, lo as int, i - 1),
                out.total <= i * 0xFFFF_FFFFnat,
                forall|j: int|
                    0 <= j < i ==> #[trigger] out.daily@[j] == day_count(days@, (lo + j) as u16),
                forall|j: int|
                    0 <= j < i ==> #[trigger] out.totals@[j] == running(days@, lo as int, j),
                i > 0 ==> out.totals@[0] == out.daily@[0],
                forall|j: int|
                    0 < j < i ==> #[trigger] out.totals@[j] == out.totals@[j - 1] + out.daily@[j],
                forall|a: int, b: int|
                    0 <= a <= b < i ==> #[trigger] out.totals@[a] <= #[trigger] out.totals@[b],
                forall|j: int| 0 <= j < i ==> #[trigger] out.totals@[j] <= out.total,
            decreases n - i,
        {
            let day: u16 = lo + i as u16;
            let c = count_on(days, day);
            proof {
                assert(i * 0xFFFF_FFFFnat + 0xFFFF_FFFFnat == (i + 1) * 0xFFFF_FFFFnat) by (nonlinear_arith);
                assert((i + 1) * 0xFFFF_FFFFnat <= 65536 * 0xFFFF_FFFFnat) by (nonlinear_arith)
                    requires i + 1 <= 65536;
            }
            out.total = out.total + c as u64;
            out.daily.push(c);
            out.totals.push(out.total);
            i = i + 1;
        }
        out
    }
}

/// What a profile lookup found of a registered user.
pub struct UserProfile {
    /// The user's tag, as shown on the platform.
    pub tag: String,
    pub avatar_url: Option<String>,
    /// Whether the account is automated.
    pub bot: bool,
}

/// The three cells that open a participant's row.
pub struct RowHeader {
    pub label: String,
    pub category: String,
    pub avatar: String,
}

/// A participant's header and rows.
pub struct ReportRow {
    pub header: RowHeader,
    pub stats: MessageStats,
}

/// A user's label: its tag, or its identifier where the lookup found nothing.
pub open spec fn user_label(id: u64, profile: Option<UserProfile>) -> Seq<char> {
    match profile {
        Some(p) => p.tag@,
        None => decimal_of(id as nat),
    }
}

/// A user's category: "Bots" for an automated account, else by volume.
pub open spec fn user_category(profile: Option<UserProfile>, total: u64) -> Seq<char> {
    match profile {
        Some(p) => if p.bot {
            "Bots"@
        } else {
            category_of(total as int)
        },
        None => category_of(total as int),
    }
}

pub open spec fn user_avatar(profile: Option<UserProfile>) -> Seq<char> {
    match profile {
        Some(p) => match p.avatar_url {
            Some(u) => u@,
            None => DEFAULT_PFP@,
        },
        None => DEFAULT_PFP@,
    }
}

/// The header cells of a user with `total` messages, from what the profile
/// lookup found.
pub fn generate_user_header(user_id: u64, profile: &Option<UserProfile>, total: u64) -> (r: RowHeader)
    ensures
        r.label@ == user_label(user_id, *profile),
        r.category@ == user_category(*profile, total),
        r.avatar@ == user_avatar(*profile),
{
    match profile {
        Some(p) => {
            let avatar = match &p.avatar_url {
                Some(u) => u.clone(),
                None => String::from_str(DEFAULT_PFP),
            };
            let category = if p.bot {
                String::from_str("Bots")
            } else {
                String::from_str(categorize_num(total))
            };
            RowHeader { label: p.tag.clone(), category, avatar }
        },
        None => RowHeader {
            label: decimal(user_id),
            category: String::from_str(categorize_num(total)),
            avatar: String::from_str(DEFAULT_PFP),
        },
    }
}

/// The label of a webhook poster's row.
pub open spec fn webhook_label(name: Seq<char>) -> Seq<char> {
    "(NQN) "@ + name
}

/// The header cells of a webhook poster: it has no profile, so a fixed
/// category and the avatar URL captured when it was first seen.
pub fn generate_webhook_header(name: &String, avatar_url: &String) -> (r: RowHeader)
    ensures
        r.label@ == webhook_label(name@),
        r.category@ == "NQN Webhooks"@,
        r.avatar@ == avatar_url@,
{
    let mut label = String::from_str("(NQN) ");
    label.append(name.as_str());
    RowHeader {
        label,
        category: String::from_str("NQN Webhooks"),
        avatar: avatar_url.clone(),
    }
}

impl Datastore {
    /// The header row of both tables: three fixed titles, then the date of
    /// every day in the observed range (none before any message).
    pub fn date_header(&self) -> (r: Vec<String>)
        requires
            self@.wf(),
        ensures
            r@.len() == 3 + match self@.range {
                None => 0int,
                Some((lo, hi)) => hi - lo + 1,
            },
            r@[0]@ == "Username"@,
            r@[1]@ == "Category"@,
            r@[2]@ == "PFP"@,
            forall|i: int|
                3 <= i < r@.len() ==> (self@.range matches Some((lo, hi)) && #[trigger] r@[i]@
                    == calendar_label_of((lo + i - 3) as u16)),
    {
        let mut r: Vec<String> = Vec::new();
        r.push(String::from_str("Username"));
        r.push(String::from_str("Category"));
        r.push(String::from_str("PFP"));
        match self.range() {
            None => {},
            Some((lo, hi)) => {
                let n: u32 = (hi - lo) as u32 + 1;
                let mut i: u32 = 0;
                while i < n
                    invariant
                        n == hi - lo + 1,
                        i <= n,
                        self@.range == Some((lo, hi)),
                        r@.len() == 3 + i,
                        r@[0]@ == "Username"@,
                        r@[1]@ == "Category"@,
                        r@[2]@ == "PFP"@,
                        forall|j: int|
                            3 <= j < r@.len() ==> #[trigger] r@[j]@ == calendar_label_of(
                                (lo + j - 3) as u16,
                            ),
                    decreases n - i,
                {
                    r.push(uday_to_date(lo + i as u16));
                    i = i + 1;
                }
            },
        }
        r
    }

    /// The `i`-th user's header and rows, given what its profile lookup found.
    pub fn user_row(&self, i: usize, profile: &Option<UserProfile>) -> (r: ReportRow)
        requires
            self@.wf(),
            i < self@.users.len(),
        ensures
            r.stats.of(self@.users[i as int].days, self@.range),
            r.stats.cumulative(),
            r.header.label@ == user_label(self@.users[i as int].key.user_id(), *profile),
            r.header.category@ == user_category(*profile, r.stats.total),
            r.header.avatar@ == user_avatar(*profile),
    {
        let id = self.user_id(i);
        proof {
            assert(days_wf(self@.users[i as int].days));
        }
        let stats = MessageStats::generate(self.user_days(i), self.range());
        let header = generate_user_header(id, profile, stats.total);
        ReportRow { header, stats }
    }

    /// The `i`-th webhook poster's header and rows.
    pub fn webhook_row(&self, i: usize) -> (r: ReportRow)
        requires
            self@.wf(),
            i < self@.webhooks.len(),
        ensures
            r.stats.of(self@.webhooks[i as int].days, self@.range),
            r.stats.cumulative(),
            r.header.label@ == webhook_label(self@.webhooks[i as int].key.name()),
            r.header.category@ == "NQN Webhooks"@,
            r.header.avatar@ == self@.webhooks[i as int].avatar,
    {
        let (name, avatar) = self.webhook(i);
        proof {
            assert(days_wf(self@.webhooks[i as int].days));
        }
        let stats = MessageStats::generate(self.webhook_days(i), self.range());
        let header = generate_webhook_header(&name, &avatar);
        ReportRow { header, stats }
    }
}

} // verus!
