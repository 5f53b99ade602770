//! The decisions of the ingestion loop over a guild's channels: which page
//! to fetch next, what a fetched page or a failed fetch leads to, and when
//! the run ends. The caller performs the fetches, the waits and the saves.
use crate::pages::{days_valid, page_fits, page_recorded};
use crate::store::{Datastore, MessageRecord, RecordError, StoreView};
use vstd::prelude::*;

verus! {

/// Milliseconds to wait before fetching a page again after a failure.
pub const RETRY_DELAY_MS: u64 = 500;

/// A failed fetch is reported to the operator at every this many failures in a row.
pub const WARN_EVERY: u32 = 10;

/// What the caller does next.
#[derive(Debug, Clone, Copy, PartialEq, Eq, Structural)]
pub enum Action {
    /// Fetch up to 100 messages of `channel` strictly after `after`, oldest first.
    Fetch { channel: u64, after: Option<u64> },
    /// The run is over; `complete` is false when it was interrupted.
    Finish { complete: bool },
}

/// What a fetched page led to.
#[derive(Debug, Clone, Copy, PartialEq, Eq, Structural)]
pub enum PageOutcome {
    /// The page was recorded; the channel may hold more.
    Continue,
    /// The page was empty: the channel is done, and the store should be saved.
    ChannelDone,
}

/// What to do after a failed fetch: wait, then fetch the same page again.
#[derive(Debug, Clone, Copy, PartialEq, Eq, Structural)]
pub struct Retry {
    pub wait_ms: u64,
    /// Whether to tell the operator that fetches keep failing.
    pub warn: bool,
}

pub struct IngestionView {
    pub channels: Seq<u64>,
    /// The index of the channel being fetched.
    pub next: nat,
    /// Failed fetches in a row of the current page.
    pub failures: nat,
    pub interrupted: bool,
}

impl IngestionView {
    pub open spec fn wf(self) -> bool {
        self.next <= self.channels.len() && self.failures <= u32::MAX
    }

    pub open spec fn done(self) -> bool {
        self.interrupted || self.next >= self.channels.len()
    }

    /// The action that follows this state for a store holding `store`.
    pub open spec fn action(self, store: StoreView) -> Action {
        if self.done() {
            Action::Finish { complete: !self.interrupted }
        } else {
            let channel = self.channels[self.next as int];
            Action::Fetch { channel, after: store.cursor(channel) }
        }
    }
}

/// A run over a guild's channels, in order.
pub struct Ingestion {
    channels: Vec<u64>,
    next: usize,
    failures: u32,
    interrupted: bool,
}

impl View for Ingestion {
    type V = IngestionView;

    closed spec fn view(&self) -> IngestionView {
        IngestionView {
            channels: self.channels@,
            next: self.next as nat,
            failures: self.failures as nat,
            interrupted: self.interrupted,
        }
    }
}

impl Ingestion {
    /// A run that starts at the first of `channels`.
    pub fn new(channels: Vec<u64>) -> (r: Ingestion)
        ensures
            r@ == (IngestionView { channels: channels@, next: 0, failures: 0, interrupted: false }),
            r@.wf(),
    {
        Ingestion { channels, next: 0, failures: 0, interrupted: false }
    }

    /// The next action: fetch the page of the current channel that follows
    /// its cursor, or finish.
    pub fn next_action(&self, store: &Datastore) -> (r: Action)
        requires
            self@.wf(),
            store@.wf(),
        ensures
            r == self@.action(store@),
    {
        if self.interrupted || self.next >= self.channels.len() {
            Action::Finish { complete: !self.interrupted }
        } else {
            let channel = self.channels[self.next];
            Action::Fetch { channel, after: store.get_last_fetch(channel) }
        }
    }

    /// Takes in a page fetched for the current channel, and whether an
    /// interrupt was signalled. A non-empty page is recorded whole, in the
    /// order its messages were sent, and the cursor moves past it; an empty
    /// one ends the channel. An interrupt ends the
    /// run at this page boundary: the store then holds every page processed
    /// so far, and its cursors say where each channel resumes. On an error
    /// the run's state stays as it was.
    pub fn on_page(&mut self, store: &mut Datastore, page: &Vec<MessageRecord>, interrupt: bool) -> (r: Result<
        PageOutcome,
        RecordError,
    >)
        requires
            old(self)@.wf(),
            !old(self)@.done(),
            old(store)@.wf(),
        ensures
            final(self)@.wf(),
            final(store)@.wf(),
            ({
                let s = old(self)@;
                let channel = s.channels[s.next as int];
                &&& page@.len() == 0 ==> r == Ok::<PageOutcome, RecordError>(PageOutcome::ChannelDone)
                    && final(store)@ == old(store)@ && final(self)@ == (IngestionView {
                    next: s.next + 1,
                    failures: 0,
                    interrupted: interrupt,
                    ..s
                })
                &&& page@.len() > 0 ==> (r is Ok <==> days_valid(page@) && page_fits(
                    old(store)@,
                    page@,
                ))
                &&& page@.len() > 0 && r is Ok ==> r == Ok::<PageOutcome, RecordError>(
                    PageOutcome::Continue,
                ) && final(self)@ == (IngestionView { failures: 0, interrupted: interrupt, ..s })
                    && page_recorded(old(store)@, final(store)@, channel, page@)
                &&& r is Err ==> final(self)@ == s && final(store)@ == old(store)@
            }),
    {
        let count = self.channels.len();
        if page.len() == 0 {
            assert(self.next < count);
            self.next = self.next + 1;
            self.failures = 0;
            self.interrupted = interrupt;
            return Ok(PageOutcome::ChannelDone);
        }
        let channel = self.channels[self.next];
        match store.process_page(channel, page) {
            Ok(()) => {
                self.failures = 0;
                self.interrupted = interrupt;
                Ok(PageOutcome::Continue)
            },
            Err(e) => Err(e),
        }
    }

    /// Notes a failed fetch of the current page. The page is fetched again
    /// after a fixed wait, however often it fails, so no message is lost or
    /// counted twice; every `WARN_EVERY` failures in a row the operator is told.
    pub fn on_fetch_failed(&mut self) -> (r: Retry)
        requires
            old(self)@.wf(),
        ensures
            final(self)@.wf(),
            ({
                let s = old(self)@;
                let f = if s.failures < u32::MAX {
                    s.failures + 1
                } else {
                    s.failures
                };
                &&& final(self)@ == (IngestionView { failures: f, ..s })
                &&& r == (Retry { wait_ms: RETRY_DELAY_MS, warn: f % (WARN_EVERY as nat) == 0 })
            }),
    {
        if self.failures < u32::MAX {
            self.failures = self.failures + 1;
        }
        Retry { wait_ms: RETRY_DELAY_MS, warn: self.failures % WARN_EVERY == 0 }
    }
}

} // verus!
