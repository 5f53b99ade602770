use ums::ingest::{Action, Ingestion, PageOutcome, Retry, RETRY_DELAY_MS};
use ums::participants::Author;
use ums::snapshot::Snapshot;
use ums::pages::sort_page;
use ums::store::{Datastore, MessageRecord, RecordError};

fn msg(id: u64, user: u64, day: i64) -> MessageRecord {
    MessageRecord { id, author: Author::User(user), timestamp: day * 86400 }
}

fn populated() -> Datastore {
    let mut ds = Datastore::new();
    ds.process_page(10, &vec![msg(5, 1, 100), msg(3, 2, 101), msg(9, 1, 100)]).unwrap();
    ds.process_page(
        11,
        &vec![MessageRecord {
            id: 20,
            author: Author::webhook("hook".to_string(), Some("https://example.invalid/old.png".to_string())),
            timestamp: 104 * 86400,
        }],
    )
    .unwrap();
    ds
}

fn same_contents(a: &Snapshot, b: &Snapshot) -> bool {
    a.range == b.range && a.user_data == b.user_data && a.wh_data == b.wh_data
        && a.last_fetches == b.last_fetches
}

#[test]
fn snapshot_round_trip() {
    let ds = populated();
    let snap = ds.to_snapshot();
    assert_eq!(snap.range, (Some(100), Some(104)));
    assert_eq!(snap.user_data, vec![(1, vec![(100, 2)]), (2, vec![(101, 1)])]);
    assert_eq!(
        snap.wh_data,
        vec![("hook".to_string(), "https://example.invalid/old.png".to_string(), vec![(104, 1)])]
    );
    assert_eq!(snap.last_fetches, vec![(10, 9), (11, 20)]);
    let back = Datastore::from_snapshot(&snap).unwrap();
    assert!(same_contents(&back.to_snapshot(), &snap));
    assert_eq!(back.get_last_fetch(10), Some(9));
    assert_eq!(back.get_last_fetch(11), Some(20));
    assert_eq!(back.get_last_fetch(12), None);
}

#[test]
fn malformed_snapshots_are_refused() {
    let bad_range = Snapshot { range: (Some(1), None), user_data: vec![], wh_data: vec![], last_fetches: vec![] };
    assert!(Datastore::from_snapshot(&bad_range).is_none());
    let reversed = Snapshot { range: (Some(5), Some(4)), user_data: vec![], wh_data: vec![], last_fetches: vec![] };
    assert!(Datastore::from_snapshot(&reversed).is_none());
    let outside = Snapshot {
        range: (Some(1), Some(2)),
        user_data: vec![(1, vec![(3, 1)])],
        wh_data: vec![],
        last_fetches: vec![],
    };
    assert!(Datastore::from_snapshot(&outside).is_none());
    let zero = Snapshot { range: (Some(1), Some(2)), user_data: vec![(1, vec![(1, 0)])], wh_data: vec![], last_fetches: vec![] };
    assert!(Datastore::from_snapshot(&zero).is_none());
    let twice = Snapshot {
        range: (Some(1), Some(2)),
        user_data: vec![(1, vec![(1, 1)]), (1, vec![(2, 1)])],
        wh_data: vec![],
        last_fetches: vec![],
    };
    assert!(Datastore::from_snapshot(&twice).is_none());
    let same_day = Snapshot { range: (Some(1), Some(2)), user_data: vec![(1, vec![(1, 1), (1, 2)])], wh_data: vec![], last_fetches: vec![] };
    assert!(Datastore::from_snapshot(&same_day).is_none());
    let cursors = Snapshot { range: (None, None), user_data: vec![], wh_data: vec![], last_fetches: vec![(1, 2), (1, 3)] };
    assert!(Datastore::from_snapshot(&cursors).is_none());
}

#[test]
fn cursor_is_largest_identifier_seen() {
    let mut ds = Datastore::new();
    assert_eq!(ds.get_last_fetch(7), None);
    ds.process_page(7, &vec![msg(30, 1, 1), msg(10, 1, 1), msg(20, 2, 1)]).unwrap();
    assert_eq!(ds.get_last_fetch(7), Some(30));
    ds.process_page(7, &vec![msg(45, 1, 2), msg(31, 1, 2)]).unwrap();
    assert_eq!(ds.get_last_fetch(7), Some(45));
    ds.process_page(7, &vec![]).unwrap();
    assert_eq!(ds.get_last_fetch(7), Some(45));
    ds.save_last_fetch(8, 3);
    assert_eq!(ds.get_last_fetch(8), Some(3));
    assert_eq!(ds.get_last_fetch(7), Some(45));
}

#[test]
fn run_visits_channels_in_order() {
    let mut ds = Datastore::new();
    let mut run = Ingestion::new(vec![1, 2]);
    assert_eq!(run.next_action(&ds), Action::Fetch { channel: 1, after: None });
    assert_eq!(run.on_page(&mut ds, &vec![msg(4, 1, 1), msg(2, 1, 1)], false), Ok(PageOutcome::Continue));
    assert_eq!(run.next_action(&ds), Action::Fetch { channel: 1, after: Some(4) });
    assert_eq!(run.on_page(&mut ds, &vec![], false), Ok(PageOutcome::ChannelDone));
    assert_eq!(run.next_action(&ds), Action::Fetch { channel: 2, after: None });
    assert_eq!(run.on_page(&mut ds, &vec![], false), Ok(PageOutcome::ChannelDone));
    assert_eq!(run.next_action(&ds), Action::Finish { complete: true });
    assert_eq!(ds.user_row(0, &None).stats.total, 2);
}

#[test]
fn interrupt_between_channels_resumes() {
    let mut ds = Datastore::new();
    let mut run = Ingestion::new(vec![1, 2]);
    run.on_page(&mut ds, &vec![msg(8, 1, 1), msg(6, 1, 1)], false).unwrap();
    assert_eq!(run.on_page(&mut ds, &vec![], true), Ok(PageOutcome::ChannelDone));
    assert_eq!(run.next_action(&ds), Action::Finish { complete: false });

    let saved = ds.to_snapshot();
    let mut ds = Datastore::from_snapshot(&saved).unwrap();
    let mut run = Ingestion::new(vec![1, 2]);
    assert_eq!(run.next_action(&ds), Action::Fetch { channel: 1, after: Some(8) });
    assert_eq!(run.on_page(&mut ds, &vec![], false), Ok(PageOutcome::ChannelDone));
    assert_eq!(run.next_action(&ds), Action::Fetch { channel: 2, after: None });
    assert_eq!(ds.user_row(0, &None).stats.total, 2);
}

#[test]
fn interrupt_mid_channel_keeps_processed_pages() {
    let mut ds = Datastore::new();
    let mut run = Ingestion::new(vec![5]);
    assert_eq!(run.on_page(&mut ds, &vec![msg(3, 1, 1)], true), Ok(PageOutcome::Continue));
    assert_eq!(run.next_action(&ds), Action::Finish { complete: false });
    assert_eq!(ds.get_last_fetch(5), Some(3));
}

#[test]
fn failed_fetch_retries_and_warns() {
    let mut run = Ingestion::new(vec![1]);
    for i in 1..=25u32 {
        let r = run.on_fetch_failed();
        assert_eq!(r, Retry { wait_ms: RETRY_DELAY_MS, warn: i % 10 == 0 });
    }
    let mut ds = Datastore::new();
    assert_eq!(run.next_action(&ds), Action::Fetch { channel: 1, after: None });
    run.on_page(&mut ds, &vec![msg(1, 1, 1)], false).unwrap();
    assert_eq!(run.on_fetch_failed(), Retry { wait_ms: 500, warn: false });
}

fn hook(id: u64, day: i64, avatar: &str) -> MessageRecord {
    MessageRecord {
        id,
        author: Author::webhook("w".to_string(), Some(avatar.to_string())),
        timestamp: day * 86400,
    }
}

#[test]
fn unsorted_page_keeps_earliest_avatar() {
    let mut ds = Datastore::new();
    let page = vec![hook(9, 2, "late"), hook(3, 1, "early"), hook(5, 1, "middle")];
    ds.process_page(4, &page).unwrap();
    assert_eq!(ds.webhook(0), ("w".to_string(), "early".to_string()));
    assert_eq!(ds.get_last_fetch(4), Some(9));
    assert_eq!(ds.webhook_row(0).stats.daily, vec![2, 1]);
}

#[test]
fn sort_page_orders_by_time_then_id() {
    let page = vec![msg(7, 1, 3), msg(2, 1, 5), msg(4, 2, 3), msg(1, 1, 4)];
    let ids: Vec<u64> = sort_page(&page).iter().map(|m| m.id).collect();
    assert_eq!(ids, vec![4, 7, 1, 2]);
}

#[test]
fn overflowing_page_changes_nothing() {
    let snap = Snapshot {
        range: (Some(5), Some(5)),
        user_data: vec![(1, vec![(5, u32::MAX - 1)])],
        wh_data: vec![],
        last_fetches: vec![],
    };
    let mut ds = Datastore::from_snapshot(&snap).unwrap();
    let page = vec![msg(10, 2, 6), msg(11, 1, 5), msg(12, 1, 5)];
    assert!(!ds.page_fits_in(&page));
    assert_eq!(ds.process_page(3, &page), Err(RecordError::CountOverflow));
    assert_eq!(ds.user_count(), 1);
    assert_eq!(ds.range(), Some((5, 5)));
    assert_eq!(ds.get_last_fetch(3), None);
    assert!(ds.page_fits_in(&vec![msg(11, 1, 5)]));
    assert_eq!(ds.process_page(3, &vec![msg(11, 1, 5)]), Ok(()));
    assert_eq!(ds.user_row(0, &None).stats.daily, vec![u32::MAX]);
}
