use ums::day::timestamp_to_uday;
use ums::participants::{Author, WebhookData};
use ums::report::{categorize_num, generate_user_header, MessageStats, UserProfile, DEFAULT_PFP};
use ums::snapshot::Snapshot;
use ums::store::{Datastore, MessageRecord, RecordError};
use ums::text::decimal;

const DAY: i64 = 86400;

fn user_msg(id: u64, user: u64, day: i64) -> MessageRecord {
    MessageRecord { id, author: Author::User(user), timestamp: day * DAY + 3600 }
}

fn hook_msg(id: u64, name: &str, day: i64) -> MessageRecord {
    MessageRecord {
        id,
        author: Author::Webhook(WebhookData {
            name: name.to_string(),
            avatar_url: "https://example.invalid/a.png".to_string(),
        }),
        timestamp: day * DAY,
    }
}

#[test]
fn day_numbers_truncate_and_bound() {
    assert_eq!(timestamp_to_uday(0), Some(0));
    assert_eq!(timestamp_to_uday(DAY - 1), Some(0));
    assert_eq!(timestamp_to_uday(DAY), Some(1));
    assert_eq!(timestamp_to_uday(-1), Some(0));
    assert_eq!(timestamp_to_uday(-DAY), None);
    assert_eq!(timestamp_to_uday(65535 * DAY + 5), Some(65535));
    assert_eq!(timestamp_to_uday(65536 * DAY), None);
    assert_eq!(timestamp_to_uday(19000 * DAY + 12345), Some(19000));
}

#[test]
fn bucket_boundaries() {
    assert_eq!(categorize_num(0), "<10");
    assert_eq!(categorize_num(9), "<10");
    assert_eq!(categorize_num(10), "10-25");
    assert_eq!(categorize_num(24), "10-25");
    assert_eq!(categorize_num(25), "25-50");
    assert_eq!(categorize_num(999), "500-1000");
    assert_eq!(categorize_num(9999), "5000-10,000");
    assert_eq!(categorize_num(10000), "10,000-25,000");
    assert_eq!(categorize_num(49999), "25,000-50,000");
    assert_eq!(categorize_num(50000), "50,000+");
    assert_eq!(categorize_num(u64::MAX), "50,000+");
}

#[test]
fn decimal_rendering() {
    assert_eq!(decimal(0), "0");
    assert_eq!(decimal(7), "7");
    assert_eq!(decimal(10), "10");
    assert_eq!(decimal(1234567890123), "1234567890123");
    assert_eq!(decimal(u64::MAX), "18446744073709551615");
}

#[test]
fn end_to_end_scenario() {
    let mut ds = Datastore::new();
    for (i, m) in [
        user_msg(1, 42, 100),
        user_msg(2, 42, 100),
        user_msg(3, 42, 100),
        user_msg(4, 42, 102),
        hook_msg(5, "Bot1", 102),
        hook_msg(6, "Bot1", 102),
    ]
    .iter()
    .enumerate()
    {
        assert_eq!(ds.process_message(m), Ok(()), "message {i}");
    }
    assert_eq!(ds.range(), Some((100, 102)));
    assert_eq!(ds.user_count(), 1);
    assert_eq!(ds.webhook_count(), 1);

    let header = ds.date_header();
    assert_eq!(header, vec!["Username", "Category", "PFP", "1970-04-11", "1970-04-12", "1970-04-13"]);

    let user = ds.user_row(0, &None);
    assert_eq!(user.stats.daily, vec![3, 0, 1]);
    assert_eq!(user.stats.totals, vec![3, 3, 4]);
    assert_eq!(user.stats.total, 4);
    assert_eq!(user.header.label, "42");
    assert_eq!(user.header.category, "<10");
    assert_eq!(user.header.avatar, DEFAULT_PFP);

    let hook = ds.webhook_row(0);
    assert_eq!(hook.stats.daily, vec![0, 0, 2]);
    assert_eq!(hook.stats.totals, vec![0, 0, 2]);
    assert_eq!(hook.header.label, "(NQN) Bot1");
    assert_eq!(hook.header.category, "NQN Webhooks");
    assert_eq!(hook.header.avatar, "https://example.invalid/a.png");
}

#[test]
fn range_only_widens() {
    let mut ds = Datastore::new();
    assert_eq!(ds.range(), None);
    ds.process_message(&user_msg(1, 1, 500)).unwrap();
    assert_eq!(ds.range(), Some((500, 500)));
    ds.process_message(&user_msg(2, 2, 450)).unwrap();
    assert_eq!(ds.range(), Some((450, 500)));
    ds.process_message(&user_msg(3, 1, 470)).unwrap();
    assert_eq!(ds.range(), Some((450, 500)));
    ds.process_message(&user_msg(4, 1, 900)).unwrap();
    assert_eq!(ds.range(), Some((450, 900)));
}

#[test]
fn counts_are_conserved_across_batches() {
    let mut a = Datastore::new();
    let mut b = Datastore::new();
    let msgs = vec![
        user_msg(1, 7, 10),
        user_msg(2, 8, 11),
        user_msg(3, 7, 12),
        user_msg(4, 7, 10),
        hook_msg(5, "h", 11),
    ];
    a.process_page(1, &msgs).unwrap();
    let mut reversed: Vec<MessageRecord> = Vec::new();
    for m in msgs.iter().rev() {
        reversed.push(MessageRecord { id: m.id, author: m.author.duplicate(), timestamp: m.timestamp });
    }
    let (first, second) = reversed.split_at(2);
    b.process_page(1, &first.iter().map(|m| MessageRecord { id: m.id, author: m.author.duplicate(), timestamp: m.timestamp }).collect()).unwrap();
    b.process_page(1, &second.iter().map(|m| MessageRecord { id: m.id, author: m.author.duplicate(), timestamp: m.timestamp }).collect()).unwrap();
    for ds in [&a, &b] {
        let row = ds.user_row(0, &None);
        assert_eq!(row.stats.total, 3);
        assert_eq!(row.stats.daily.iter().map(|c| *c as u64).sum::<u64>(), 3);
        assert_eq!(ds.range(), Some((10, 12)));
    }
    assert_eq!(a.user_row(0, &None).stats.daily, vec![2, 0, 1]);
}

#[test]
fn out_of_range_day_is_refused() {
    let mut ds = Datastore::new();
    let msg = MessageRecord { id: 1, author: Author::User(1), timestamp: 65536 * DAY };
    assert_eq!(ds.process_message(&msg), Err(RecordError::DayOutOfRange));
    assert_eq!(ds.range(), None);
    assert_eq!(ds.user_count(), 0);
    let page = vec![user_msg(1, 1, 3), MessageRecord { id: 2, author: Author::User(1), timestamp: -DAY }];
    assert_eq!(ds.process_page(9, &page), Err(RecordError::DayOutOfRange));
    assert_eq!(ds.user_count(), 0);
    assert_eq!(ds.get_last_fetch(9), None);
}

#[test]
fn full_count_is_refused() {
    let snap = Snapshot {
        range: (Some(5), Some(5)),
        user_data: vec![(1, vec![(5, u32::MAX)])],
        wh_data: vec![],
        last_fetches: vec![],
    };
    let mut ds = Datastore::from_snapshot(&snap).unwrap();
    assert_eq!(ds.process_message(&user_msg(1, 1, 5)), Err(RecordError::CountOverflow));
    assert_eq!(ds.user_row(0, &None).stats.daily, vec![u32::MAX]);
    assert_eq!(ds.process_message(&user_msg(2, 1, 6)), Ok(()));
    assert_eq!(ds.user_row(0, &None).stats.totals, vec![u32::MAX as u64, u32::MAX as u64 + 1]);
}

#[test]
fn avatar_is_captured_at_first_sight() {
    let mut ds = Datastore::new();
    ds.process_message(&hook_msg(1, "n", 3)).unwrap();
    let later = MessageRecord {
        id: 2,
        author: Author::webhook("n".to_string(), Some("https://example.invalid/new.png".to_string())),
        timestamp: 3 * DAY,
    };
    ds.process_message(&later).unwrap();
    assert_eq!(ds.webhook_count(), 1);
    assert_eq!(ds.webhook(0), ("n".to_string(), "https://example.invalid/a.png".to_string()));
    let fresh = Author::webhook("m".to_string(), None);
    ds.process_message(&MessageRecord { id: 3, author: fresh, timestamp: 3 * DAY }).unwrap();
    assert_eq!(ds.webhook(1).1, DEFAULT_PFP);
}

#[test]
fn user_and_webhook_keys_are_apart() {
    let mut ds = Datastore::new();
    ds.process_message(&user_msg(1, 5, 1)).unwrap();
    ds.process_message(&hook_msg(2, "5", 1)).unwrap();
    assert_eq!(ds.user_count(), 1);
    assert_eq!(ds.webhook_count(), 1);
    assert_eq!(ds.user_row(0, &None).stats.total, 1);
    assert_eq!(ds.webhook_row(0).stats.total, 1);
}

#[test]
fn user_header_rules() {
    let bot = UserProfile { tag: "robo#0001".to_string(), avatar_url: None, bot: true };
    let h = generate_user_header(9, &Some(bot), 100000);
    assert_eq!(h.label, "robo#0001");
    assert_eq!(h.category, "Bots");
    assert_eq!(h.avatar, DEFAULT_PFP);
    let person = UserProfile {
        tag: "pat#1234".to_string(),
        avatar_url: Some("https://example.invalid/p.png".to_string()),
        bot: false,
    };
    let h = generate_user_header(9, &Some(person), 10);
    assert_eq!(h.label, "pat#1234");
    assert_eq!(h.category, "10-25");
    assert_eq!(h.avatar, "https://example.invalid/p.png");
    let h = generate_user_header(1234, &None, 0);
    assert_eq!(h.label, "1234");
    assert_eq!(h.category, "<10");
}

#[test]
fn totals_row_is_running_sum() {
    let days = vec![(12u16, 4u32), (10, 1), (14, 2)];
    let s = MessageStats::generate(&days, Some((9, 15)));
    assert_eq!(s.daily, vec![0, 1, 0, 4, 0, 2, 0]);
    assert_eq!(s.totals, vec![0, 1, 1, 5, 5, 7, 7]);
    assert_eq!(s.total, 7);
    for i in 1..s.totals.len() {
        assert_eq!(s.totals[i], s.totals[i - 1] + s.daily[i] as u64);
    }
    let empty = MessageStats::generate(&days, None);
    assert!(empty.daily.is_empty() && empty.totals.is_empty() && empty.total == 0);
    let wide = MessageStats::generate(&vec![(65535, 3)], Some((0, 65535)));
    assert_eq!(wide.daily.len(), 65536);
    assert_eq!(wide.totals[65535], 3);
}

#[test]
fn zero_message_participant_is_below_ten() {
    let snap = Snapshot {
        range: (None, None),
        user_data: vec![(3, vec![])],
        wh_data: vec![("w".to_string(), "https://example.invalid/w.png".to_string(), vec![])],
        last_fetches: vec![],
    };
    let ds = Datastore::from_snapshot(&snap).unwrap();
    let row = ds.user_row(0, &None);
    assert_eq!(row.stats.total, 0);
    assert_eq!(row.header.category, "<10");
    assert_eq!(ds.webhook_row(0).header.category, "NQN Webhooks");
    assert_eq!(ds.date_header(), vec!["Username", "Category", "PFP"]);
}

#[test]
fn empty_store_report_is_header_only() {
    let ds = Datastore::new();
    assert_eq!(ds.date_header(), vec!["Username", "Category", "PFP"]);
    assert_eq!(ds.user_count() + ds.webhook_count(), 0);
}

#[test]
fn date_labels() {
    let snap = Snapshot {
        range: (Some(18999), Some(19000)),
        user_data: vec![],
        wh_data: vec![],
        last_fetches: vec![],
    };
    let ds = Datastore::from_snapshot(&snap).unwrap();
    assert_eq!(ds.date_header()[3..], ["2022-01-07".to_string(), "2022-01-08".to_string()]);
    let snap = Snapshot { range: (Some(65535), Some(65535)), user_data: vec![], wh_data: vec![], last_fetches: vec![] };
    let ds = Datastore::from_snapshot(&snap).unwrap();
    assert_eq!(ds.date_header()[3], "2149-06-06");
}
