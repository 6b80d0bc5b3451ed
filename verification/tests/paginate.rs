use statcat::msg::Msg;
use statcat::paginate::{fetch_newest, fetch_page_before, paginate_channel, Paginator, RemoteChannel};

fn msg(id: u64, channel: u64) -> Msg {
    Msg {
        message_id: id,
        channel_id: channel,
        guild_id: 0,
        author_id: 3,
        author_name: String::from("bob"),
        bot: false,
        timestamp: 1609718400,
        content: String::from("hello"),
    }
}

/// A channel holding `n` records, newest first, ids descending from `n`.
fn channel(id: u64, n: u64) -> RemoteChannel {
    let mut msgs = Vec::new();
    for i in 0..n {
        msgs.push(msg(n - i, id));
    }
    RemoteChannel { channel_id: id, name: String::from("general"), msgs }
}

#[test]
fn pagination_returns_all_records_in_expected_calls() {
    // N records at batch size B take ceil(N / B) + 1 fetches: the probe
    // plus the page walk, which ends on the first short page.
    for (n, batch, calls) in [
        (0u64, 100usize, 1usize),
        (1, 100, 2),
        (99, 100, 2),
        (100, 100, 2),
        (101, 100, 3),
        (250, 100, 4),
        (10, 3, 5),
        (6, 3, 3),
        (1, 1, 2),
    ] {
        let ch = channel(5, n);
        let (records, made) = paginate_channel(&ch, batch);
        assert_eq!(records.len() as u64, n, "n={} batch={}", n, batch);
        assert_eq!(made, calls, "n={} batch={}", n, batch);
        // Newest first, every record exactly once.
        for (i, r) in records.iter().enumerate() {
            assert_eq!(r.message_id, n - i as u64);
        }
    }
}

#[test]
fn empty_partition_probe_terminates_immediately() {
    let ch = channel(5, 0);
    let (records, calls) = paginate_channel(&ch, 100);
    assert!(records.is_empty());
    assert_eq!(calls, 1);
}

#[test]
fn fetch_newest_returns_most_recent_record() {
    let ch = channel(5, 3);
    let page = fetch_newest(&ch);
    assert_eq!(page.len(), 1);
    assert_eq!(page[0].message_id, 3);
    assert!(fetch_newest(&channel(5, 0)).is_empty());
}

#[test]
fn fetch_page_before_is_exclusive_and_bounded() {
    let ch = channel(5, 10);
    let page = fetch_page_before(&ch, 8, 3);
    let ids: Vec<u64> = page.iter().map(|m| m.message_id).collect();
    assert_eq!(ids, vec![7, 6, 5]);
    let tail = fetch_page_before(&ch, 3, 100);
    let ids: Vec<u64> = tail.iter().map(|m| m.message_id).collect();
    assert_eq!(ids, vec![2, 1]);
    assert!(fetch_page_before(&ch, 1, 100).is_empty());
}

#[test]
fn aborted_walk_keeps_partial_records_and_reports_failure() {
    let ch = channel(5, 7);
    let mut pg = Paginator::new(3);
    // Probe, then one page, then a simulated transport failure.
    let page = fetch_newest(&ch);
    pg.deliver(page);
    assert!(!pg.is_done());
    let page = fetch_page_before(&ch, 7, 3);
    pg.deliver(page);
    assert_eq!(pg.count(), 4);
    pg.abort();
    assert!(pg.is_done());
    assert!(pg.has_failed());
    let records = pg.into_records();
    assert_eq!(records.len(), 4);
    assert_eq!(records[0].message_id, 7);
    assert_eq!(records[3].message_id, 4);
}
