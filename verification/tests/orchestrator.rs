use statcat::msg::Msg;
use statcat::orchestrator::{gather_guild, RemoteGuild};
use statcat::paginate::RemoteChannel;
use statcat::store::Store;

fn msg(id: u64, channel: u64) -> Msg {
    Msg {
        message_id: id,
        channel_id: channel,
        guild_id: 0,
        author_id: 3,
        author_name: String::from("bob"),
        bot: false,
        timestamp: 1609718400,
        content: String::from("hello"),
    }
}

fn channel(id: u64, n: u64) -> RemoteChannel {
    let mut msgs = Vec::new();
    for i in 0..n {
        msgs.push(msg(id * 1000 + n - i, id));
    }
    RemoteChannel { channel_id: id, name: String::from("general"), msgs }
}

#[test]
fn end_to_end_gather_and_rerun() {
    // Partition 5 has 250 remote records at page size 100: the walk makes
    // the probe plus three page fetches, the batch commits as one
    // transaction, and a second pass skips the partition entirely.
    let remote = RemoteGuild { guild_id: 9, channels: vec![channel(5, 250)] };
    let mut store = Store::new();
    let reports = gather_guild(&mut store, &remote, 100);
    assert_eq!(reports.len(), 1);
    assert!(!reports[0].skipped);
    assert!(!reports[0].failed);
    assert_eq!(reports[0].records, 250);
    assert_eq!(reports[0].fetch_calls, 4);
    assert_eq!(store.count_by_partition(5), 250);
    assert!(store.is_partition_done(5));

    let reports = gather_guild(&mut store, &remote, 100);
    assert_eq!(reports.len(), 1);
    assert!(reports[0].skipped);
    assert_eq!(reports[0].fetch_calls, 0);
    assert_eq!(reports[0].records, 0);
    assert_eq!(store.count_by_partition(5), 250);
}

#[test]
fn completed_partition_is_never_refetched() {
    // Once any record of a partition is stored, a pass sees it as done.
    let mut store = Store::new();
    assert!(store.commit_batch(5, 9, &vec![msg(1, 5)]).is_ok());
    let remote = RemoteGuild { guild_id: 9, channels: vec![channel(5, 40)] };
    for _ in 0..3 {
        let reports = gather_guild(&mut store, &remote, 10);
        assert!(reports[0].skipped);
        assert_eq!(reports[0].fetch_calls, 0);
        assert_eq!(store.count_by_partition(5), 1);
    }
}

#[test]
fn empty_partition_stays_unresolved() {
    // A partition with no remote records yields an empty result and is not
    // counted done: the next pass probes it again.
    let remote = RemoteGuild { guild_id: 9, channels: vec![channel(5, 0)] };
    let mut store = Store::new();
    let reports = gather_guild(&mut store, &remote, 100);
    assert!(!reports[0].skipped);
    assert_eq!(reports[0].records, 0);
    assert_eq!(reports[0].fetch_calls, 1);
    assert_eq!(store.count_by_partition(5), 0);
    assert!(!store.is_partition_done(5));

    let reports = gather_guild(&mut store, &remote, 100);
    assert!(!reports[0].skipped);
    assert_eq!(reports[0].fetch_calls, 1);
}

#[test]
fn partitions_are_processed_in_order_and_isolated() {
    let remote = RemoteGuild {
        guild_id: 9,
        channels: vec![channel(5, 7), channel(6, 0), channel(7, 12)],
    };
    let mut store = Store::new();
    let reports = gather_guild(&mut store, &remote, 5);
    assert_eq!(reports.len(), 3);
    assert_eq!(reports[0].channel_id, 5);
    assert_eq!(reports[1].channel_id, 6);
    assert_eq!(reports[2].channel_id, 7);
    assert_eq!(reports[0].records, 7);
    assert_eq!(reports[1].records, 0);
    assert_eq!(reports[2].records, 12);
    assert_eq!(store.count_by_partition(5), 7);
    assert_eq!(store.count_by_partition(6), 0);
    assert_eq!(store.count_by_partition(7), 12);
}

#[test]
fn commit_failure_is_reported_and_pass_continues() {
    // A write fault fails the first unresolved partition's commit; the
    // pass reports it and goes on, and the failed partition stays
    // unresolved for the next pass.
    let remote = RemoteGuild { guild_id: 9, channels: vec![channel(5, 3), channel(6, 4)] };
    let mut store = Store::new();
    store.inject_write_fault();
    let reports = gather_guild(&mut store, &remote, 10);
    assert!(!reports[0].skipped);
    assert!(reports[0].failed);
    assert_eq!(store.count_by_partition(5), 0);
    assert!(!reports[1].skipped);
    assert!(!reports[1].failed);
    assert_eq!(store.count_by_partition(6), 4);

    let reports = gather_guild(&mut store, &remote, 10);
    assert!(!reports[0].skipped);
    assert!(!reports[0].failed);
    assert!(reports[1].skipped);
    assert_eq!(store.count_by_partition(5), 3);
}
