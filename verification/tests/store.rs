use statcat::msg::Msg;
use statcat::store::{Store, StoreError};
use statcat::text::contains_str;
use statcat::weeks::week_label;

fn msg(id: u64, channel: u64, ts: i64, content: &str) -> Msg {
    Msg {
        message_id: id,
        channel_id: channel,
        guild_id: 0,
        author_id: 77,
        author_name: String::from("alice"),
        bot: false,
        timestamp: ts,
        content: String::from(content),
    }
}

// 2021-01-04, 2021-01-11 and 2021-01-18 are Mondays of ISO weeks
// 2021-W01, 2021-W02 and 2021-W03.
const WEEK1: i64 = 1609718400;
const WEEK2: i64 = 1610323200;
const WEEK3: i64 = 1610928000;

#[test]
fn commit_is_idempotent() {
    let mut store = Store::new();
    let batch = vec![msg(1, 5, WEEK1, "a"), msg(2, 5, WEEK1, "b")];
    assert!(store.commit_batch(5, 9, &batch).is_ok());
    assert_eq!(store.len(), 2);
    assert!(store.commit_batch(5, 9, &batch).is_ok());
    assert_eq!(store.len(), 2);
    assert_eq!(store.count_by_partition(5), 2);
}

#[test]
fn duplicate_identity_within_batch_stored_once() {
    let mut store = Store::new();
    let batch = vec![msg(1, 5, WEEK1, "first"), msg(1, 5, WEEK2, "second")];
    assert!(store.commit_batch(5, 9, &batch).is_ok());
    assert_eq!(store.len(), 1);
    // The first occurrence wins; re-inserting the identity was a no-op.
    assert_eq!(store.count_week_matches("first", 2021, 1), 1);
    assert_eq!(store.count_week_matches("second", 2021, 2), 0);
}

#[test]
fn recommit_does_not_overwrite() {
    let mut store = Store::new();
    assert!(store.commit_batch(5, 9, &vec![msg(1, 5, WEEK1, "kept")]).is_ok());
    assert!(store.commit_batch(5, 9, &vec![msg(1, 5, WEEK2, "ignored")]).is_ok());
    assert_eq!(store.len(), 1);
    assert_eq!(store.count_week_matches("kept", 2021, 1), 1);
    assert_eq!(store.count_week_matches("ignored", 2021, 2), 0);
}

#[test]
fn batch_commit_is_atomic_under_fault() {
    let mut store = Store::new();
    store.inject_write_fault();
    let batch = vec![msg(1, 5, WEEK1, "a"), msg(2, 5, WEEK1, "b"), msg(3, 5, WEEK1, "c")];
    let res = store.commit_batch(5, 9, &batch);
    assert_eq!(res, Err(StoreError::Write));
    assert_eq!(store.len(), 0);
    assert_eq!(store.count_by_partition(5), 0);
    assert!(!store.is_partition_done(5));
    // The fault is spent: the same batch then commits in full.
    assert!(store.commit_batch(5, 9, &batch).is_ok());
    assert_eq!(store.count_by_partition(5), 3);
}

#[test]
fn count_by_partition_counts_only_that_partition() {
    let mut store = Store::new();
    assert!(store.commit_batch(5, 9, &vec![msg(1, 5, WEEK1, "a")]).is_ok());
    assert!(store.commit_batch(6, 9, &vec![msg(2, 6, WEEK1, "b"), msg(3, 6, WEEK1, "c")]).is_ok());
    assert_eq!(store.count_by_partition(5), 1);
    assert_eq!(store.count_by_partition(6), 2);
    assert_eq!(store.count_by_partition(7), 0);
    assert!(store.is_partition_done(5));
    assert!(!store.is_partition_done(7));
}

#[test]
fn weekly_aggregation_over_three_weeks() {
    let mut store = Store::new();
    let batch = vec![
        msg(1, 5, WEEK1, "a cat sat"),
        msg(2, 5, WEEK1, "the cat again"),
        msg(3, 5, WEEK1, "a dog"),
        msg(4, 5, WEEK2, "cat nap"),
        msg(5, 5, WEEK3, "no match here"),
    ];
    assert!(store.commit_batch(5, 9, &batch).is_ok());
    let rows = store.query_weekly_matches("cat");
    assert_eq!(rows.len(), 2);
    assert_eq!(rows[0].label, "2021-01");
    assert_eq!(rows[0].iso_year, 2021);
    assert_eq!(rows[0].iso_week, 1);
    assert_eq!(rows[0].count, 2);
    assert_eq!(rows[1].label, "2021-02");
    assert_eq!(rows[1].count, 1);
}

#[test]
fn weekly_aggregation_rows_sort_chronologically() {
    let mut store = Store::new();
    // Committed newest first, as a pagination walk would hand them over.
    let batch = vec![
        msg(9, 5, WEEK3, "word"),
        msg(8, 5, WEEK2, "word"),
        msg(7, 5, WEEK1, "word"),
    ];
    assert!(store.commit_batch(5, 9, &batch).is_ok());
    let rows = store.query_weekly_matches("word");
    assert_eq!(rows.len(), 3);
    assert_eq!(rows[0].label, "2021-01");
    assert_eq!(rows[1].label, "2021-02");
    assert_eq!(rows[2].label, "2021-03");
    for row in &rows {
        assert_eq!(row.count, 1);
    }
}

#[test]
fn weekly_aggregation_empty_cases() {
    let store = Store::new();
    assert!(store.query_weekly_matches("cat").is_empty());
    let mut store = Store::new();
    assert!(store.commit_batch(5, 9, &vec![msg(1, 5, WEEK1, "plain text")]).is_ok());
    assert!(store.query_weekly_matches("absent").is_empty());
}

#[test]
fn matching_is_case_sensitive_substring() {
    assert!(contains_str("a Cat sat", "Cat"));
    assert!(!contains_str("a Cat sat", "cat"));
    assert!(contains_str("abc", ""));
    assert!(contains_str("", ""));
    assert!(!contains_str("ab", "abc"));
    assert!(contains_str("ababc", "abc"));

    let mut store = Store::new();
    assert!(store.commit_batch(5, 9, &vec![msg(1, 5, WEEK1, "Katze")]).is_ok());
    assert!(store.query_weekly_matches("katze").is_empty());
    assert_eq!(store.query_weekly_matches("atz").len(), 1);
}

#[test]
fn week_labels_are_zero_padded() {
    assert_eq!(week_label(2021, 1), "2021-01");
    assert_eq!(week_label(2021, 53), "2021-53");
    assert_eq!(week_label(987, 7), "0987-07");
    assert_eq!(week_label(10000, 12), "10000-12");
}

#[test]
fn week_of_year_boundary_belongs_to_previous_iso_year() {
    // 2021-01-01 is a Friday and falls in ISO week 2020-W53.
    let mut store = Store::new();
    assert!(store.commit_batch(5, 9, &vec![msg(1, 5, 1609459200, "cat")]).is_ok());
    let rows = store.query_weekly_matches("cat");
    assert_eq!(rows.len(), 1);
    assert_eq!(rows[0].label, "2020-53");
    assert_eq!(rows[0].iso_year, 2020);
    assert_eq!(rows[0].iso_week, 53);
}
