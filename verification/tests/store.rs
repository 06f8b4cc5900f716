//! What is kept on disk: snapshots, temporaries, revisions, and dates.

use swift_design::events::{
    bumped, wait_for_change, EventsQuery, WaitAction, WaitEvent, FIRST_REVISION,
    WAIT_LIMIT_SECONDS,
};
use swift_design::files::{next_step, Tickets, WriteStep};
use swift_design::history::{
    free_stamp, is_valid_stamp, plan_snapshot, saved_at_of, snapshot_row, stale_stamps,
    stamp_from_unix, stored_stamps, HistoryStore, Snapshot, SNAPSHOT_LIMIT,
};
use swift_design::order::{comes_before, stands_before};
use swift_design::time::{date_of, rfc3339, Date};

fn chars(text: &str) -> Vec<char> {
    text.chars().collect()
}

/// The files of one id behind the snapshots taken at `times`.
fn files_after(times: &[u64]) -> Vec<String> {
    let mut files: Vec<String> = Vec::new();
    for time in times {
        let plan = plan_snapshot(&files, *time);
        files.push(format!("{}.json", plan.stamp));
        files.retain(|file| !plan.removed.iter().any(|stamp| *file == format!("{stamp}.json")));
    }
    files
}

#[test]
fn stamps_are_rfc3339_times_with_hyphens() {
    assert_eq!(stamp_from_unix(1_000_000_000), "2001-09-09T01-46-40Z");
    assert_eq!(saved_at_of("2001-09-09T01-46-40Z"), "2001-09-09T01:46:40Z");
    assert_eq!(
        saved_at_of("2001-09-09T01-46-40Z-2"),
        "2001-09-09T01:46:40Z"
    );
    assert_eq!(saved_at_of("odd"), "odd");
}

#[test]
fn stamp_validation_blocks_paths() {
    assert!(is_valid_stamp("2026-08-25T10-14-02Z"));
    assert!(is_valid_stamp("2026-08-25T10-14-02Z-2"));
    assert!(!is_valid_stamp(""));
    assert!(!is_valid_stamp(".."));
    assert!(!is_valid_stamp("../x"));
    assert!(!is_valid_stamp("a/b"));
    assert!(!is_valid_stamp("2026-08-25T10-14-02Z.json"));
    assert!(!is_valid_stamp(&"1".repeat(33)));
}

#[test]
fn snapshots_list_newest_first_with_sizes() {
    let stamps = stored_stamps(&files_after(&[100, 300, 200]));
    assert_eq!(
        stamps,
        [
            "1970-01-01T00-05-00Z",
            "1970-01-01T00-03-20Z",
            "1970-01-01T00-01-40Z"
        ]
    );
    assert_eq!(
        snapshot_row(stamps[0].clone(), 5),
        Snapshot {
            stamp: "1970-01-01T00-05-00Z".to_owned(),
            saved_at: "1970-01-01T00:05:00Z".to_owned(),
            size_bytes: 5,
        }
    );
    assert!(stored_stamps(&[]).is_empty());
}

#[test]
fn two_snapshots_in_one_second_both_survive() {
    let files = files_after(&[60, 60]);
    assert_eq!(
        files,
        ["1970-01-01T00-01-00Z.json", "1970-01-01T00-01-00Z-2.json"]
    );
    assert_eq!(stored_stamps(&files)[0], "1970-01-01T00-01-00Z-2");
}

#[test]
fn many_snapshots_in_one_second_stay_in_order() {
    let stamps = stored_stamps(&files_after(&[60; 12]));
    assert_eq!(stamps.len(), 12);
    assert_eq!(stamps[0], "1970-01-01T00-01-00Z-12");
    assert_eq!(stamps[10], "1970-01-01T00-01-00Z-2");
    assert_eq!(stamps[11], "1970-01-01T00-01-00Z");
}

#[test]
fn the_store_keeps_fifty_snapshots_and_deletes_the_oldest() {
    let times: Vec<u64> = (1..=51).collect();
    let stamps = stored_stamps(&files_after(&times));
    assert_eq!(stamps.len(), SNAPSHOT_LIMIT);
    assert_eq!(stamps[0], stamp_from_unix(51));
    assert_eq!(stamps[49], stamp_from_unix(2));
    assert!(!stamps.contains(&stamp_from_unix(1)));
    assert!(stale_stamps(&stamps).is_empty());
}

#[test]
fn files_that_are_no_snapshots_are_not_listed() {
    let files = [
        "1970-01-01T00-01-00Z.json".to_owned(),
        "notes.txt".to_owned(),
        "1970-01-01T00-01-00Z.json.1.2.writing".to_owned(),
    ];
    assert_eq!(stored_stamps(&files), ["1970-01-01T00-01-00Z"]);
    assert_eq!(
        free_stamp("1970-01-01T00-01-00Z", &files),
        "1970-01-01T00-01-00Z-2"
    );
}

#[test]
fn a_snapshot_lies_below_its_id() {
    let store = HistoryStore::new("/data/history".to_owned());
    assert_eq!(store.directory(), "/data/history");
    assert_eq!(store.design_directory("talk"), "/data/history/talk");
    assert_eq!(
        store.path_of("talk", "2001-09-09T01-46-40Z"),
        "/data/history/talk/2001-09-09T01-46-40Z.json"
    );
}

#[test]
fn two_writers_to_one_path_pick_different_temporaries() {
    let mut tickets = Tickets::new();
    let first = tickets.temporary_path(Some("design.json"));
    let second = tickets.temporary_path(Some("design.json"));
    assert_ne!(first, second);
    // The name stays out of a `*.json` listing.
    for temporary in [first, second] {
        assert!(temporary.ends_with(".writing"));
        assert!(temporary.starts_with("design.json."));
    }
}

#[test]
fn tickets_go_on_from_where_they_start() {
    let mut tickets = Tickets::starting_at(7);
    assert_eq!(tickets.draw(), 7);
    assert_eq!(tickets.draw(), 8);
    let mut last = Tickets::starting_at(u64::MAX);
    assert_eq!(last.draw(), u64::MAX);
    assert_eq!(last.draw(), 0);
}

#[test]
fn a_write_replaces_the_file_and_leaves_no_temporary() {
    assert_eq!(next_step(WriteStep::Fill, true), WriteStep::Rename);
    assert_eq!(next_step(WriteStep::Rename, true), WriteStep::Done);
    assert_eq!(next_step(WriteStep::Fill, false), WriteStep::Failed);
    // A rename that fails removes the temporary and reports the failure.
    assert_eq!(next_step(WriteStep::Rename, false), WriteStep::Remove);
    assert_eq!(next_step(WriteStep::Remove, true), WriteStep::Failed);
    assert_eq!(next_step(WriteStep::Remove, false), WriteStep::Failed);
    assert_eq!(next_step(WriteStep::Done, false), WriteStep::Done);
}

#[test]
fn notify_bumps_the_revision_for_subscribers() {
    assert_eq!(FIRST_REVISION, 0);
    assert_eq!(bumped(bumped(FIRST_REVISION)), 2);
}

#[test]
fn a_waiting_subscriber_wakes_on_notify() {
    let query = EventsQuery { after: 0, wait: 25 };
    assert_eq!(
        wait_for_change(&query, WaitEvent::Seen(0)),
        WaitAction::Wait
    );
    assert_eq!(
        wait_for_change(&query, WaitEvent::Seen(1)),
        WaitAction::Report(1)
    );
    // The wait time ends, or the notifier goes away.
    assert_eq!(
        wait_for_change(&query, WaitEvent::Ended(0)),
        WaitAction::Report(0)
    );
}

#[test]
fn a_wait_is_capped() {
    assert_eq!(EventsQuery { after: 0, wait: 25 }.wait_seconds(), 25);
    assert_eq!(
        EventsQuery {
            after: 0,
            wait: 4000
        }
        .wait_seconds(),
        WAIT_LIMIT_SECONDS
    );
}

#[test]
fn dates_follow_the_calendar() {
    let date = |year: u64, month: u64, day: u64| Date { year, month, day };
    assert_eq!(date_of(0), date(1970, 1, 1));
    assert_eq!(date_of(59), date(1970, 3, 1));
    assert_eq!(date_of(11016), date(2000, 2, 29));
    assert_eq!(date_of(11017), date(2000, 3, 1));
    assert_eq!(date_of(47540), date(2100, 2, 28));
    assert_eq!(date_of(47541), date(2100, 3, 1));
}

#[test]
fn a_time_is_written_as_rfc3339() {
    assert_eq!(rfc3339(0), "1970-01-01T00:00:00Z");
    assert_eq!(rfc3339(1_000_000_000), "2001-09-09T01:46:40Z");
    assert_eq!(rfc3339(253402300799), "9999-12-31T23:59:59Z");
}

#[test]
fn a_stamp_gives_its_time_back() {
    for time in [0, 59, 86399, 86400, 951782400, 1_000_000_000, 253402300799] {
        let stamp = stamp_from_unix(time);
        assert!(is_valid_stamp(&stamp));
        assert_eq!(saved_at_of(&stamp), rfc3339(time));
    }
}

#[test]
fn short_texts_come_before_long_ones_in_a_count() {
    assert!(comes_before(&chars("2"), &chars("10")));
    assert!(!comes_before(&chars("10"), &chars("2")));
    assert!(stands_before(&chars("10"), &chars("2")));
    assert!(!stands_before(&chars("a"), &chars("a")));
}
