use chronotile::cache::ingest::{
    assign_projects, message_effect, part_effect, pending_cleared, project_of, session_project,
    scan_step, sentinel_ok, KeyedCounts, MessageEffect, ScanCursor, ScanNext,
    MessageTally, PartEffect, ToolTally, PENDING_MAX_AGE_MS,
};
use chronotile::cache::migrations::{
    latest_version, migrations, plan_migrations, BASELINE_V1, FACT_TABLES, V10_ERRORS_AND_FILES,
    V3_PROJECT_DIMENSION, V9_USAGE_SAMPLES,
};
use chronotile::stats::TokenTotals;

#[test]
fn latest_version_is_the_last_migration() {
    assert_eq!(latest_version(), 10);
    assert_eq!(migrations().last().map(|m| m.version), Some(10));
}

#[test]
fn a_fresh_cache_applies_every_migration() {
    let plan = plan_migrations(0);
    assert!(!plan.drop_everything);
    let versions: Vec<i64> = plan.steps.iter().map(|m| m.version).collect();
    assert_eq!(versions, (1..=10).collect::<Vec<i64>>());
    assert!(plan.steps[0].sql.contains("CREATE TABLE IF NOT EXISTS source"));
}

#[test]
fn a_partly_migrated_cache_applies_only_newer_steps() {
    let plan = plan_migrations(7);
    let steps: Vec<(i64, bool)> = plan.steps.iter().map(|m| (m.version, m.rebuild)).collect();
    assert_eq!(steps, vec![(8, false), (9, true), (10, true)]);
}

#[test]
fn an_up_to_date_cache_is_left_alone() {
    let plan = plan_migrations(latest_version());
    assert!(!plan.drop_everything);
    assert!(plan.steps.is_empty());
}

#[test]
fn a_cache_from_a_newer_build_is_rebuilt_from_scratch() {
    let plan = plan_migrations(11);
    assert!(plan.drop_everything);
    assert_eq!(plan.steps.len(), 10);
}

#[test]
fn fact_tables_exclude_prices_and_agents() {
    assert_eq!(FACT_TABLES.len(), 14);
    assert!(!FACT_TABLES.contains(&"model_price"));
    assert!(!FACT_TABLES.contains(&"agent_dim"));
    assert!(FACT_TABLES.contains(&"usage_sample"));
}

#[test]
fn global_sessions_get_a_directory_project() {
    assert_eq!(session_project("global", "/work/x"), "dir:/work/x");
    assert_eq!(session_project("p1", "/work/x"), "p1");
    let rows = vec![
        ("s1".to_string(), "global".to_string(), "/a".to_string()),
        ("s2".to_string(), "proj".to_string(), "/b".to_string()),
        ("s3".to_string(), "global".to_string(), "/a".to_string()),
        ("s4".to_string(), "global".to_string(), "/c".to_string()),
    ];
    let assigned = assign_projects(&rows);
    assert_eq!(
        assigned.sessions,
        vec![
            ("s1".to_string(), "dir:/a".to_string()),
            ("s2".to_string(), "proj".to_string()),
            ("s3".to_string(), "dir:/a".to_string()),
            ("s4".to_string(), "dir:/c".to_string()),
        ]
    );
    assert_eq!(assigned.directories, vec!["/a".to_string(), "/c".to_string()]);
    assert_eq!(project_of(None), "unknown");
    assert_eq!(project_of(Some(&"p".to_string())), "p");
}

#[test]
fn user_messages_are_prompts_and_others_are_ignored() {
    assert!(matches!(message_effect("user", 0, None, None, 0, "", false, 10), MessageEffect::Prompt));
    assert!(matches!(message_effect("system", 0, None, None, 0, "", false, 10), MessageEffect::Ignored));
}

#[test]
fn in_flight_assistant_messages_wait_until_settled_aged_or_forced() {
    assert!(matches!(
        message_effect("assistant", 0, None, None, 0, "", false, 1000),
        MessageEffect::Deferred
    ));
    assert!(matches!(
        message_effect("assistant", 0, None, None, 0, "", true, 1000),
        MessageEffect::Counted { .. }
    ));
    assert!(matches!(
        message_effect("assistant", 0, None, None, 0, "", false, PENDING_MAX_AGE_MS + 1),
        MessageEffect::Counted { .. }
    ));
    assert!(matches!(
        message_effect("assistant", 0, None, None, 0, "", false, PENDING_MAX_AGE_MS),
        MessageEffect::Deferred
    ));
}

#[test]
fn settled_messages_carry_errors_and_rate_samples() {
    match message_effect("assistant", 1_000, Some(3_000), Some("APIError"), 150, "stop", false, 5_000) {
        MessageEffect::Counted { error_event, rate_duration_ms } => {
            assert_eq!(error_event.as_deref(), Some("error:APIError"));
            assert_eq!(rate_duration_ms, Some(2_000));
        }
        _ => panic!("expected a counted message"),
    }
    match message_effect("assistant", 1_000, Some(3_000), None, 150, "tool-calls", false, 5_000) {
        MessageEffect::Counted { error_event, rate_duration_ms } => {
            assert!(error_event.is_none());
            assert!(rate_duration_ms.is_none(), "tool-call turns are not rate samples");
        }
        _ => panic!("expected a counted message"),
    }
    match message_effect("assistant", 1_000, Some(3_000), None, 99, "stop", false, 5_000) {
        MessageEffect::Counted { rate_duration_ms, .. } => assert!(rate_duration_ms.is_none()),
        _ => panic!("expected a counted message"),
    }
}

#[test]
fn tool_parts_count_once_settled() {
    assert!(matches!(
        part_effect("tool", "running", 0, Some(0), None, 0, 0, false, 10),
        PartEffect::Deferred
    ));
    match part_effect("tool", "completed", 0, Some(100), Some(350), 0, 0, false, 10) {
        PartEffect::ToolCall { completed, errored, duration_ms } => {
            assert!(completed && !errored);
            assert_eq!(duration_ms, Some(250));
        }
        _ => panic!("expected a tool call"),
    }
    match part_effect("tool", "error", 0, Some(100), Some(350), 0, 0, false, 10) {
        PartEffect::ToolCall { completed, errored, duration_ms } => {
            assert!(!completed && errored);
            assert_eq!(duration_ms, None);
        }
        _ => panic!("expected a tool call"),
    }
}

#[test]
fn compactions_and_retries_become_events() {
    let kind = |auto, overflow| match part_effect("compaction", "", 0, None, None, auto, overflow, false, 0) {
        PartEffect::Event { kind } => kind,
        _ => panic!("expected an event"),
    };
    assert_eq!(kind(1, 1), "compaction_overflow");
    assert_eq!(kind(1, 0), "compaction_auto");
    assert_eq!(kind(0, 0), "compaction_manual");
    assert!(matches!(part_effect("retry", "", 0, None, None, 0, 0, false, 0), PartEffect::Event { kind } if kind == "retry"));
    assert!(matches!(part_effect("text", "", 0, None, None, 0, 0, false, 0), PartEffect::Ignored));
}

fn tokens(input: i64, output: i64) -> TokenTotals {
    TokenTotals { input, output, reasoning: 0, cache_read: 1, cache_write: 2 }
}

#[test]
fn a_tally_keeps_its_first_project_and_widens_its_span() {
    let mut t = MessageTally::new();
    t.absorb("p1", 50, &tokens(10, 20));
    t.absorb("p2", 30, &tokens(1, 2));
    t.absorb("p3", 90, &tokens(0, 0));
    assert_eq!(t.project_id, "p1");
    assert_eq!((t.min_ts, t.max_ts, t.msgs), (30, 90, 3));
    assert_eq!((t.tokens.input, t.tokens.output, t.tokens.cache_read, t.tokens.cache_write), (11, 22, 3, 6));
}

#[test]
fn a_tool_tally_counts_outcomes() {
    let mut t = ToolTally::new();
    t.record(true, false);
    t.record(false, true);
    t.record(false, false);
    assert_eq!((t.calls, t.completed, t.errors), (3, 1, 1));
}

fn ids(v: &[&str]) -> Vec<String> {
    v.iter().map(|s| s.to_string()).collect()
}

#[test]
fn settled_rows_and_vanished_rows_leave_pending() {
    let chunk = ids(&["m1", "m2", "m3", "m4"]);
    let found = vec![
        ("m3".to_string(), true),
        ("m1".to_string(), false),
        ("m2".to_string(), true),
    ];
    // m3 and m2 settled (in the order they came back), m4 is gone from the
    // source; m1 is still in flight and stays pending.
    assert_eq!(pending_cleared(&chunk, &found), ids(&["m3", "m2", "m4"]));
}

#[test]
fn nothing_settled_and_nothing_missing_clears_nothing() {
    let chunk = ids(&["p1", "p2"]);
    let found = vec![("p1".to_string(), false), ("p2".to_string(), false)];
    assert!(pending_cleared(&chunk, &found).is_empty());
    assert_eq!(pending_cleared(&chunk, &Vec::new()), chunk);
}

fn cursor(watermark: &str, scanned: i64) -> ScanCursor {
    ScanCursor { watermark: watermark.to_string(), scanned }
}

#[test]
fn a_full_batch_moves_the_watermark_and_reads_on() {
    let (c, next) = scan_step(&cursor("msg_010", 10), false, 5, Some("msg_015".to_string()), 5);
    assert_eq!(c.watermark, "msg_015");
    assert_eq!(c.scanned, 15);
    assert!(matches!(next, ScanNext::Read { ref after } if after == "msg_015"));
}

#[test]
fn a_short_batch_moves_the_watermark_and_stops() {
    let (c, next) = scan_step(&cursor("msg_010", 10), false, 3, Some("msg_013".to_string()), 5);
    assert_eq!((c.watermark.as_str(), c.scanned), ("msg_013", 13));
    assert!(matches!(next, ScanNext::Done));
}

#[test]
fn an_empty_or_interrupted_scan_stays_put() {
    let (c, next) = scan_step(&cursor("msg_010", 10), false, 0, None, 5);
    assert_eq!((c.watermark.as_str(), c.scanned), ("msg_010", 10));
    assert!(matches!(next, ScanNext::Done));
    let (c, next) = scan_step(&cursor("msg_010", 10), true, 5, Some("msg_015".to_string()), 5);
    assert_eq!((c.watermark.as_str(), c.scanned), ("msg_010", 10));
    assert!(matches!(next, ScanNext::Done));
}

#[test]
fn the_sentinel_flags_deleted_rows() {
    assert!(sentinel_ok("", 0, 0), "nothing scanned yet");
    assert!(sentinel_ok("", 7, 3), "no watermark: nothing to compare");
    assert!(sentinel_ok("msg_9", 9, 9));
    assert!(!sentinel_ok("msg_9", 9, 8), "a row up to the watermark vanished");
}

fn key(parts: &[&str]) -> Vec<String> {
    parts.iter().map(|p| p.to_string()).collect()
}

#[test]
fn each_row_is_counted_once_under_its_key() {
    let mut counts = KeyedCounts::new();
    for k in [
        key(&["2025-01-01", "p1"]),
        key(&["2025-01-01", "p2"]),
        key(&["2025-01-01", "p1"]),
        key(&["2025-01-02", "p1"]),
        key(&["2025-01-01", "p1"]),
    ] {
        counts.add(k, 1);
    }
    assert_eq!(
        counts.entries,
        vec![
            (key(&["2025-01-01", "p1"]), 3),
            (key(&["2025-01-01", "p2"]), 1),
            (key(&["2025-01-02", "p1"]), 1),
        ]
    );
    counts.add(key(&["2025-01-01", "p2"]), 4);
    assert_eq!(counts.entries[1].1, 5);
}

#[test]
fn each_planned_step_runs_its_own_sql() {
    let plan = plan_migrations(2);
    assert_eq!(plan.steps[0].version, 3);
    assert_eq!(plan.steps[0].sql, V3_PROJECT_DIMENSION);
    assert_eq!(plan.steps.last().map(|m| m.sql), Some(V10_ERRORS_AND_FILES));
    let plan = plan_migrations(8);
    let sqls: Vec<&str> = plan.steps.iter().map(|m| m.sql).collect();
    assert_eq!(sqls, vec![V9_USAGE_SAMPLES, V10_ERRORS_AND_FILES]);
    assert_eq!(plan_migrations(0).steps[0].sql, BASELINE_V1);
    assert_eq!(plan_migrations(11).steps[0].sql, BASELINE_V1, "a newer cache starts over");
}

#[test]
fn rows_are_keyed_by_local_day_and_hour() {
    let keys = chronotile::cache::ingest::row_keys(1_700_000_000_000, "prj");
    assert_eq!(keys.day.len(), 10);
    assert!(keys.hour < 24);
    assert_eq!(keys.prompt, vec![keys.day.clone(), "prj".to_string()]);
    assert_eq!(keys.hourly, vec![keys.day.clone(), keys.hour.to_string(), "prj".to_string()]);
    assert_eq!(
        chronotile::cache::ingest::event_key("2025-01-01", "retry", "prj"),
        vec!["2025-01-01".to_string(), "retry".to_string(), "prj".to_string()]
    );
}
