use chronotile::agents::{clean_display, normalize_key};
use chronotile::cache::read::{
    agent_label, day_bounds, variant_display, VariantDisplay, fold_windows, quota_summary, quota_window_ms, rank_tools,
    reliability_report,
    skill_stats, SkillRow, HOUR_MS, MAX_WINDOWS, WEEK_MS,
};

const H: i64 = HOUR_MS;
const W: i64 = 5 * HOUR_MS;

fn sample(ts: i64, tokens: i64) -> (i64, i64) {
    (ts, tokens)
}

#[test]
fn window_starts_at_the_exact_first_message_not_the_hour() {
    let first = 20 * HOUR_MS + 31 * 60_000;
    let windows = fold_windows(&vec![sample(first, 10)], W);
    assert_eq!(windows.len(), 1);
    assert_eq!(windows[0].start, first, "no flooring to the hour");
    assert_eq!(windows[0].end, first + W, "resets exactly five hours later");
}

#[test]
fn messages_inside_the_window_share_it() {
    let windows = fold_windows(
        &vec![sample(H, 10), sample(H + 2 * H, 20), sample(H + W - 60_000, 30)],
        W,
    );
    assert_eq!(windows.len(), 1);
    assert_eq!(windows[0].tokens, 60);
    assert_eq!(windows[0].messages, 3);
}

#[test]
fn a_message_at_the_boundary_opens_the_next_window() {
    let windows = fold_windows(&vec![sample(H, 10), sample(H + W, 20)], W);
    assert_eq!(windows.len(), 2);
    assert_eq!(windows[0].tokens, 10);
    assert_eq!(windows[1].start, H + W);
}

#[test]
fn a_long_gap_opens_a_fresh_window_without_filling_the_silence() {
    let windows = fold_windows(&vec![sample(H, 10), sample(H + 100 * H, 20)], W);
    assert_eq!(windows.len(), 2, "no empty windows across the gap");
    assert_eq!(windows[1].start, H + 100 * H);
}

#[test]
fn window_length_is_configurable() {
    let windows = fold_windows(&vec![sample(0, 1), sample(3 * H, 1)], 2 * HOUR_MS);
    assert_eq!(windows.len(), 2, "a two-hour window splits what five would join");
}

#[test]
fn windows_record_which_samples_they_hold() {
    let windows = fold_windows(
        &vec![sample(0, 1), sample(H, 2), sample(6 * H, 4), sample(7 * H, 8), sample(20 * H, 16)],
        W,
    );
    assert_eq!(windows.len(), 3);
    assert_eq!((windows[0].first, windows[0].messages, windows[0].tokens), (0, 2, 3));
    assert_eq!((windows[1].first, windows[1].messages, windows[1].tokens), (2, 2, 12));
    assert_eq!((windows[2].first, windows[2].messages, windows[2].tokens), (4, 1, 16));
    assert!(windows.iter().all(|w| !w.active));
}

#[test]
fn no_samples_fold_into_no_windows() {
    assert!(fold_windows(&Vec::new(), W).is_empty());
}

#[test]
fn quota_window_length_is_clamped_between_an_hour_and_a_week() {
    assert_eq!(quota_window_ms(0), HOUR_MS);
    assert_eq!(quota_window_ms(-3), HOUR_MS);
    assert_eq!(quota_window_ms(5), 5 * HOUR_MS);
    assert_eq!(quota_window_ms(1000), 168 * HOUR_MS);
}

#[test]
fn quota_reports_burn_rate_and_projection_for_the_active_window() {
    // Window opens at t=0; "now" is two hours in with 120 tokens spent.
    let now = 2 * H;
    let report = quota_summary(&vec![sample(0, 60), sample(H, 60)], now, 5);
    let active = report.active.expect("a window contains now");
    assert_eq!(active.tokens, 120);
    assert!(active.active);
    assert_eq!(report.window_hours, 5);
    assert_eq!(report.week_tokens, 120);
    assert_eq!(report.reference_tokens, 0, "no completed window yet");
    // The burn rate and projection are drawn from this window: 120 tokens over
    // the two hours elapsed, three hours left to run.
    assert_eq!(now - active.start, 2 * H);
    assert_eq!(active.end - now, 3 * H);
}

#[test]
fn quota_is_empty_without_samples() {
    let report = quota_summary(&Vec::new(), 0, 5);
    assert!(report.active.is_none());
    assert_eq!(report.windows.len(), 0);
    assert_eq!(report.week_tokens, 0);
}

#[test]
fn quota_reference_is_the_busiest_completed_window_and_windows_are_newest_first() {
    let now = 30 * H;
    let report = quota_summary(
        &vec![sample(0, 50), sample(10 * H, 70), sample(20 * H, 30), sample(29 * H, 5)],
        now,
        5,
    );
    assert_eq!(report.reference_tokens, 70);
    assert_eq!(report.windows.len(), 4);
    assert_eq!(report.windows[0].start, 29 * H, "newest first");
    assert!(report.windows[0].active);
    assert_eq!(report.windows[3].start, 0);
}

#[test]
fn quota_week_counts_only_the_last_seven_days() {
    let now = 10 * 24 * H;
    let report = quota_summary(&vec![sample(0, 100), sample(now - WEEK_MS, 7), sample(now, 3)], now, 5);
    assert_eq!(report.week_tokens, 10);
}

#[test]
fn quota_keeps_at_most_the_newest_windows() {
    let samples: Vec<(i64, i64)> = (0..60).map(|i| sample(i * 10 * H, 1)).collect();
    let report = quota_summary(&samples, 0, 5);
    assert_eq!(report.windows.len(), MAX_WINDOWS);
    assert_eq!(report.windows[0].start, 59 * 10 * H);
}

#[test]
fn open_day_bounds_widen_to_the_extremes() {
    let (from, to) = day_bounds(None, None);
    assert_eq!(from, "0000-01-01");
    assert_eq!(to, "9999-12-31");
    let (from, _) = day_bounds(Some(0), None);
    assert_eq!(from.len(), 10);
}

#[test]
fn reliability_report_sorts_errors_and_reads_totals() {
    let rows = vec![
        ("compaction_auto".to_string(), 3),
        ("error:APIError".to_string(), 2),
        ("retry".to_string(), 4),
        ("error:Timeout".to_string(), 5),
        ("compaction_manual".to_string(), 1),
        ("error:Aborted".to_string(), 2),
        ("compaction_overflow".to_string(), 6),
        ("something_else".to_string(), 9),
    ];
    let report = reliability_report(rows);
    assert_eq!(report.compactions_auto, 3);
    assert_eq!(report.compactions_manual, 1);
    assert_eq!(report.compactions_overflow, 6);
    assert_eq!(report.retries, 4);
    let names: Vec<(String, i64)> =
        report.errors.iter().map(|e| (e.name.clone(), e.count)).collect();
    assert_eq!(
        names,
        vec![
            ("Timeout".to_string(), 5),
            ("APIError".to_string(), 2),
            ("Aborted".to_string(), 2),
        ],
        "descending by count, ties in row order"
    );
}

#[test]
fn reliability_report_of_nothing_is_zero() {
    let report = reliability_report(Vec::new());
    assert!(report.errors.is_empty());
    assert_eq!(report.retries, 0);
}

fn skill(name: &str, via_task: i64, direct: i64) -> SkillRow {
    SkillRow {
        skill: name.to_string(),
        via_task,
        direct,
        sessions: 1,
        projects: 1,
        first_used: 0,
        last_used: 0,
    }
}

#[test]
fn skills_rank_by_loads_then_name() {
    let out = skill_stats(vec![
        skill("zeta", 1, 1),
        skill("beta", 3, 0),
        skill("alpha", 0, 2),
        skill("gamma", 0, 0),
    ]);
    let ranked: Vec<(String, i64)> = out.iter().map(|s| (s.skill.clone(), s.loads)).collect();
    assert_eq!(
        ranked,
        vec![
            ("beta".to_string(), 3),
            ("alpha".to_string(), 2),
            ("zeta".to_string(), 2),
            ("gamma".to_string(), 0),
        ]
    );
    assert_eq!(out[1].via_task, 0);
    assert_eq!(out[1].direct, 2);
}

#[test]
fn skill_names_compare_by_code_point() {
    let out = skill_stats(vec![skill("b", 1, 0), skill("B", 1, 0), skill("ä", 1, 0), skill("a", 1, 0)]);
    let names: Vec<&str> = out.iter().map(|s| s.skill.as_str()).collect();
    assert_eq!(names, vec!["B", "a", "b", "ä"]);
}

/// Label rows as the cache lists them: (key, display), oldest use first.
fn label_rows(agents: &[&str]) -> Vec<(String, String)> {
    agents.iter().map(|a| (normalize_key(a), clean_display(a))).collect()
}

#[test]
fn merged_agent_is_labelled_with_its_newest_spelling() {
    let rows = label_rows(&["sisyphus", "Sisyphus"]);
    assert_eq!(agent_label(&rows, &normalize_key("Sisyphus")).as_deref(), Some("Sisyphus"));
}

#[test]
fn agent_labels_follow_the_last_use_of_each_key() {
    let rows = label_rows(&["Sisyphus", "\u{200B}Atlas", "sisyphus", "Sisyphus-Junior"]);
    assert_eq!(agent_label(&rows, &"sisyphus".to_string()).as_deref(), Some("sisyphus"));
    assert_eq!(agent_label(&rows, &"atlas".to_string()).as_deref(), Some("Atlas"));
    assert_eq!(agent_label(&rows, &"sisyphus-junior".to_string()).as_deref(), Some("Sisyphus-Junior"));
    assert_eq!(agent_label(&rows, &"nobody".to_string()), None);
}

#[test]
fn tools_rank_by_calls_with_ties_in_row_order() {
    let rows = vec![
        ("read".to_string(), 5),
        ("bash".to_string(), 12),
        ("edit".to_string(), 5),
        ("grep".to_string(), 1),
        ("glob".to_string(), 12),
    ];
    let ranked: Vec<(String, i64)> = rank_tools(rows);
    let names: Vec<&str> = ranked.iter().map(|(t, _)| t.as_str()).collect();
    assert_eq!(names, vec!["bash", "glob", "read", "edit", "grep"]);
    assert!(rank_tools(Vec::new()).is_empty());
}

fn is_day_shape(d: &str) -> bool {
    let c: Vec<char> = d.chars().collect();
    let n = c.len();
    n >= 10
        && c[n - 3] == '-'
        && c[n - 6] == '-'
        && [n - 1, n - 2, n - 4, n - 5].iter().all(|&i| c[i].is_ascii_digit())
        && c[1..n - 6].iter().all(|ch| ch.is_ascii_digit())
        && (c[0].is_ascii_digit() == (n == 10))
}

#[test]
fn given_ends_become_local_days() {
    for ms in [0, 1_700_000_000_000, i64::MAX, i64::MIN, -86_400_000] {
        let (from, to) = day_bounds(Some(ms), Some(ms));
        assert!(is_day_shape(&from), "{from}");
        assert_eq!(from, to, "the same instant gives the same day");
    }
    let (from, to) = day_bounds(Some(1_700_000_000_000), None);
    assert!(from.starts_with("2023-11-1"), "{from}");
    assert_eq!(to, "9999-12-31");
}

#[test]
fn windows_account_for_every_sample_once() {
    let samples = vec![sample(0, 5), sample(H, 7), sample(6 * H, 11), sample(7 * H, 2), sample(20 * H, 1)];
    let windows = fold_windows(&samples, W);
    assert_eq!(windows.iter().map(|w| w.messages).sum::<i64>(), 5);
    assert_eq!(windows.iter().map(|w| w.tokens).sum::<i64>(), 26);
    let firsts: Vec<usize> = windows.iter().map(|w| w.first).collect();
    assert_eq!(firsts, vec![0, 2, 4]);
}

#[test]
fn a_lone_variant_collapses_into_a_badge() {
    assert_eq!(variant_display(0), VariantDisplay::Hidden);
    assert_eq!(variant_display(1), VariantDisplay::Badge);
    assert_eq!(variant_display(2), VariantDisplay::Nested);
    assert_eq!(variant_display(7), VariantDisplay::Nested);
}
