use chronotile::cache::{cache_status};
use chronotile::pricing::{
    catalog_age_hours, catalog_order, fields_match, hours_between, priced_models, FIELDS,
};
use chronotile::session_detail::{attach_parts, cut_text, keep_message, part_view, PartRow, TEXT_LIMIT};
use chronotile::sessions::{
    has_more_children, like_pattern, nest_children, next_cursor, project_params, SessionCursor,
};

#[test]
fn synthetic_directory_projects_filter_on_the_global_project() {
    assert_eq!(project_params(None), (None, None));
    assert_eq!(
        project_params(Some("dir:/work/app")),
        (Some("global".to_string()), Some("/work/app".to_string()))
    );
    assert_eq!(project_params(Some("prj_1")), (Some("prj_1".to_string()), None));
}

#[test]
fn search_patterns_escape_wildcards() {
    assert_eq!(like_pattern("plain"), "%plain%");
    assert_eq!(like_pattern("50%_off\\"), "%50\\%\\_off\\\\%");
    assert_eq!(like_pattern(""), "%%");
}

fn cursor(t: i64, id: &str) -> SessionCursor {
    SessionCursor { time_updated: t, id: id.to_string() }
}

#[test]
fn a_full_page_points_past_its_last_row() {
    let rows = vec![cursor(30, "c"), cursor(20, "b")];
    let next = next_cursor(&rows, 2).expect("full page");
    assert_eq!((next.time_updated, next.id.as_str()), (20, "b"));
    assert!(next_cursor(&rows, 3).is_none(), "a short page is the last");
    assert!(next_cursor(&Vec::new(), 0).is_none());
}

#[test]
fn children_attach_to_the_first_listed_parent() {
    let ids: Vec<String> = vec!["a".into(), "b".into(), "a".into()];
    let parents = vec![Some("b".to_string()), Some("zz".to_string()), None, Some("a".to_string())];
    assert_eq!(nest_children(&ids, &parents), vec![Some(1), None, None, Some(0)]);
    assert!(has_more_children(3, 2));
    assert!(!has_more_children(2, 2));
}

fn row(message_id: &str, kind: &str, text: &str, text_len: i64) -> PartRow {
    PartRow {
        message_id: message_id.to_string(),
        kind: kind.to_string(),
        text: text.to_string(),
        text_len,
        tool: None,
        title: None,
        status: None,
        start: None,
        end: None,
        files: None,
    }
}

#[test]
fn texts_are_cut_on_a_character_boundary_before_the_byte_limit() {
    let ascii = "x".repeat(TEXT_LIMIT + 1);
    let view = part_view(&row("m", "text", &ascii, 9000)).expect("text shown");
    assert!(view.truncated);
    assert_eq!(view.text.as_deref().map(str::len), Some(TEXT_LIMIT));

    // Two-byte characters: the one starting at byte 3998 is kept whole.
    let wide = "é".repeat(TEXT_LIMIT);
    let cut = cut_text(&wide, TEXT_LIMIT);
    assert_eq!(cut.len(), TEXT_LIMIT);
    let odd = format!("x{}", "é".repeat(TEXT_LIMIT));
    assert_eq!(cut_text(&odd, TEXT_LIMIT).len(), TEXT_LIMIT + 1);

    let short = part_view(&row("m", "reasoning", "hello", 5)).expect("shown");
    assert!(!short.truncated);
    assert_eq!(short.text.as_deref(), Some("hello"));
}

#[test]
fn tool_and_patch_parts_show_their_fields_and_others_are_hidden() {
    let mut tool = row("m", "tool", "", 0);
    tool.tool = Some("bash".into());
    tool.status = Some("completed".into());
    tool.start = Some(100);
    tool.end = Some(160);
    let v = part_view(&tool).expect("tool shown");
    assert_eq!((v.tool.as_deref(), v.duration_ms), (Some("bash"), Some(60)));
    tool.end = Some(50);
    assert_eq!(part_view(&tool).expect("tool shown").duration_ms, None);

    let mut patch = row("m", "patch", "", 0);
    patch.files = Some(3);
    assert_eq!(part_view(&patch).expect("patch shown").files, Some(3));
    assert!(part_view(&row("m", "step-start", "", 0)).is_none());
}

#[test]
fn parts_group_under_their_messages_in_order() {
    let ids: Vec<String> = vec!["m1".into(), "m2".into()];
    let rows = vec![
        row("m2", "text", "b", 1),
        row("ghost", "text", "x", 1),
        row("m1", "text", "a", 1),
        row("m2", "step-finish", "", 0),
        row("m2", "text", "c", 1),
    ];
    let parts = attach_parts(&ids, &rows);
    let texts: Vec<Vec<String>> = parts
        .iter()
        .map(|ps| ps.iter().map(|p| p.text.clone().unwrap_or_default()).collect())
        .collect();
    assert_eq!(texts, vec![vec!["a".to_string()], vec!["b".to_string(), "c".to_string()]]);
    assert!(keep_message("user", 0));
    assert!(keep_message("assistant", 0));
    assert!(!keep_message("system", 0));
    assert!(keep_message("system", 1));
}

#[test]
fn status_reports_each_known_path() {
    let known: Vec<String> = vec!["/a.db".into(), "/b.db".into(), "/c.db".into()];
    let building = vec![("/b.db".to_string(), 40u64)];
    let refreshed = vec![("/a.db".to_string(), Some(7i64)), ("/c.db".to_string(), None)];
    let status = cache_status(true, 9, &known, &building, &refreshed);
    assert!(status.refreshing);
    assert_eq!(status.ingest_epoch, 9);
    let got: Vec<(bool, u64, Option<i64>)> = status
        .sources
        .iter()
        .map(|s| (s.building, s.progress_rows, s.time_refreshed))
        .collect();
    assert_eq!(got, vec![(false, 0, Some(7)), (true, 40, None), (false, 0, None)]);
}

#[test]
fn parse_rejects_a_catalog_whose_columns_moved() {
    let moved: Vec<String> = vec!["provider".into(), "model".into()];
    assert!(!fields_match(&moved));
    let exact: Vec<String> = FIELDS.iter().map(|f| f.to_string()).collect();
    assert!(fields_match(&exact));
    let mut swapped = exact.clone();
    swapped.swap(2, 3);
    assert!(!fields_match(&swapped));
}

fn key(provider: &str, model: &str) -> (String, String) {
    (provider.to_string(), model.to_string())
}

#[test]
fn catalog_rows_sort_by_provider_then_model() {
    let keys = vec![
        key("zeta", "large"),
        key("acme", "medium"),
        key("acme", "heavy"),
        key("zeta", "fast"),
        key("acme", "heavy"),
    ];
    // Equal keys keep their original order.
    assert_eq!(catalog_order(&keys), vec![2, 4, 1, 3, 0]);
    assert!(catalog_order(&Vec::new()).is_empty());
}

#[test]
fn catalog_order_compares_by_code_point() {
    let keys = vec![key("b", "x"), key("B", "x"), key("a", "é"), key("a", "z")];
    assert_eq!(catalog_order(&keys), vec![1, 3, 2, 0]);
}

#[test]
fn only_models_with_an_input_rate_are_kept() {
    let entries = vec![(true, Some(200_000)), (false, Some(1)), (true, None), (false, None)];
    assert_eq!(priced_models(&entries), Ok(vec![(0, 200_000), (2, 0)]));
    assert_eq!(
        priced_models(&vec![(false, Some(5))]),
        Err("no priced models in the fetched catalog".to_string())
    );
    assert!(priced_models(&Vec::new()).is_err());
}

#[test]
fn catalog_age_counts_whole_hours_since_it_was_fetched() {
    let at = 1_700_000_000_000_i64;
    assert_eq!(catalog_age_hours(true, "2023-11-14T22:13:20Z", at + 10 * 3_600_000), None);
    assert_eq!(catalog_age_hours(false, "2023-11-14T22:13:20Z", at + 10 * 3_600_000 + 59 * 60_000), Some(10));
    assert_eq!(catalog_age_hours(false, "2023-11-14T23:13:20+01:00", at + 3_600_000), Some(1));
    assert_eq!(catalog_age_hours(false, "yesterday", at), None);
    assert_eq!(hours_between(at, at - 90 * 60_000), -1, "truncated toward zero");
}
