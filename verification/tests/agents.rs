use chronotile::agents::{clean_display, normalize_key};

#[test]
fn strips_zero_width_prefixes_seen_in_real_data() {
    assert_eq!(
        normalize_key("\u{200B}Sisyphus - Ultraworker"),
        normalize_key("Sisyphus - Ultraworker")
    );
    assert_eq!(
        normalize_key("\u{200B}\u{200B}\u{200B}\u{200B}Atlas - Plan Executor"),
        normalize_key("Atlas - Plan Executor")
    );
}

#[test]
fn folds_case_variants_from_successive_opencode_versions() {
    assert_eq!(normalize_key("sisyphus"), normalize_key("Sisyphus"));
    assert_eq!(
        normalize_key("Sisyphus - ultraworker"),
        normalize_key("Sisyphus - Ultraworker")
    );
}

#[test]
fn keeps_genuinely_different_agents_apart() {
    let sisyphus = normalize_key("Sisyphus");
    assert_ne!(normalize_key("Sisyphus-Junior"), sisyphus);
    assert_ne!(normalize_key("Planner-Sisyphus"), sisyphus);
    assert_ne!(normalize_key("Sisyphus - Ultraworker"), sisyphus);
}

#[test]
fn collapses_whitespace_runs_and_trims() {
    assert_eq!(normalize_key("  Atlas   -  Plan Executor "), "atlas - plan executor");
}

#[test]
fn display_keeps_case_but_drops_invisibles() {
    assert_eq!(clean_display("\u{200B}Sisyphus - Ultraworker"), "Sisyphus - Ultraworker");
}

#[test]
fn empty_and_invisible_only_names_fall_back() {
    assert_eq!(normalize_key(""), "unknown");
    assert_eq!(normalize_key("\u{200B}\u{FEFF}"), "unknown");
}

#[test]
fn invisible_characters_inside_a_name_are_dropped() {
    assert_eq!(clean_display("Sisy\u{200D}phus"), "Sisyphus");
    assert_eq!(clean_display("A\u{00AD}B\u{2060}C"), "ABC");
}

#[test]
fn control_characters_are_invisible_even_when_they_are_whitespace() {
    // A tab is a control character, so it is removed rather than read as a gap.
    assert_eq!(clean_display("a\tb"), "ab");
    assert_eq!(clean_display("a \tb"), "a b");
    assert_eq!(clean_display("\u{0085}x\u{009F}"), "x");
}

#[test]
fn unicode_whitespace_collapses_to_one_space() {
    assert_eq!(clean_display("a\u{3000}\u{00A0}b"), "a b");
    assert_eq!(clean_display("\u{2003}lead and trail\u{205F}"), "lead and trail");
}

#[test]
fn cleaning_is_idempotent_on_examples() {
    for raw in ["  x  y ", "\u{200B}A  B", "", "   ", "a\u{2028}b"] {
        let once = clean_display(raw);
        assert_eq!(clean_display(&once), once);
    }
}

#[test]
fn whitespace_only_names_fall_back_to_unknown() {
    assert_eq!(normalize_key("   \u{3000} "), "unknown");
}

#[test]
fn keys_are_never_empty_and_normalise_to_themselves() {
    for raw in ["Sisyphus - Ultraworker", "\u{200B}Atlas  (Plan Executor)", "", " \u{200B} ", "PLANNER"] {
        let key = normalize_key(raw);
        assert!(!key.is_empty(), "{raw:?}");
        assert_eq!(normalize_key(&key), key, "{raw:?}");
    }
}
