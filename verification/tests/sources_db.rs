use chronotile::db::{
    add_custom_path, derive_name, discover_profiles, known_paths, validate_known_path, Profile,
};
use chronotile::sources::{add, remove};
use chronotile::stats::Range;

fn strings(items: &[&str]) -> Vec<String> {
    items.iter().map(|s| s.to_string()).collect()
}

#[test]
fn adding_a_path_appends_it_once() {
    let mut paths = strings(&["/a.db"]);
    assert!(add(&mut paths, "/b.db"));
    assert_eq!(paths, strings(&["/a.db", "/b.db"]));
    assert!(!add(&mut paths, "/b.db"), "a second add changes nothing");
    assert_eq!(paths, strings(&["/a.db", "/b.db"]));
}

#[test]
fn removing_a_path_drops_every_copy_and_keeps_order() {
    let mut paths = strings(&["/a.db", "/b.db", "/c.db", "/b.db"]);
    remove(&mut paths, "/b.db");
    assert_eq!(paths, strings(&["/a.db", "/c.db"]));
    remove(&mut paths, "/zzz.db");
    assert_eq!(paths, strings(&["/a.db", "/c.db"]));
}

#[test]
fn remove_undoes_add() {
    let mut paths = strings(&["/a.db"]);
    add(&mut paths, "/n.db");
    remove(&mut paths, "/n.db");
    assert_eq!(paths, strings(&["/a.db"]));
}

#[test]
fn open_range_ends_widen() {
    let r = Range::new(None, None);
    assert_eq!((r.from, r.to), (0, i64::MAX));
    let r = Range::new(Some(5), Some(9));
    assert_eq!((r.from, r.to), (5, 9));
}

#[test]
fn known_paths_lists_defaults_then_existing_new_customs() {
    let out = known_paths(
        &strings(&["/home/u/opencode.db"]),
        &strings(&["/x.db", "/home/u/opencode.db", "/missing.db", "/x.db", "/y.db"]),
        &vec![true, true, false, true, true],
    );
    assert_eq!(out, strings(&["/home/u/opencode.db", "/x.db", "/y.db"]));
}

#[test]
fn validation_accepts_only_known_paths() {
    let defaults = strings(&["/d.db"]);
    let customs = strings(&["/c.db"]);
    assert!(validate_known_path("/d.db", &defaults, &customs).is_ok());
    assert!(validate_known_path("/c.db", &defaults, &customs).is_ok());
    assert_eq!(
        validate_known_path("/evil.db", &defaults, &customs),
        Err("unknown database path: /evil.db".to_string())
    );
}

#[test]
fn names_come_from_the_profiles_directory_then_the_parent() {
    assert_eq!(derive_name(&strings(&["/", "home", "u", "profiles", "work", "opencode.db"])), "work");
    assert_eq!(derive_name(&strings(&["/", "srv", "team", "opencode.db"])), "team");
    assert_eq!(derive_name(&strings(&["/", "opencode.db"])), "custom");
    assert_eq!(derive_name(&strings(&["opencode.db"])), "custom");
    assert_eq!(derive_name(&strings(&["..", "opencode.db"])), "custom");
    assert_eq!(derive_name(&strings(&["/", "profiles"])), "custom");
    assert_eq!(derive_name(&strings(&["/", "a", "profiles", "x", "profiles", "y"])), "x");
}

#[test]
fn adding_a_missing_file_is_refused() {
    assert_eq!(
        add_custom_path("/nope.db", &strings(&["/", "nope.db"]), false),
        Err("file not found: /nope.db".to_string())
    );
    assert_eq!(
        add_custom_path("/p/profiles/dev/o.db", &strings(&["/", "p", "profiles", "dev", "o.db"]), true),
        Ok("dev".to_string())
    );
}

fn profile(name: &str, path: &str, is_default: bool) -> Profile {
    Profile {
        id: path.to_string(),
        name: name.to_string(),
        path: path.to_string(),
        is_default,
        size_bytes: 0,
        sessions: 1,
        first_activity: None,
        last_activity: None,
    }
}

#[test]
fn discovered_profiles_skip_repeats_and_failed_probes() {
    let found = vec![profile("default", "/d.db", true)];
    let customs = strings(&["/d.db", "/a.db", "/bad.db", "/a.db"]);
    let probed = vec![
        Some(profile("x", "/d.db", false)),
        Some(profile("a", "/a.db", false)),
        None,
        Some(profile("a2", "/a.db", false)),
    ];
    let out = discover_profiles(found, &customs, probed);
    let names: Vec<(&str, &str)> = out.iter().map(|p| (p.name.as_str(), p.path.as_str())).collect();
    assert_eq!(names, vec![("default", "/d.db"), ("a", "/a.db")]);
    assert!(out[0].is_default);
}

#[test]
fn sources_json_round_trips_a_path_list() {
    let paths = vec!["/a/opencode.db".to_string(), "/b/profiles/work/opencode.db".to_string()];
    let raw = chronotile::sources::paths_to_json(&paths).expect("serialises");
    assert!(raw.contains("\n"), "pretty-printed");
    assert_eq!(chronotile::sources::paths_from_json(&raw), paths);
}

#[test]
fn unreadable_sources_json_gives_no_paths() {
    assert!(chronotile::sources::paths_from_json("").is_empty());
    assert!(chronotile::sources::paths_from_json("{\"a\": 1}").is_empty());
    assert!(chronotile::sources::paths_from_json("[1, 2]").is_empty());
    assert_eq!(chronotile::sources::paths_from_json("[\"x\"]"), vec!["x".to_string()]);
}
