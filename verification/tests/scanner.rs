use kfire_client::db::CachedGame;
use kfire_client::scanner::{is_active, matches_pattern, normalize_path, IdleCounter, ScannerState};

fn game(slug: &str, exe: &str) -> CachedGame {
    CachedGame { slug: slug.into(), name: format!("Name {slug}"), executable_names: vec![exe.into()] }
}

/// What `is_active` is told of a CPU reading: at or above the threshold, or
/// exactly zero, counts as active.
fn active(cpu: f32) -> bool {
    cpu >= 1.0 || cpu == 0.0
}

#[test]
fn idle_gate_drops_after_sustained_low_cpu_not_on_first() {
    let mut idle = IdleCounter::new();
    assert!(is_active("g.exe", true, active(0.5), &mut idle));
    assert!(is_active("g.exe", true, active(0.5), &mut idle));
    assert!(!is_active("g.exe", true, active(0.5), &mut idle));
    assert!(is_active("g.exe", true, active(5.0), &mut idle));
    assert!(is_active("g.exe", true, active(0.5), &mut idle));
}

#[test]
fn new_process_starts_ungated() {
    let mut idle = IdleCounter::new();
    assert!(is_active("g.exe", false, active(0.5), &mut idle));
}

#[test]
fn zero_cpu_is_active_not_idle() {
    let mut idle = IdleCounter::new();
    for _ in 0..10 {
        assert!(is_active("tslgame.exe", true, active(0.0), &mut idle));
    }
    assert!(idle.is_empty());
}

#[test]
fn dropped_process_stays_dropped_no_flap() {
    let mut idle = IdleCounter::new();
    assert!(is_active("g.exe", true, active(0.5), &mut idle));
    assert!(is_active("g.exe", true, active(0.5), &mut idle));
    assert!(!is_active("g.exe", true, active(0.5), &mut idle));
    assert!(!is_active("g.exe", true, active(0.5), &mut idle));
    assert!(!is_active("g.exe", true, active(0.5), &mut idle));
}

#[test]
fn pattern_matches_on_segment_boundary_only() {
    let p = "dragon ball gekishin squadra/game.exe";
    assert!(matches_pattern("c:/steam/steamapps/common/dragon ball gekishin squadra/game.exe", p));
    assert!(matches_pattern(p, p));
    assert!(!matches_pattern("c:/games/my dragon ball gekishin squadra/game.exe", p));
    assert!(!matches_pattern("c:/steam/common/some other game/game.exe", p));
    assert!(!matches_pattern("game.exe", p));
}

#[test]
fn process_path_is_normalized_before_matching() {
    assert_eq!(
        normalize_path(r"C:\Program Files\Alien Isolation\AI.exe"),
        "c:/program files/alien isolation/ai.exe"
    );
}

#[test]
fn process_keys_covers_basename_pattern_and_both() {
    let mut s = ScannerState::new();
    s.load_catalog(&[
        ("srv".into(), game("subnautica", "subnautica.exe")),
        ("srv".into(), game("gekishin", "dragon ball gekishin squadra/game.exe")),
    ]);
    assert_eq!(
        s.process_keys("subnautica.exe", Some("d:/games/subnautica/subnautica.exe")),
        vec!["subnautica.exe".to_string()]
    );
    assert_eq!(
        s.process_keys("game.exe", Some("d:/steamapps/common/dragon ball gekishin squadra/game.exe")),
        vec!["dragon ball gekishin squadra/game.exe".to_string()]
    );
    assert!(s.process_keys("game.exe", Some("d:/games/unrelated/game.exe")).is_empty());
    assert!(s.process_keys("game.exe", None).is_empty());
    assert_eq!(s.process_keys("subnautica.exe", None), vec!["subnautica.exe".to_string()]);
}

#[test]
fn a_process_can_match_a_basename_and_a_pattern_at_once() {
    let mut s = ScannerState::new();
    s.load_catalog(&[
        ("srv".into(), game("plain", "game.exe")),
        ("srv".into(), game("qualified", "some game/game.exe")),
    ]);
    let keys = s.process_keys("game.exe", Some("c:/x/some game/game.exe"));
    assert_eq!(keys.len(), 2, "expected both keys, got {keys:?}");
    assert!(keys.contains(&"game.exe".to_string()));
    assert!(keys.contains(&"some game/game.exe".to_string()));
}

#[test]
fn suppressing_a_pattern_game_suppresses_its_pattern_key() {
    let mut s = ScannerState::new();
    s.load_catalog(&[("srv".into(), game("gekishin", "dragon ball gekishin squadra/game.exe"))]);
    s.suppress_slug("gekishin");
    assert!(s.suppressed("dragon ball gekishin squadra/game.exe"));
}

#[test]
fn ignored_pair_excluded_from_running_for() {
    let mut s = ScannerState::new();
    s.load_catalog(&[("srv-a".into(), game("a-game", "game.exe"))]);
    s.mark_running("game.exe");
    s.reload_ignored(&[("srv-a".into(), "a-game".into())]);
    assert!(s.running_for("srv-a").is_empty());
}

#[test]
fn suppress_slug_marks_exe() {
    let mut s = ScannerState::new();
    s.load_catalog(&[("srv-a".into(), game("a-game", "game.exe"))]);
    s.suppress_slug("a-game");
    assert!(s.suppressed("game.exe"));
}

#[test]
fn shared_exe_fans_out_to_both_servers() {
    let mut s = ScannerState::new();
    s.load_catalog(&[
        ("srv-a".into(), game("a-game", "game.exe")),
        ("srv-b".into(), game("b-game", "game.exe")),
    ]);
    let pairs = s.pairs_of("game.exe").unwrap();
    assert_eq!(pairs.len(), 2);
    assert!(pairs.contains(&("srv-a".into(), "a-game".into())));
    assert!(pairs.contains(&("srv-b".into(), "b-game".into())));
}

#[test]
fn running_for_returns_per_server_slugs() {
    let mut s = ScannerState::new();
    s.load_catalog(&[
        ("srv-a".into(), game("a-game", "game.exe")),
        ("srv-b".into(), game("b-game", "game.exe")),
    ]);
    s.mark_running("game.exe");
    assert_eq!(s.running_for("srv-a"), vec!["a-game".to_string()]);
    assert_eq!(s.running_for("srv-b"), vec!["b-game".to_string()]);
}

#[test]
fn running_games_dedups_per_game() {
    let mut s = ScannerState::new();
    s.load_catalog(&[
        ("srv-a".into(), game("a-game", "game.exe")),
        ("srv-b".into(), game("b-game", "game.exe")),
    ]);
    s.mark_running("game.exe");
    assert_eq!(s.running_games().len(), 1);
}

#[test]
fn a_pattern_is_listed_once_under_its_basename() {
    let mut s = ScannerState::new();
    s.load_catalog(&[
        ("srv-a".into(), game("g", "dir/game.exe")),
        ("srv-b".into(), game("g", "dir/game.exe")),
    ]);
    assert_eq!(s.patterns_of("game.exe"), Some(vec!["dir/game.exe".to_string()]));
}

#[test]
fn servers_for_a_slug_are_listed_once_each() {
    let mut s = ScannerState::new();
    s.load_catalog(&[
        ("srv-a".into(), game("a-game", "game.exe")),
        ("srv-a".into(), CachedGame { slug: "a-game".into(), name: "A".into(), executable_names: vec!["a.exe".into(), "b.exe".into()] }),
        ("srv-b".into(), game("b-game", "other.exe")),
    ]);
    let v = s.servers_for_slug("a-game");
    assert_eq!(v, vec![("srv-a".to_string(), "a-game".to_string())]);
}

#[test]
fn the_running_games_show_the_display_name() {
    let mut s = ScannerState::new();
    s.load_catalog(&[("srv-a".into(), game("a-game", "game.exe"))]);
    s.mark_running("game.exe");
    assert_eq!(s.running_games(), vec![("a-game".to_string(), "Name a-game".to_string())]);
}

#[test]
fn a_scan_reports_starts_and_stops_to_each_server() {
    let mut s = ScannerState::new();
    s.load_catalog(&[
        ("srv-a".into(), game("a-game", "game.exe")),
        ("srv-b".into(), game("b-game", "game.exe")),
    ]);
    s.reload_ignored(&[("srv-b".into(), "b-game".into())]);
    let mut idle = IdleCounter::new();
    let ev = s.scan(&mut idle, &vec![], &vec![("game.exe".to_string(), false)]);
    assert_eq!(ev.len(), 1);
    assert!(ev[0].started);
    assert_eq!(ev[0].server_id, "srv-a");
    assert_eq!(ev[0].game_slug, "a-game");
    assert_eq!(s.running_for("srv-a"), vec!["a-game".to_string()]);
    let ev = s.scan(&mut idle, &vec!["game.exe".to_string()], &vec![]);
    assert_eq!(ev.len(), 1);
    assert!(!ev[0].started);
    assert!(s.running_for("srv-a").is_empty());
}

#[test]
fn a_stopped_game_is_not_restarted_while_its_process_runs() {
    let mut s = ScannerState::new();
    s.load_catalog(&[("srv".into(), game("g", "game.exe"))]);
    let mut idle = IdleCounter::new();
    s.scan(&mut idle, &vec![], &vec![("game.exe".to_string(), true)]);
    s.suppress_slug("g");
    let ev = s.scan(&mut idle, &vec!["game.exe".to_string()], &vec![("game.exe".to_string(), true)]);
    assert_eq!(ev.len(), 1);
    assert!(!ev[0].started);
    let ev = s.scan(&mut idle, &vec!["game.exe".to_string()], &vec![]);
    assert!(ev.is_empty());
    assert!(!s.suppressed("game.exe"));
}

#[test]
fn the_last_game_with_a_slug_gives_its_name() {
    let mut s = ScannerState::new();
    s.load_catalog(&[
        ("srv-a".into(), CachedGame { slug: "g".into(), name: "First".into(), executable_names: vec!["g.exe".into()] }),
        ("srv-b".into(), CachedGame { slug: "g".into(), name: "Second".into(), executable_names: vec!["h.exe".into()] }),
    ]);
    s.mark_running("g.exe");
    assert_eq!(s.running_games(), vec![("g".to_string(), "Second".to_string())]);
}

#[test]
fn loading_the_catalogue_again_forgets_the_old_one() {
    let mut s = ScannerState::new();
    s.load_catalog(&[("srv-a".into(), game("a-game", "game.exe"))]);
    s.load_catalog(&[("srv-a".into(), game("b-game", "other.exe"))]);
    s.mark_running("game.exe");
    assert!(s.running_games().is_empty());
    assert!(s.running_for("srv-a").is_empty());
}

#[test]
fn stopping_a_game_stops_every_entry_that_stands_for_it() {
    let mut s = ScannerState::new();
    s.load_catalog(&[
        ("srv-a".into(), CachedGame { slug: "g".into(), name: "G".into(), executable_names: vec!["g.exe".into(), "dir/g2.exe".into()] }),
        ("srv-a".into(), game("other", "o.exe")),
    ]);
    s.mark_running("g.exe");
    s.mark_running("dir/g2.exe");
    s.mark_running("o.exe");
    s.suppress_slug("g");
    assert_eq!(s.running_for("srv-a"), vec!["other".to_string()]);
}
