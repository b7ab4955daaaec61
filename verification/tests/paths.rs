use kfire_client::hs::paths::{install_dir_from_exe, newest_session, session_start};
use kfire_client::hs::parser::Stamp;
use kfire_client::rl::paths::{config_path_in, install_dir_of};

fn shown(s: Stamp) -> String {
    let d = chrono::NaiveDate::from_num_days_from_ce_opt(s.day).unwrap();
    let t = chrono::NaiveTime::from_num_seconds_from_midnight_opt(s.clock.secs, s.clock.nanos).unwrap();
    d.and_time(t).format("%Y-%m-%d %H:%M:%S").to_string()
}

#[test]
fn install_dir_is_the_executable_parent() {
    assert_eq!(
        install_dir_from_exe(r"C:\Battle.net\Hearthstone\Hearthstone.exe").as_deref(),
        Some(r"C:\Battle.net\Hearthstone")
    );
}

#[test]
fn macos_bundle_walks_up_to_the_app_folder() {
    assert_eq!(
        install_dir_from_exe("/Applications/Hearthstone/Hearthstone.app/Contents/MacOS/Hearthstone").as_deref(),
        Some("/Applications/Hearthstone")
    );
}

#[test]
fn newest_session_is_the_latest_date() {
    let dirs = vec![
        "Hearthstone_2026_08_02_17_22_29".to_string(),
        "Hearthstone_2026_08_03_09_14_02".to_string(),
        "Hearthstone_2026_07_31_23_00_00".to_string(),
    ];
    assert_eq!(newest_session(&dirs), Some("Hearthstone_2026_08_03_09_14_02"));
}

#[test]
fn unrelated_folders_are_ignored() {
    let dirs = vec!["Logs".to_string(), "Hearthstone_2026_08_02_17_22_29".into()];
    assert_eq!(newest_session(&dirs), Some("Hearthstone_2026_08_02_17_22_29"));
}

#[test]
fn no_session_folder_yields_nothing() {
    let dirs = vec!["Logs".to_string()];
    assert_eq!(newest_session(&dirs), None);
}

#[test]
fn session_start_parses_the_folder_date() {
    let ts = session_start("Hearthstone_2026_08_02_17_22_29").unwrap();
    assert_eq!(shown(ts), "2026-08-02 17:22:29");
}

#[test]
fn a_malformed_folder_has_no_start() {
    assert!(session_start("Hearthstone_nope").is_none());
    assert!(session_start("autre_chose").is_none());
}

#[test]
fn an_executable_at_the_root_has_no_install_dir() {
    assert_eq!(install_dir_from_exe("Hearthstone.exe"), None);
    assert_eq!(install_dir_from_exe("/Contents/x"), None);
}

#[test]
fn the_install_dir_is_three_levels_above_the_executable() {
    let exe = r"C:\Program Files (x86)\Steam\steamapps\common\rocketleague\Binaries\Win64\RocketLeague.exe";
    assert_eq!(install_dir_of(exe).as_deref(), Some(r"C:\Program Files (x86)\Steam\steamapps\common\rocketleague"));
}

#[test]
fn a_windows_path_is_split_on_backslashes_even_on_unix() {
    let exe = r"D:\Games\rocketleague\Binaries\Win64\RocketLeague.exe";
    assert_eq!(install_dir_of(exe).as_deref(), Some(r"D:\Games\rocketleague"));
}

#[test]
fn a_unix_path_works_too() {
    let exe = "/home/x/rocketleague/Binaries/Win64/RocketLeague.exe";
    assert_eq!(install_dir_of(exe).as_deref(), Some("/home/x/rocketleague"));
}

#[test]
fn a_path_too_shallow_yields_nothing() {
    assert_eq!(install_dir_of("RocketLeague.exe"), None);
    assert_eq!(install_dir_of(r"C:\RocketLeague.exe"), None);
}

#[test]
fn the_config_path_hangs_off_the_install_dir() {
    assert_eq!(config_path_in(r"C:\Games\rocketleague"), r"C:\Games\rocketleague\TAGame\Config\DefaultStatsAPI.ini");
}

#[test]
fn a_unix_install_dir_keeps_unix_separators() {
    assert_eq!(config_path_in("/home/x/rocketleague"), "/home/x/rocketleague/TAGame/Config/DefaultStatsAPI.ini");
}

#[test]
fn three_levels_above_the_config_file_is_the_directory_again() {
    for d in [r"C:\Games\rocketleague", "/home/x/rocketleague", "rl"] {
        assert_eq!(install_dir_of(&config_path_in(d)).as_deref(), Some(d));
    }
}
