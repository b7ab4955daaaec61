use kfire_client::rl::parser::{GameInfo, PlayerLine, Refusal, StateFrame, TeamLine};
use kfire_client::rl::session::{Closing, Session};
use kfire_client::rl::socket::{event_kind, must_drop, EventKind, Unhandled, MAX_BUFFER, MAX_UNHANDLED};

fn player(name: &str, team: i64, score: i64) -> PlayerLine {
    PlayerLine {
        name: Some(name.to_string()),
        team_num: Some(team),
        score: Some(score),
        goals: Some(1),
        assists: Some(0),
        saves: Some(0),
        shots: Some(1),
        demos: Some(0),
    }
}

fn frame(guid: &str, players: Vec<PlayerLine>) -> StateFrame {
    StateFrame {
        match_guid: Some(guid.to_string()),
        game: Some(GameInfo {
            playlist: Some(13),
            time_seconds: Some(100),
            overtime: Some(false),
            teams: Some(vec![
                TeamLine { team_num: Some(0), score: Some(2) },
                TeamLine { team_num: Some(1), score: Some(1) },
            ]),
        }),
        players: Some(players),
    }
}

#[test]
fn a_first_state_opens_a_match_and_its_end_reports_it() {
    let mut s = Session::new();
    assert_eq!(s.on_state(&frame("g-1", vec![player("Bushido", 0, 300), player("X", 1, 100)]), "Bushido"), (true, true));
    assert!(s.live().is_some());
    match s.on_close(300) {
        Closing::Report(sum) => {
            assert_eq!(sum.result, "win");
            assert_eq!(sum.duration_seconds, 300);
        }
        _ => panic!("a complete match is reported"),
    }
    assert!(s.live().is_none());
}

#[test]
fn after_an_end_the_scoreboard_frames_open_nothing() {
    let mut s = Session::new();
    s.on_state(&frame("g-1", vec![player("Bushido", 0, 300), player("X", 1, 100)]), "Bushido");
    s.on_close(300);
    assert_eq!(s.on_state(&frame("g-1", vec![player("Bushido", 0, 300)]), "Bushido"), (false, false));
    assert!(matches!(s.on_close(10), Closing::NoMatch));
    assert!(s.on_open("Bushido"));
    assert_eq!(s.on_state(&frame("g-2", vec![player("Bushido", 0, 300)]), "Bushido"), (true, false));
}

#[test]
fn the_same_match_ending_twice_is_reported_once() {
    let mut s = Session::new();
    s.on_state(&frame("g-1", vec![player("Bushido", 0, 300), player("X", 1, 100)]), "Bushido");
    assert!(matches!(s.on_close(300), Closing::Report(_)));
    assert!(s.on_open("Bushido"));
    s.on_state(&frame("g-1", vec![player("Bushido", 0, 300), player("X", 1, 100)]), "Bushido");
    assert!(matches!(s.on_close(300), Closing::AlreadyHandled));
}

#[test]
fn an_opening_while_a_match_is_open_opens_no_other() {
    let mut s = Session::new();
    assert!(s.on_open("Bushido"));
    assert!(!s.on_open("Bushido"));
}

#[test]
fn a_member_matching_nobody_gets_the_names_met() {
    let mut s = Session::new();
    s.on_state(&frame("g-1", vec![player("Zed", 0, 300), player("Alpha", 1, 100)]), "Bushido");
    match s.on_close(300) {
        Closing::Unreported { refusal, names, mismatch } => {
            assert_eq!(refusal, Refusal::MemberNotFound);
            assert_eq!(names, vec!["Alpha", "Zed"]);
            assert_eq!(mismatch.as_deref(), Some("Alpha, Zed"));
        }
        _ => panic!("the member was not there"),
    }
}

#[test]
fn another_refusal_clears_the_member_warning() {
    let mut s = Session::new();
    s.on_state(&frame("g-1", vec![player("Bushido", 0, 300)]), "Bushido");
    match s.on_close(300) {
        Closing::Unreported { refusal, mismatch, .. } => {
            assert_eq!(refusal, Refusal::NoOpponent);
            assert_eq!(mismatch.as_deref(), Some(""));
        }
        _ => panic!("nobody on the other side"),
    }
}

#[test]
fn each_event_name_has_its_kind() {
    for n in ["MatchInitialized", "CountdownBegin", "RoundStarted"] {
        assert_eq!(event_kind(n), EventKind::Open);
    }
    assert_eq!(event_kind("UpdateState"), EventKind::State);
    assert_eq!(event_kind("MatchDestroyed"), EventKind::Close);
    assert_eq!(event_kind("MatchEnded"), EventKind::Close);
    assert_eq!(event_kind("MatchCreated"), EventKind::Unhandled);
    assert_eq!(event_kind("GoalScored"), EventKind::Unhandled);
}

#[test]
fn a_buffer_is_dropped_only_past_eight_mebibytes() {
    assert_eq!(MAX_BUFFER, 8 * 1024 * 1024);
    assert!(!must_drop(MAX_BUFFER));
    assert!(must_drop(MAX_BUFFER + 1));
}

#[test]
fn an_unhandled_event_is_logged_once_and_the_list_is_capped() {
    let mut u = Unhandled::new();
    assert!(u.first_time("GoalScored"));
    assert!(!u.first_time("GoalScored"));
    for n in 0..100 {
        u.first_time(&format!("Event{n}"));
    }
    assert!(!u.first_time("YetAnother"));
    assert!(MAX_UNHANDLED >= 2);
}
