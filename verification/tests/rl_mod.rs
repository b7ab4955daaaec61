use kfire_client::payload::FieldValue;
use kfire_client::rl::parser::{Live, Summary};
use kfire_client::rl::{ended_payload, live_payload, payload, targets, SLUG};

fn a_summary() -> Summary {
    Summary {
        playlist: Some(13),
        team_size: 3,
        player_team: 0,
        team_blue_score: 4,
        team_orange_score: 2,
        result: "win".into(),
        goals: 2,
        assists: 1,
        saves: 3,
        shots: 5,
        score: 640,
        demos: 1,
        mvp: true,
        duration_seconds: 330,
        match_key: None,
        others: vec![],
    }
}

/// The instant as the app renders it for the server.
fn at() -> String {
    chrono::DateTime::parse_from_rfc3339("2026-09-16T17:44:59Z")
        .unwrap()
        .with_timezone(&chrono::Utc)
        .to_rfc3339()
}

fn sorted_keys(p: &[(String, FieldValue)]) -> Vec<String> {
    let mut keys: Vec<String> = p.iter().map(|(k, _)| k.clone()).collect();
    keys.sort();
    keys
}

fn get<'a>(p: &'a [(String, FieldValue)], key: &str) -> Option<&'a FieldValue> {
    p.iter().find(|(k, _)| k == key).map(|(_, v)| v)
}

#[test]
fn la_fin_dun_match_ne_porte_que_le_jeu_et_le_drapeau() {
    let p = ended_payload(SLUG);
    assert_eq!(sorted_keys(&p), vec!["ended", "game_slug"]);
    assert_eq!(get(&p, "game_slug"), Some(&FieldValue::Text(SLUG.to_string())));
    assert_eq!(get(&p, "ended"), Some(&FieldValue::Bool(true)));
}

#[test]
fn the_payload_carries_exactly_the_sixteen_allowed_fields_when_a_playlist_is_present() {
    let v = payload(&a_summary(), SLUG, &at());
    assert_eq!(
        sorted_keys(&v),
        vec![
            "assists",
            "demos",
            "duration_seconds",
            "game_slug",
            "goals",
            "mvp",
            "played_at",
            "player_team",
            "playlist",
            "result",
            "saves",
            "score",
            "shots",
            "team_blue_score",
            "team_orange_score",
            "team_size"
        ]
    );
    assert_eq!(get(&v, "playlist"), Some(&FieldValue::Int(13)));
    assert_eq!(get(&v, "mvp"), Some(&FieldValue::Bool(true)));
    assert_eq!(get(&v, "duration_seconds"), Some(&FieldValue::Int(330)));
}

#[test]
fn the_payload_omits_playlist_entirely_when_the_game_never_sent_one() {
    let mut s = a_summary();
    s.playlist = None;
    let v = payload(&s, SLUG, &at());
    assert_eq!(
        sorted_keys(&v),
        vec![
            "assists",
            "demos",
            "duration_seconds",
            "game_slug",
            "goals",
            "mvp",
            "played_at",
            "player_team",
            "result",
            "saves",
            "score",
            "shots",
            "team_blue_score",
            "team_orange_score",
            "team_size"
        ]
    );
    assert!(!format!("{v:?}").contains("playlist"));
}

#[test]
fn the_payload_can_never_carry_a_name() {
    let raw = format!("{:?}", payload(&a_summary(), SLUG, &at()));
    for forbidden in ["Name", "Bushido", "Players", "PlayerName"] {
        assert!(!raw.contains(forbidden), "{forbidden} leaked into {raw}");
    }
}

#[test]
fn the_live_payload_carries_exactly_the_eleven_allowed_fields() {
    let live = Live {
        team_blue_score: 2,
        team_orange_score: 1,
        seconds_remaining: 143,
        overtime: false,
        goals: 1,
        assists: 0,
        saves: 2,
        shots: 3,
        score: 310,
        demos: 0,
    };
    let v = live_payload(&live, SLUG);
    assert_eq!(
        sorted_keys(&v),
        vec![
            "assists",
            "demos",
            "game_slug",
            "goals",
            "overtime",
            "saves",
            "score",
            "seconds_remaining",
            "shots",
            "team_blue_score",
            "team_orange_score"
        ]
    );
    assert_eq!(get(&v, "seconds_remaining"), Some(&FieldValue::Int(143)));
}

#[test]
fn played_at_is_sent_as_utc_rfc3339() {
    let v = payload(&a_summary(), SLUG, &at());
    let s = match get(&v, "played_at") {
        Some(FieldValue::Text(s)) => s.clone(),
        other => panic!("played_at is {other:?}"),
    };
    let parsed = chrono::DateTime::parse_from_rfc3339(&s).expect("RFC 3339");
    assert_eq!(parsed.offset().local_minus_utc(), 0, "must go out in UTC");
}

#[test]
fn the_slug_is_the_one_the_server_knows() {
    assert_eq!(SLUG, "rocket-league");
}

#[test]
fn a_match_goes_to_the_servers_that_track_the_game() {
    let servers = vec![("a".to_string(), "inherit".to_string()), ("b".to_string(), "offline".to_string())];
    let catalog = vec![("a".to_string(), "rocket-league".to_string()), ("b".to_string(), "rocket-league".to_string())];
    assert_eq!(targets(&servers, &catalog, "online", SLUG), vec!["a"]);
}
