use chrono::TimeZone;
use kfire_client::hs::parser::{Clock, Live, Match};
use kfire_client::hs::{ended_payload, live_payload, payload, targets, wants_rating, with_rating, LastSent, SLUG};
use kfire_client::payload::FieldValue;

fn a_match() -> Match {
    Match {
        mode: "battlegrounds".into(),
        result: "loss".into(),
        turns: Some(22),
        placement: Some(5),
        hero_card_id: Some("BG28_HERO_400".into()),
        ended_at: Clock { secs: 17 * 3600 + 44 * 60 + 59, nanos: 0 },
    }
}

/// 2026-08-02 17:44:59 in the local time zone, in UTC, as the app sends it.
fn at() -> String {
    let local = chrono::NaiveDateTime::parse_from_str("2026-08-02 17:44:59", "%Y-%m-%d %H:%M:%S").unwrap();
    chrono::Local
        .from_local_datetime(&local)
        .earliest()
        .unwrap()
        .with_timezone(&chrono::Utc)
        .to_rfc3339_opts(chrono::SecondsFormat::Secs, true)
}

fn sorted_keys(p: &[(String, FieldValue)]) -> Vec<String> {
    let mut keys: Vec<String> = p.iter().map(|(k, _)| k.clone()).collect();
    keys.sort();
    keys
}

fn get<'a>(p: &'a [(String, FieldValue)], key: &str) -> Option<&'a FieldValue> {
    p.iter().find(|(k, _)| k == key).map(|(_, v)| v)
}

fn text(p: &[(String, FieldValue)]) -> String {
    format!("{:?}", p)
}

#[test]
fn payload_carries_exactly_the_seven_allowed_fields() {
    let v = payload(&a_match(), "hearthstone", &at());
    assert_eq!(
        sorted_keys(&v),
        vec!["game_slug", "hero_card_id", "mode", "placement", "played_at", "result", "turns"]
    );
}

#[test]
fn payload_can_never_carry_a_name() {
    let raw = text(&payload(&a_match(), "hearthstone", &at()));
    for forbidden in ["PlayerName", "entityName", "Entity=", "#"] {
        assert!(!raw.contains(forbidden), "leaked {forbidden} in {raw}");
    }
}

#[test]
fn absent_fields_are_omitted_not_null() {
    let mut m = a_match();
    m.turns = None;
    m.placement = None;
    m.hero_card_id = None;
    let v = payload(&m, "hearthstone", &at());
    assert_eq!(v.len(), 4);
    assert!(get(&v, "placement").is_none());
    assert!(get(&v, "turns").is_none());
    assert!(get(&v, "hero_card_id").is_none());
}

#[test]
fn le_direct_ne_porte_exactement_que_les_quatre_champs_autorises() {
    let l = Live { mode: "battlegrounds".into(), turn: 11, placement: Some(4) };
    let v = live_payload(&l, SLUG);
    assert_eq!(sorted_keys(&v), vec!["game_slug", "mode", "placement", "turn"]);
    assert_eq!(get(&v, "game_slug"), Some(&FieldValue::Text(SLUG.to_string())));
    assert_eq!(get(&v, "mode"), Some(&FieldValue::Text("battlegrounds".to_string())));
    assert_eq!(get(&v, "turn"), Some(&FieldValue::Int(11)));
    assert_eq!(get(&v, "placement"), Some(&FieldValue::Int(4)));
}

#[test]
fn le_direct_en_mode_construit_nemet_aucune_position() {
    let l = Live { mode: "constructed".into(), turn: 7, placement: None };
    let v = live_payload(&l, SLUG);
    assert_eq!(sorted_keys(&v), vec!["game_slug", "mode", "turn"]);
    assert!(!text(&v).contains("placement"));
}

#[test]
fn mod_la_fin_dune_partie_ne_porte_que_le_jeu_et_le_drapeau() {
    let v = ended_payload(SLUG);
    assert_eq!(sorted_keys(&v), vec!["ended", "game_slug"]);
    assert_eq!(get(&v, "game_slug"), Some(&FieldValue::Text(SLUG.to_string())));
    assert_eq!(get(&v, "ended"), Some(&FieldValue::Bool(true)));
}

#[test]
fn a_server_that_does_not_know_the_game_is_skipped() {
    let servers = vec![("a".to_string(), "inherit".to_string()), ("b".into(), "inherit".into())];
    let catalog = vec![("a".to_string(), "hearthstone".to_string()), ("b".into(), "subnautica".into())];
    assert_eq!(targets(&servers, &catalog, "online", "hearthstone"), vec!["a"]);
}

#[test]
fn an_offline_server_is_skipped() {
    let servers = vec![("a".to_string(), "offline".to_string())];
    let catalog = vec![("a".to_string(), "hearthstone".to_string())];
    assert!(targets(&servers, &catalog, "online", "hearthstone").is_empty());
}

#[test]
fn a_global_offline_status_skips_every_server() {
    let servers = vec![("a".to_string(), "inherit".to_string())];
    let catalog = vec![("a".to_string(), "hearthstone".to_string())];
    assert!(targets(&servers, &catalog, "offline", "hearthstone").is_empty());
}

#[test]
fn a_server_overriding_back_to_online_is_kept() {
    let servers = vec![("a".to_string(), "online".to_string())];
    let catalog = vec![("a".to_string(), "hearthstone".to_string())];
    assert_eq!(targets(&servers, &catalog, "offline", "hearthstone"), vec!["a"]);
}

#[test]
fn mod_played_at_is_sent_as_utc_rfc3339() {
    let v = payload(&a_match(), "hearthstone", &at());
    let s = match get(&v, "played_at") {
        Some(FieldValue::Text(s)) => s.clone(),
        other => panic!("played_at is {other:?}"),
    };
    let parsed = chrono::DateTime::parse_from_rfc3339(&s).expect("RFC 3339");
    assert_eq!(parsed.offset().local_minus_utc(), 0, "must be sent as UTC");
    assert_eq!(s, at());
}

#[test]
fn a_rating_adds_exactly_two_fields() {
    let mut v = payload(&a_match(), "hearthstone", &at());
    with_rating(&mut v, Some((5571, 5644)));
    assert_eq!(get(&v, "rating"), Some(&FieldValue::Int(5571)));
    assert_eq!(get(&v, "rating_after"), Some(&FieldValue::Int(5644)));
    assert_eq!(v.len(), 9);
    let mut w = payload(&a_match(), "hearthstone", &at());
    with_rating(&mut w, None);
    assert!(get(&w, "rating").is_none() && get(&w, "rating_after").is_none());
}

#[test]
fn the_servers_keep_their_order_and_a_server_pair_for_another_game_is_ignored() {
    let servers = vec![
        ("b".to_string(), "inherit".to_string()),
        ("a".to_string(), "busy".to_string()),
        ("c".to_string(), "inherit".to_string()),
    ];
    let catalog = vec![
        ("a".to_string(), "hearthstone".to_string()),
        ("c".to_string(), "rocket-league".to_string()),
        ("b".to_string(), "hearthstone".to_string()),
    ];
    assert_eq!(targets(&servers, &catalog, "online", "hearthstone"), vec!["b", "a"]);
}

#[test]
fn a_rating_is_wanted_for_a_battlegrounds_game_with_a_place_only() {
    let m = a_match();
    assert!(wants_rating(true, &m));
    assert!(!wants_rating(false, &m));
    let mut c = a_match();
    c.mode = "constructed".into();
    c.placement = None;
    assert!(!wants_rating(true, &c));
}

#[test]
fn the_same_live_state_is_sent_once() {
    let mut last = LastSent::new();
    assert!(last.should_send("a"));
    assert!(!last.should_send("a"));
    assert!(last.should_send("b"));
    assert!(last.should_send("a"));
}
