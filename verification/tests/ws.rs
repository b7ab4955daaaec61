use kfire_client::api::ApiError;
use kfire_client::ws::{
    after_refresh_error, after_serve, backoff_delay_ms, backoff_ms, catalog_stale, incoming_kind, is_hello_ack, is_released,
    drain_next, queued_body, queued_message, reconnect_detail, DrainNext, QueuedMessage, Incoming, Next, ServeEnd,
};
use kfire_client::time::Instant;

#[test]
fn reconnect_detail_includes_reason() {
    assert_eq!(reconnect_detail("no hello_ack"), "reconnecting… (no hello_ack)");
}

#[test]
fn reconnect_detail_empty_reason_is_bare() {
    assert_eq!(reconnect_detail(""), "reconnecting…");
}

#[test]
fn the_backoff_doubles_then_caps_at_a_minute() {
    assert_eq!(backoff_delay_ms(0, 0), 1000);
    assert_eq!(backoff_delay_ms(1, 250), 2250);
    assert_eq!(backoff_delay_ms(5, 999), 32999);
    assert_eq!(backoff_delay_ms(6, 0), 60000);
    assert_eq!(backoff_delay_ms(40, 500), 60000);
    let d = backoff_ms(3);
    assert!((8000..9000).contains(&d));
}

#[test]
fn a_failed_connection_grows_the_backoff_and_a_dropped_one_restarts_it() {
    match after_serve(2, ServeEnd::ConnectFailed("no hello_ack".to_string())) {
        Next::Retry { detail, attempt, backoff_attempt } => {
            assert_eq!(detail, "reconnecting… (no hello_ack)");
            assert_eq!(attempt, 3);
            assert_eq!(backoff_attempt, 3);
        }
        _ => panic!("a failed connection is retried"),
    }
    match after_serve(5, ServeEnd::Dropped(String::new())) {
        Next::Retry { detail, attempt, backoff_attempt } => {
            assert_eq!(detail, "reconnecting…");
            assert_eq!(attempt, 0);
            assert_eq!(backoff_attempt, 1);
        }
        _ => panic!("a dropped connection is retried"),
    }
    assert!(matches!(after_serve(1, ServeEnd::Shutdown), Next::Stop { status: None, forget_server: false }));
}

#[test]
fn a_refresh_refused_by_the_server_forgets_it() {
    let refused = ApiError::Server { status: 401, code: "invalid_refresh_token".into(), message: "no".into() };
    match after_refresh_error(0, &refused) {
        Next::Stop { status: Some((s, d)), forget_server } => {
            assert_eq!(s, "logged_out");
            assert_eq!(d, "session expired, please link again");
            assert!(forget_server);
        }
        _ => panic!("the server is forgotten"),
    }
    match after_refresh_error(1, &ApiError::Network("timeout".into())) {
        Next::Retry { detail, attempt, .. } => {
            assert_eq!(detail, "server unreachable: timeout");
            assert_eq!(attempt, 2);
        }
        _ => panic!("a network failure is retried"),
    }
}

#[test]
fn incoming_messages_are_sorted_by_type() {
    assert_eq!(incoming_kind("presence_update"), Incoming::Presence);
    assert_eq!(incoming_kind("error"), Incoming::ErrorNotice);
    assert_eq!(incoming_kind("something_new"), Incoming::Ignored);
    assert!(is_hello_ack("hello_ack"));
    assert!(!is_hello_ack("hello"));
}

#[test]
fn the_catalogue_is_stale_after_a_day() {
    let now = Instant { secs: 1_790_000_000, nanos: 0 };
    assert!(catalog_stale(None, now));
    assert!(catalog_stale(Some("not a time"), now));
    let synced = chrono::DateTime::from_timestamp(1_790_000_000 - 86_400, 0).unwrap().to_rfc3339();
    assert!(!catalog_stale(Some(&synced), now));
    let older = chrono::DateTime::from_timestamp(1_790_000_000 - 86_401, 0).unwrap().to_rfc3339();
    assert!(catalog_stale(Some(&older), now));
}

#[test]
fn a_restarting_server_is_retried_not_forgotten() {
    for (status, code) in [(502, "unknown"), (500, "internal"), (429, "rate_limited"), (403, "forbidden"), (401, "expired")] {
        let err = ApiError::Server { status, code: code.into(), message: "try later".into() };
        match after_refresh_error(3, &err) {
            Next::Retry { detail, attempt, backoff_attempt } => {
                assert_eq!(detail, "server unreachable: try later");
                assert_eq!(attempt, 4);
                assert_eq!(backoff_attempt, 4);
            }
            _ => panic!("{status} {code} must be retried"),
        }
    }
    let banned = ApiError::Server { status: 403, code: "banned".into(), message: "banned".into() };
    assert!(matches!(after_refresh_error(0, &banned), Next::Stop { forget_server: true, .. }));
}

#[test]
fn a_held_event_is_sent_once_its_hold_has_passed() {
    let at = |s: &str| {
        let t = chrono::DateTime::parse_from_rfc3339(s).unwrap();
        Instant { secs: t.timestamp(), nanos: t.timestamp_subsec_nanos() }
    };
    let now = at("2026-09-21T12:00:00Z");
    assert!(is_released(None, now));
    assert!(is_released(Some("2026-09-21T11:59:59Z"), now));
    assert!(is_released(Some("2026-09-21T12:00:00Z"), now));
    assert!(is_released(Some("2026-09-21T14:00:00+02:00"), now), "the same instant in another offset");
    assert!(!is_released(Some("2026-09-21T12:00:00.5Z"), now));
    assert!(!is_released(Some("2026-09-21T12:00:30Z"), now));
    assert!(is_released(Some("not a time"), now));
}

#[test]
fn a_stored_payload_is_sent_as_it_was_stored() {
    let stored = r#"{"game_slug":"hearthstone","result":"win","turns":12}"#;
    assert_eq!(queued_body(Some(stored)), Some(stored.to_string()));
}

#[test]
fn an_event_without_a_readable_payload_gets_the_session_body() {
    assert_eq!(queued_body(None), None);
    assert_eq!(queued_body(Some("{not json")), None);
}

#[test]
fn a_queued_event_goes_out_stored_or_as_a_session_event() {
    let stored = r#"{"result":"win"}"#;
    assert_eq!(queued_message(Some(stored), "rl", "2026-01-01T00:00:00Z"), QueuedMessage::Stored(stored.to_string()));
    assert_eq!(
        queued_message(None, "rl", "2026-01-01T00:00:00Z"),
        QueuedMessage::Session { game_slug: "rl".to_string(), started_at: "2026-01-01T00:00:00Z".to_string() }
    );
}

#[test]
fn draining_stops_at_the_first_failed_send_and_deletes_only_what_was_sent() {
    assert_eq!(drain_next(0, 3, true), DrainNext::DeleteThenSend(1));
    assert_eq!(drain_next(2, 3, true), DrainNext::DeleteThenDone);
    assert_eq!(drain_next(1, 3, false), DrainNext::Stop);
}
