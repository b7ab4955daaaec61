use kfire_client::status::IconState;
use kfire_client::tray::{
    icon_word, is_global_status, is_override_status, menu_action, pair_step, poll_interval, server_item_id,
    server_label, server_state_word, tooltip, tray_contents, unlink_item_id, PairStep, TrayAction, TrayServerInput,
};

#[test]
fn a_server_row_says_what_its_connection_does() {
    assert_eq!(server_state_word("offline", Some("connected")), "offline");
    assert_eq!(server_state_word("invisible", None), "invisible");
    assert_eq!(server_state_word("online", Some("connected")), "online");
    assert_eq!(server_state_word("online", Some("disconnected")), "reconnecting");
    assert_eq!(server_state_word("online", Some("")), "connecting");
    assert_eq!(server_state_word("online", None), "connecting");
}

#[test]
fn the_tooltip_names_the_games_being_played() {
    assert_eq!(tooltip(&vec![], "Online"), "KFIRE — Online");
    assert_eq!(
        tooltip(&vec!["Hearthstone".to_string(), "Rocket League".to_string()], "Invisible"),
        "KFIRE — Playing Hearthstone, Rocket League · Invisible"
    );
}

#[test]
fn each_aggregated_state_has_its_word() {
    assert_eq!(icon_word(IconState::InGame), "Online");
    assert_eq!(icon_word(IconState::Idle), "Online");
    assert_eq!(icon_word(IconState::Invisible), "Invisible");
    assert_eq!(icon_word(IconState::Problem), "Reconnecting");
    assert_eq!(icon_word(IconState::Offline), "Offline (not recording)");
}

#[test]
fn a_server_row_is_labelled_by_its_organisation_or_its_address() {
    assert_eq!(server_label("Guilde", "https://a", "online"), "Guilde — online");
    assert_eq!(server_label("", "https://a", "connecting"), "https://a — connecting");
}

#[test]
fn a_menu_entry_id_reads_back_as_its_action() {
    assert_eq!(menu_action("show"), TrayAction::Show);
    assert_eq!(menu_action("quit"), TrayAction::Quit);
    assert_eq!(menu_action("add"), TrayAction::Add);
    assert_eq!(menu_action("g:invisible"), TrayAction::SetGlobal("invisible".into()));
    let id = server_item_id("srv-1", "offline");
    assert_eq!(id, "s:srv-1:offline");
    assert_eq!(
        menu_action(&id),
        TrayAction::SetServer { server_id: "srv-1".into(), status: "offline".into() }
    );
    let u = unlink_item_id("srv-1");
    assert_eq!(u, "u:srv-1");
    assert_eq!(menu_action(&u), TrayAction::Unlink("srv-1".into()));
}

#[test]
fn a_server_id_holding_a_colon_splits_at_the_last_one() {
    assert_eq!(
        menu_action("s:a:b:online"),
        TrayAction::SetServer { server_id: "a:b".into(), status: "online".into() }
    );
    assert_eq!(menu_action("s:nocolon"), TrayAction::Nothing);
    assert_eq!(menu_action("x"), TrayAction::Nothing);
    assert_eq!(menu_action(""), TrayAction::Nothing);
}

#[test]
fn the_statuses_accepted_from_the_window() {
    for s in ["online", "invisible", "offline"] {
        assert!(is_global_status(s));
        assert!(is_override_status(s));
    }
    assert!(!is_global_status("inherit"));
    assert!(is_override_status("inherit"));
    assert!(!is_global_status("busy"));
    assert!(!is_override_status("Online"));
}

#[test]
fn a_pairing_answer_leads_to_one_step() {
    assert!(matches!(pair_step("pending", None, None), PairStep::Wait));
    match pair_step("complete", Some("a".into()), Some("r".into())) {
        PairStep::Link { access, refresh } => {
            assert_eq!(access, "a");
            assert_eq!(refresh, "r");
        }
        _ => panic!("complete with both tokens links"),
    }
    assert!(matches!(pair_step("complete", Some("a".into()), None), PairStep::Stop));
    assert!(matches!(pair_step("denied", None, None), PairStep::Failed));
    assert!(matches!(pair_step("expired", None, None), PairStep::Failed));
}

#[test]
fn the_pairing_poll_waits_at_least_a_second() {
    assert_eq!(poll_interval(0), 1);
    assert_eq!(poll_interval(1), 1);
    assert_eq!(poll_interval(5), 5);
}

#[test]
fn the_tray_lists_each_server_with_its_choices() {
    let servers = vec![
        TrayServerInput {
            id: "s1".into(),
            org_name: "Guild".into(),
            url: "https://a".into(),
            status_override: "inherit".into(),
            conn: Some("connected".into()),
        },
        TrayServerInput {
            id: "s2".into(),
            org_name: "".into(),
            url: "https://b".into(),
            status_override: "invisible".into(),
            conn: None,
        },
    ];
    let c = tray_contents(None, &servers, &vec![]);
    assert_eq!(c.global_status, "online");
    assert_eq!(c.rows.len(), 2);
    assert_eq!(c.rows[0].label, "Guild — online");
    assert_eq!(c.rows[1].label, "https://b — invisible");
    assert_eq!(c.rows[0].unlink_id, "u:s1");
    assert_eq!(
        c.rows[1].choices,
        vec![
            ("s:s2:inherit".to_string(), "Use global".to_string(), false),
            ("s:s2:online".to_string(), "Online".to_string(), false),
            ("s:s2:invisible".to_string(), "Invisible".to_string(), true),
            ("s:s2:offline".to_string(), "Offline".to_string(), false),
        ]
    );
    assert!(matches!(c.icon, IconState::Idle));
    assert_eq!(c.tooltip, "KFIRE — Online");
}

#[test]
fn the_tray_says_what_is_played_and_follows_the_global_status() {
    let servers = vec![TrayServerInput {
        id: "s1".into(),
        org_name: "Guild".into(),
        url: "https://a".into(),
        status_override: "inherit".into(),
        conn: Some("connected".into()),
    }];
    let c = tray_contents(Some("offline"), &servers, &vec!["Rocket League".to_string()]);
    assert_eq!(c.global_status, "offline");
    assert_eq!(c.rows[0].label, "Guild — offline");
    assert!(matches!(c.icon, IconState::Offline));
    assert_eq!(c.tooltip, "KFIRE — Playing Rocket League · Offline (not recording)");
}
