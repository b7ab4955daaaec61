use kfire_client::rl::parser::{
    hex_of, is_ranked, is_training, match_key, GameInfo, Match, PlayerLine, Refusal, StateFrame, TeamLine,
    MAX_NAMES_SEEN, MAX_OTHERS,
};

fn line(name: &str, team: i64, goals: i64, assists: i64, saves: i64, shots: i64, score: i64, demos: i64) -> PlayerLine {
    PlayerLine {
        name: Some(name.to_string()),
        team_num: Some(team),
        score: Some(score),
        goals: Some(goals),
        assists: Some(assists),
        saves: Some(saves),
        shots: Some(shots),
        demos: Some(demos),
    }
}

fn me(team: i64, goals: i64) -> PlayerLine {
    line("Bushido", team, goals, 1, 2, 4, 420, 0)
}

fn them(name: &str, team: i64, score: i64) -> PlayerLine {
    line(name, team, 0, 0, 0, 0, score, 0)
}

fn named(name: &str, team: i64, score: i64, goals: i64) -> PlayerLine {
    line(name, team, goals, 1, 0, 2, score, 0)
}

fn teams(blue: i64, orange: i64) -> Vec<TeamLine> {
    vec![
        TeamLine { team_num: Some(0), score: Some(blue) },
        TeamLine { team_num: Some(1), score: Some(orange) },
    ]
}

fn state(playlist: i64, blue: i64, orange: i64, players: Vec<PlayerLine>) -> StateFrame {
    StateFrame {
        match_guid: Some("g-1".to_string()),
        game: Some(GameInfo {
            playlist: Some(playlist),
            time_seconds: Some(120),
            overtime: Some(false),
            teams: Some(teams(blue, orange)),
        }),
        players: Some(players),
    }
}

#[test]
fn a_real_match_with_no_playlist_field_is_summarised() {
    let state = StateFrame {
        match_guid: Some("g-real-1".to_string()),
        game: Some(GameInfo { playlist: None, time_seconds: Some(0), overtime: Some(false), teams: Some(teams(5, 1)) }),
        players: Some(vec![
            line("Bushido", 0, 3, 1, 2, 5, 640, 1),
            line("Coequipier", 0, 2, 0, 0, 3, 300, 0),
            line("Adversaire1", 1, 1, 0, 1, 4, 200, 0),
            line("Adversaire2", 1, 0, 1, 0, 2, 150, 0),
        ]),
    };
    let mut m = Match::new("Bushido");
    m.observe(&state);
    let s = m.finish(300).expect("a real match with no Playlist must be summarised");
    assert_eq!(s.playlist, None);
    assert_eq!(s.result, "win");
    assert_eq!(s.team_size, 2);
}

#[test]
fn a_solo_match_with_nobody_on_the_other_team_has_no_opponent() {
    let mut m = Match::new("Bushido");
    m.observe(&state(-1, 0, 0, vec![me(0, 3)]));
    assert_eq!(m.finish(300), Err(Refusal::NoOpponent));
}

#[test]
fn a_real_match_with_a_present_training_playlist_is_refused() {
    let mut m = Match::new("Bushido");
    m.observe(&state(73, 4, 2, vec![me(0, 2), them("x", 1, 100)]));
    assert_eq!(m.finish(300), Err(Refusal::TrainingPlaylist(73)));
}

#[test]
fn a_real_match_without_the_member_is_member_not_found() {
    let mut m = Match::new("Bushido");
    m.observe(&state(13, 4, 2, vec![them("a", 0, 100), them("b", 1, 100)]));
    assert_eq!(m.finish(300), Err(Refusal::MemberNotFound));
}

#[test]
fn a_finished_match_is_summarised() {
    let mut m = Match::new("Bushido");
    m.observe(&state(13, 4, 2, vec![me(0, 2), them("x", 1, 100)]));
    let s = m.finish(300).expect("a complete match must be summarised");
    assert_eq!(s.playlist, Some(13));
    assert_eq!(s.player_team, 0);
    assert_eq!(s.team_blue_score, 4);
    assert_eq!(s.team_orange_score, 2);
    assert_eq!(s.result, "win");
    assert_eq!(s.goals, 2);
    assert_eq!(s.duration_seconds, 300);
}

#[test]
fn the_orange_side_wins_when_its_score_is_higher() {
    let mut m = Match::new("Bushido");
    m.observe(&state(11, 1, 5, vec![me(1, 3), them("x", 0, 100)]));
    let s = m.finish(300).unwrap();
    assert_eq!(s.player_team, 1);
    assert_eq!(s.result, "win");
}

#[test]
fn equal_scores_are_a_draw() {
    let mut m = Match::new("Bushido");
    m.observe(&state(6, 2, 2, vec![me(0, 1), them("x", 1, 100)]));
    assert_eq!(m.finish(300).unwrap().result, "draw");
}

#[test]
fn the_team_size_is_the_largest_ever_seen() {
    let mut m = Match::new("Bushido");
    m.observe(&state(
        13,
        0,
        0,
        vec![me(0, 0), them("a", 0, 1), them("b", 0, 1), them("c", 1, 1), them("d", 1, 1), them("e", 1, 1)],
    ));
    m.observe(&state(13, 1, 0, vec![me(0, 1), them("a", 0, 1), them("c", 1, 1), them("d", 1, 1)]));
    assert_eq!(m.finish(300).unwrap().team_size, 3);
}

#[test]
fn mvp_is_the_best_score_of_the_winning_team() {
    let mut m = Match::new("Bushido");
    m.observe(&state(13, 3, 1, vec![me(0, 2), them("a", 0, 300), them("b", 1, 500)]));
    assert!(m.finish(300).unwrap().mvp);
}

#[test]
fn there_is_no_mvp_without_a_win() {
    let mut m = Match::new("Bushido");
    m.observe(&state(13, 1, 3, vec![me(0, 0), them("a", 1, 100)]));
    let s = m.finish(300).unwrap();
    assert_eq!(s.result, "loss");
    assert!(!s.mvp);
}

#[test]
fn a_match_without_the_member_is_refused() {
    let mut m = Match::new("Bushido");
    m.observe(&state(13, 4, 2, vec![them("a", 0, 100), them("b", 1, 100)]));
    assert_eq!(m.finish(300), Err(Refusal::MemberNotFound));
}

#[test]
fn the_member_is_found_whatever_the_case_and_the_spacing() {
    for written in ["bushido", "BUSHIDO", "  Bushido  "] {
        let mut m = Match::new(written);
        m.observe(&state(13, 4, 2, vec![me(0, 2), them("x", 1, 100)]));
        assert!(m.finish(300).is_ok(), "{written} should have matched");
    }
}

#[test]
fn the_names_seen_are_kept_for_the_local_log_only() {
    let mut m = Match::new("Personne");
    m.observe(&state(13, 1, 0, vec![me(0, 1), them("Adversaire", 1, 10)]));
    assert!(m.finish(300).is_err(), "an absent member refuses the match");
    assert_eq!(m.names_seen(), vec!["Adversaire", "Bushido"]);
}

#[test]
fn a_match_never_observed_is_refused() {
    assert_eq!(Match::new("Bushido").finish(300), Err(Refusal::NeverObserved));
}

#[test]
fn a_training_playlist_is_refused() {
    for playlist in [0, 9, 19, 21, 73] {
        let mut m = Match::new("Bushido");
        m.observe(&state(playlist, 0, 0, vec![me(0, 0), them("x", 1, 0)]));
        assert_eq!(
            m.finish(60),
            Err(Refusal::TrainingPlaylist(playlist)),
            "playlist {playlist} had to be refused"
        );
    }
}

#[test]
fn a_ranked_playlist_is_recognised() {
    for playlist in [10, 11, 13, 27, 28, 29, 30] {
        assert!(is_ranked(playlist), "{playlist} is ranked");
    }
    for playlist in [1, 2, 3, 6, 22, 24] {
        assert!(!is_ranked(playlist), "{playlist} is not ranked");
    }
}

#[test]
fn the_training_playlists_are_exactly_the_five_known() {
    for playlist in [0, 9, 19, 21, 73] {
        assert!(is_training(playlist));
    }
    for playlist in [-1, 1, 10, 13, 20, 72, 74] {
        assert!(!is_training(playlist));
    }
}

#[test]
fn the_live_state_carries_the_member_and_nobody_else() {
    let mut m = Match::new("Bushido");
    m.observe(&state(13, 2, 1, vec![me(0, 1), them("Adversaire", 1, 999)]));
    let live = m.live().expect("an observed match has a state");
    assert_eq!(live.team_blue_score, 2);
    assert_eq!(live.team_orange_score, 1);
    assert_eq!(live.goals, 1);
    assert_eq!(live.score, 420, "the member's score, not the opponent's");
}

#[test]
fn players_are_read_from_the_root_not_from_game() {
    // `Data.Game` has a `Players` of its own in some frames; only the root's
    // reaches a frame, and the member is read from it.
    let mut m = Match::new("Bushido");
    m.observe(&StateFrame {
        match_guid: Some("g".to_string()),
        game: Some(GameInfo { playlist: Some(13), time_seconds: Some(10), overtime: Some(false), teams: Some(teams(1, 0)) }),
        players: Some(vec![me(0, 1), them("x", 1, 0)]),
    });
    let s = m.finish(300).unwrap();
    assert_eq!(s.player_team, 0, "the root's Players is what counts");
    assert_eq!(s.goals, 1);
}

#[test]
fn a_guid_opens_the_match_and_the_same_guid_does_not_reopen_it() {
    let mut m = Match::new("Bushido");
    assert!(m.guid().is_none());
    m.observe(&state(13, 0, 0, vec![me(0, 0)]));
    assert_eq!(m.guid().as_deref(), Some("g-1"));
}

#[test]
fn overtime_is_carried_to_the_live_state() {
    let mut m = Match::new("Bushido");
    let mut s = state(13, 3, 3, vec![me(0, 1)]);
    s.game.as_mut().unwrap().overtime = Some(true);
    m.observe(&s);
    assert!(m.live().unwrap().overtime);
}

#[test]
fn the_names_seen_stop_growing_long_before_anything_silly() {
    let mut m = Match::new("Personne");
    for n in 0..100 {
        m.observe(&state(13, 0, 0, vec![them(&format!("joueur{n}"), 0, 1)]));
    }
    assert_eq!(m.names_seen().len(), MAX_NAMES_SEEN);
}

#[test]
fn les_autres_joueurs_sont_gardes_sans_nom_par_equipe_et_score() {
    let mut m = Match::new("Bushido");
    m.observe(&state(
        -1,
        3,
        1,
        vec![me(0, 2), named("Zed", 1, 150, 1), named("Alpha", 0, 300, 1), named("Moe", 1, 400, 0)],
    ));
    let s = m.finish(300).unwrap();
    assert_eq!(s.match_key.as_deref(), Some(match_key("g-1").as_str()));
    let order: Vec<(i64, i64)> = s.others.iter().map(|o| (o.team, o.score)).collect();
    assert_eq!(order, vec![(0, 300), (1, 400), (1, 150)]);
    assert!(s.others.iter().all(|o| !o.left));
}

#[test]
fn un_joueur_parti_garde_sa_derniere_ligne() {
    let mut m = Match::new("Bushido");
    m.observe(&state(-1, 0, 0, vec![me(0, 0), named("Fuyard", 1, 80, 0), named("Reste", 1, 50, 0)]));
    m.observe(&state(-1, 1, 0, vec![me(0, 1), named("Reste", 1, 60, 0)]));
    let s = m.finish(300).unwrap();
    let fuyard = s.others.iter().find(|o| o.score == 80).expect("le fuyard est garde");
    assert!(fuyard.left);
    let reste = s.others.iter().find(|o| o.score == 60).expect("la ligne la plus recente");
    assert!(!reste.left);
}

#[test]
fn sans_match_guid_ni_cle_ni_autres_joueurs() {
    let mut frame = state(-1, 1, 0, vec![me(0, 1), named("X", 1, 10, 0)]);
    frame.match_guid = None;
    let mut m = Match::new("Bushido");
    m.observe(&frame);
    let s = m.finish(300).unwrap();
    assert_eq!(s.match_key, None);
    assert!(s.others.is_empty());
}

#[test]
fn la_cle_est_stable_et_distincte() {
    assert_eq!(match_key("abc"), match_key("abc"));
    assert_ne!(match_key("abc"), match_key("abd"));
    let k = match_key("abc");
    assert_eq!(k.len(), 64);
    assert!(k.chars().all(|c| c.is_ascii_digit() || ('a'..='f').contains(&c)));
}

#[test]
fn the_key_is_the_sha256_of_the_guid_in_lower_hex() {
    assert_eq!(match_key("abc"), "ba7816bf8f01cfea414140de5dae2223b00361a396177a9cb410ff61f20015ad");
    assert_eq!(hex_of(&[0x00, 0x0f, 0xa0, 0xff]), "000fa0ff");
}

#[test]
fn au_plus_sept_autres_joueurs_les_presents_d_abord() {
    let mut m = Match::new("Bushido");
    m.observe(&state(
        -1,
        0,
        0,
        vec![
            me(0, 0),
            named("a", 0, 10, 0),
            named("b", 0, 20, 0),
            named("c", 0, 30, 0),
            named("d", 1, 40, 0),
            named("e", 1, 50, 0),
            named("f", 1, 60, 0),
            named("g", 1, 70, 0),
        ],
    ));
    m.observe(&state(
        -1,
        0,
        0,
        vec![
            me(0, 0),
            named("h", 0, 5, 0),
            named("i", 0, 6, 0),
            named("c", 0, 30, 0),
            named("d", 1, 40, 0),
            named("e", 1, 50, 0),
            named("f", 1, 60, 0),
            named("g", 1, 70, 0),
        ],
    ));
    let s = m.finish(300).unwrap();
    assert_eq!(s.others.len(), MAX_OTHERS);
    assert!(s.others.iter().all(|o| !o.left), "les partis cedent leur place aux presents");
}

#[test]
fn each_refusal_reads_in_the_log() {
    assert_eq!(Refusal::NeverObserved.message(), "no update was ever observed");
    assert_eq!(Refusal::NoOpponent.message(), "no opponent was ever seen on the other team");
    assert_eq!(Refusal::TrainingPlaylist(73).message(), "training playlist (73)");
    assert_eq!(Refusal::TeamSizeOutOfRange(0).message(), "team size out of range (0)");
    assert_eq!(Refusal::TeamSizeOutOfRange(-5).message(), "team size out of range (-5)");
    assert_eq!(Refusal::MemberNotFound.message(), "the configured member name matched nobody");
    assert_eq!(
        Refusal::MemberTeamInvalid(i64::MIN).message(),
        "the member's team number is invalid (-9223372036854775808)"
    );
    assert_eq!(Refusal::MemberTeamInvalid(1234567890).message(), "the member's team number is invalid (1234567890)");
}

#[test]
fn frames_without_players_leave_the_match_never_observed() {
    let mut m = Match::new("Bushido");
    m.observe(&StateFrame { match_guid: Some("g-1".to_string()), game: None, players: None });
    assert_eq!(m.finish(300), Err(Refusal::NeverObserved));
}

#[test]
fn the_first_reason_that_applies_is_the_one_given() {
    // No opponent comes before the training playlist and the missing member.
    let mut m = Match::new("Bushido");
    m.observe(&state(9, 0, 0, vec![them("Someone", 0, 10)]));
    assert_eq!(m.finish(300), Err(Refusal::NoOpponent));
    // A training playlist comes before a team size out of range.
    let mut m = Match::new("Bushido");
    let five: Vec<PlayerLine> = (0..5).map(|k| them(&format!("b{k}"), 0, 1)).chain([them("o", 1, 1)]).collect();
    m.observe(&state(9, 0, 0, five));
    assert_eq!(m.finish(300), Err(Refusal::TrainingPlaylist(9)));
    // The member on a third team comes last.
    let mut m = Match::new("Bushido");
    m.observe(&state(10, 0, 0, vec![them("a", 0, 1), them("b", 1, 1), me(2, 0)]));
    assert_eq!(m.finish(300), Err(Refusal::MemberTeamInvalid(2)));
}
