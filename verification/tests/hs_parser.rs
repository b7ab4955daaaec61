use kfire_client::hs::parser::{parse_games, Match, Parser, Stamp};
use kfire_client::hs::paths::session_start;

/// One full Battlegrounds game, hand-written from the real line formats.
/// Every name here is invented.
const BG_GAME: &str = r#"
D 17:24:13.6058674 GameState.DebugPrintPower() - CREATE_GAME
D 17:24:13.6058674 GameState.DebugPrintPower() -     Player EntityID=20 PlayerID=7 GameAccountId=[hi=144115198130930503 lo=24907941]
D 17:24:13.6058674 GameState.DebugPrintPower() -     Player EntityID=21 PlayerID=15 GameAccountId=[hi=0 lo=0]
D 17:24:13.6058674 GameState.DebugPrintGame() - PlayerID=7, PlayerName=TestPlayer#1234
D 17:24:13.6058674 GameState.DebugPrintGame() - PlayerID=15, PlayerName=Adversaire
D 17:24:13.6058674 GameState.DebugPrintGame() - GameType=GT_BATTLEGROUNDS
D 17:24:32.6289894 GameState.DebugPrintPower() -     TAG_CHANGE Entity=TestPlayer#1234 tag=HERO_ENTITY value=95
D 17:24:13.8338107 GameState.DebugPrintPower() -     FULL_ENTITY - Creating ID=95 CardID=BG28_HERO_400
D 17:39:34.5976165 GameState.DebugPrintPower() - TAG_CHANGE Entity=[entityName=Herosnom id=95 zone=PLAY zonePos=0 cardId=BG28_HERO_400 player=7] tag=PLAYER_LEADERBOARD_PLACE value=2
D 17:42:15.2856843 GameState.DebugPrintPower() - TAG_CHANGE Entity=[entityName=Herosnom id=95 zone=PLAY zonePos=0 cardId=BG28_HERO_400 player=7] tag=PLAYER_LEADERBOARD_PLACE value=5
D 17:44:00.0000000 GameState.DebugPrintPower() -     TAG_CHANGE Entity=GameEntity tag=TURN value=36
D 17:44:00.0000000 GameState.DebugPrintPower() -     TAG_CHANGE Entity=TestPlayer#1234 tag=TURN value=18
D 17:44:00.0000000 GameState.DebugPrintPower() -     TAG_CHANGE Entity=Bob le barman tag=TURN value=18
D 17:44:59.4684646 GameState.DebugPrintPower() - TAG_CHANGE Entity=TestPlayer#1234 tag=PLAYSTATE value=LOST
"#;

fn lines(src: &str) -> Vec<&str> {
    src.lines().collect()
}

fn parse_all(src: &str) -> Vec<Match> {
    parse_games(&lines(src))
}

fn parse_one(src: &str) -> Match {
    let games = parse_all(src);
    assert_eq!(games.len(), 1, "expected exactly one game, got {games:?}");
    games.into_iter().next().unwrap()
}

fn shown(s: Stamp) -> String {
    let d = chrono::NaiveDate::from_num_days_from_ce_opt(s.day).unwrap();
    let t = chrono::NaiveTime::from_num_seconds_from_midnight_opt(s.clock.secs, s.clock.nanos).unwrap();
    d.and_time(t).format("%Y-%m-%d %H:%M:%S").to_string()
}

/// The lines of a game up to, but not including, the first one holding
/// `marker`.
fn until<'a>(src: &'a str, marker: &str) -> Vec<&'a str> {
    src.lines().take_while(|l| !l.contains(marker)).collect()
}

#[test]
fn reads_a_whole_battlegrounds_game() {
    let m = parse_one(BG_GAME);
    assert_eq!(m.mode, "battlegrounds");
    assert_eq!(m.result, "loss");
    assert_eq!(m.turns, Some(18));
    assert_eq!(m.placement, Some(5));
    assert_eq!(m.hero_card_id.as_deref(), Some("BG28_HERO_400"));
}

#[test]
fn the_doubled_stream_does_not_double_the_games() {
    let doubled: String = BG_GAME
        .lines()
        .flat_map(|l| {
            vec![
                l.to_string(),
                l.replace("GameState.DebugPrintPower", "PowerTaskList.DebugPrintPower")
                    .replace("GameState.DebugPrintGame", "PowerTaskList.DebugPrintGame"),
            ]
        })
        .collect::<Vec<_>>()
        .join("\n");
    assert_eq!(parse_all(&doubled).len(), 1);
}

#[test]
fn a_win_is_a_win() {
    let src = BG_GAME.replace("tag=PLAYSTATE value=LOST", "tag=PLAYSTATE value=WON");
    assert_eq!(parse_one(&src).result, "win");
}

#[test]
fn a_tie_is_a_draw() {
    let src = BG_GAME.replace("tag=PLAYSTATE value=LOST", "tag=PLAYSTATE value=TIED");
    assert_eq!(parse_one(&src).result, "draw");
}

#[test]
fn the_opponents_result_is_never_taken_for_ours() {
    let src = format!(
        "{BG_GAME}D 17:44:59.4684646 GameState.DebugPrintPower() - TAG_CHANGE Entity=Adversaire tag=PLAYSTATE value=WON\n"
    );
    assert_eq!(parse_one(&src).result, "loss");
}

#[test]
fn le_tour_vient_de_lentite_du_membre_pas_de_gameentity() {
    let m = parse_one(BG_GAME);
    assert_eq!(m.turns, Some(18));
}

#[test]
fn lentite_dun_autre_joueur_ne_donne_jamais_le_tour() {
    let src = BG_GAME
        .lines()
        .filter(|l| !l.contains("Entity=TestPlayer#1234 tag=TURN"))
        .collect::<Vec<_>>()
        .join("\n");
    assert_eq!(parse_one(&src).turns, None);
}

#[test]
fn sans_compteur_du_membre_aucun_tour_nest_annonce() {
    let src = BG_GAME
        .lines()
        .filter(|l| !l.contains("tag=TURN value=18"))
        .collect::<Vec<_>>()
        .join("\n");
    let m = parse_one(&src);
    assert_eq!(m.turns, None);
    assert_eq!(m.result, "loss");
}

#[test]
fn une_victoire_en_champs_de_bataille_est_une_premiere_place() {
    let src = BG_GAME
        .replace("tag=PLAYSTATE value=LOST", "tag=PLAYSTATE value=WON")
        .replace("tag=PLAYER_LEADERBOARD_PLACE value=5", "tag=PLAYER_LEADERBOARD_PLACE value=2");
    let m = parse_one(&src);
    assert_eq!(m.result, "win");
    assert_eq!(m.placement, Some(1));
}

#[test]
fn une_defaite_garde_la_position_du_journal() {
    let m = parse_one(BG_GAME);
    assert_eq!(m.result, "loss");
    assert_eq!(m.placement, Some(5));
}

#[test]
fn a_constructed_game_has_no_placement() {
    let src = BG_GAME
        .replace("GT_BATTLEGROUNDS", "GT_RANKED")
        .lines()
        .filter(|l| !l.contains("PLAYER_LEADERBOARD_PLACE"))
        .collect::<Vec<_>>()
        .join("\n");
    let m = parse_one(&src);
    assert_eq!(m.mode, "constructed");
    assert_eq!(m.placement, None);
}

#[test]
fn an_unfinished_game_is_not_reported() {
    let src = BG_GAME.replace("tag=PLAYSTATE value=LOST", "tag=PLAYSTATE value=PLAYING");
    assert!(parse_all(&src).is_empty());
}

#[test]
fn an_unreadable_hero_does_not_lose_the_match() {
    let src = BG_GAME.replace("tag=HERO_ENTITY value=95", "tag=HERO_ENTITY value=999");
    let m = parse_one(&src);
    assert_eq!(m.hero_card_id, None);
    assert_eq!(m.result, "loss");
}

#[test]
fn garbage_yields_nothing_and_does_not_panic() {
    assert!(parse_all("not a log at all\n\n").is_empty());
    assert!(parse_all("").is_empty());
}

#[test]
fn two_games_in_one_file_are_two_matches() {
    let src = format!("{BG_GAME}{BG_GAME}");
    assert_eq!(parse_all(&src).len(), 2);
}

#[test]
fn played_at_combines_the_folder_date_with_the_line_time() {
    let m = parse_one(BG_GAME);
    let start = session_start("Hearthstone_2026_08_02_17_22_29").unwrap();
    assert_eq!(shown(m.played_at(start)), "2026-08-02 17:44:59");
}

#[test]
fn a_session_crossing_midnight_rolls_the_day_over() {
    let src = BG_GAME.replace("D 17:44:59.4684646", "D 00:14:59.4684646");
    let m = parse_one(&src);
    let start = session_start("Hearthstone_2026_08_02_23_40_00").unwrap();
    assert_eq!(shown(m.played_at(start)), "2026-08-03 00:14:59");
}

#[test]
fn une_partie_en_cours_rend_un_etat() {
    let mut p = Parser::new();
    assert!(p.push(&until(BG_GAME, "tag=PLAYSTATE")).is_empty());
    let l = p.live().expect("une partie en cours");
    assert_eq!(l.mode, "battlegrounds");
    assert_eq!(l.turn, 18);
    assert_eq!(l.placement, Some(5));
}

#[test]
fn une_partie_terminee_et_emise_ne_rend_plus_detat() {
    let mut p = Parser::new();
    assert_eq!(p.push(&lines(BG_GAME)).len(), 1);
    assert_eq!(p.live(), None);
}

#[test]
fn une_partie_sans_mode_connu_ne_rend_pas_detat() {
    let mut p = Parser::new();
    p.push(&until(BG_GAME, "GameType="));
    assert_eq!(p.live(), None);
}

#[test]
fn le_tour_remonte_est_le_tour_en_cours() {
    let mut p = Parser::new();
    p.push(&until(BG_GAME, "tag=TURN value=36"));
    p.push(&[
        "D 17:35:00.0000000 GameState.DebugPrintPower() -     TAG_CHANGE Entity=TestPlayer#1234 tag=TURN value=9",
    ]);
    assert_eq!(p.live().expect("une partie en cours").turn, 9);

    p.push(&until(BG_GAME, "tag=PLAYSTATE"));
    assert_eq!(p.live().expect("une partie en cours").turn, 18);
}

#[test]
fn letat_en_direct_dune_victoire_annonce_la_premiere_place() {
    let src = BG_GAME.replace("tag=PLAYSTATE value=LOST", "tag=PLAYSTATE value=WON");
    let mut p = Parser::new();
    let all: Vec<&str> = src.lines().collect();
    p.push(&all[..all.len() - 1]);
    assert_eq!(p.live().expect("une partie en cours").placement, Some(5));
    // A win read on a line whose time does not read: the game has its result
    // but no end, so it is not reported yet, and the card already shows the
    // lobby won.
    let mut p2 = Parser::new();
    p2.push(&until(BG_GAME, "tag=PLAYER_LEADERBOARD_PLACE value=5"));
    p2.push(&[
        "D 17:44:00.0000000 GameState.DebugPrintPower() -     TAG_CHANGE Entity=TestPlayer#1234 tag=TURN value=18",
        "X GameState.DebugPrintPower() - TAG_CHANGE Entity=TestPlayer#1234 tag=PLAYSTATE value=WON",
    ]);
    let l = p2.live().expect("une partie en cours");
    assert_eq!(l.turn, 18);
    assert_eq!(l.placement, Some(1));
}

#[test]
fn en_mode_construit_aucune_position_nest_remontee() {
    let src = BG_GAME.replace("GT_BATTLEGROUNDS", "GT_RANKED");
    let mut p = Parser::new();
    p.push(&until(&src, "tag=PLAYSTATE"));
    let l = p.live().expect("une partie en cours");
    assert_eq!(l.mode, "constructed");
    assert_eq!(l.placement, None);
}

#[test]
fn une_partie_sans_tour_connu_nemet_aucun_etat() {
    let mut p = Parser::new();
    p.push(&until(BG_GAME, "tag=HERO_ENTITY"));
    assert!(p.live().is_none());

    p.push(&[
        "D 17:25:00.0000000 GameState.DebugPrintPower() -     TAG_CHANGE Entity=TestPlayer#1234 tag=TURN value=1",
    ]);
    assert_eq!(p.live().map(|l| l.turn), Some(1));
}

#[test]
fn letat_en_direct_ne_porte_aucun_nom() {
    let mut p = Parser::new();
    p.push(&until(BG_GAME, "tag=PLAYSTATE"));
    let debug = format!("{:?}", p.live().expect("une partie en cours"));
    for forbidden in ["TestPlayer", "Adversaire", "Herosnom", "#1234", "BG28"] {
        assert!(!debug.contains(forbidden), "leaked {forbidden} in {debug}");
    }
}

#[test]
fn a_match_carries_no_name_of_any_kind() {
    let m = parse_one(BG_GAME);
    let debug = format!("{m:?}");
    for forbidden in ["TestPlayer", "Adversaire", "Herosnom", "#1234"] {
        assert!(!debug.contains(forbidden), "leaked {forbidden} in {debug}");
    }
}

#[test]
fn a_turn_never_goes_down_within_a_game_read_forward() {
    let mut p = Parser::new();
    p.push(&until(BG_GAME, "tag=TURN value=36"));
    p.push(&[
        "D 17:44:00.0000000 GameState.DebugPrintPower() -     TAG_CHANGE Entity=TestPlayer#1234 tag=TURN value=12",
        "D 17:44:01.0000000 GameState.DebugPrintPower() -     TAG_CHANGE Entity=TestPlayer#1234 tag=TURN value=7",
    ]);
    assert_eq!(p.live().unwrap().turn, 12);
}

#[test]
fn a_mode_or_result_never_carries_text_from_the_log() {
    let src = BG_GAME
        .replace("GT_BATTLEGROUNDS", "TestPlayer#1234")
        .replace("PLAYER_LEADERBOARD_PLACE", "OTHER");
    let m = parse_one(&src);
    assert_eq!(m.mode, "constructed");
    assert_eq!(m.result, "loss");
    let unknown = BG_GAME.replace("tag=PLAYSTATE value=LOST", "tag=PLAYSTATE value=Adversaire");
    assert!(parse_all(&unknown).is_empty());
}

#[test]
fn a_smaller_turn_does_not_take_the_turn_back() {
    let mut p = Parser::new();
    p.push(&until(BG_GAME, "tag=PLAYSTATE"));
    p.push(&[
        "D 17:44:30.0000000 GameState.DebugPrintPower() -     TAG_CHANGE Entity=TestPlayer#1234 tag=TURN value=12",
    ]);
    assert_eq!(p.live().expect("a game in progress").turn, 18);
}

#[test]
fn the_live_card_does_not_depend_on_the_batches() {
    let all = until(BG_GAME, "tag=PLAYSTATE");
    let mut once = Parser::new();
    once.push(&all);
    let mut by_line = Parser::new();
    for l in &all {
        by_line.push(&[*l]);
    }
    assert_eq!(once.live(), by_line.live());
    assert!(once.live().is_some());
}
