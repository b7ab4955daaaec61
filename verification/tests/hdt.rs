use chrono::TimeZone;
use kfire_client::hs::hdt::{find_match, parse, rating_in, Missing, MATCH_WINDOW};
use kfire_client::time::Instant;

const XML: &str = r#"<?xml version="1.0" encoding="utf-8"?>
<BgsLastGames>
  <Game Player="1_2" StartTime="2026-09-21T14:05:58.2640070+02:00" EndTime="2026-09-21T14:44:26.3018310+02:00" Hero="TB_BaconShop_HERO_70_SKIN_H" Rating="5571" RatingAfter="5644" Placemenent="2" FriendlyGame="false" Duos="false">
    <FinalBoard />
  </Game>
  <Game Player="1_2" StartTime="2026-09-21T15:00:00.0000000+02:00" EndTime="2026-09-21T15:30:00.0000000+02:00" Hero="BG28_HERO_400" Rating="7000" RatingAfter="7100" Placemenent="1" FriendlyGame="false" Duos="true" />
  <Game Player="1_2" StartTime="2026-09-21T16:00:00.0000000+02:00" EndTime="2026-09-21T16:30:00.0000000+02:00" Hero="BG28_HERO_400" Rating="5644" RatingAfter="5603" Placemenent="6" FriendlyGame="true" Duos="false" />
</BgsLastGames>"#;

fn utc(h: u32, m: u32, s: u32) -> Instant {
    let t = chrono::Utc.with_ymd_and_hms(2026, 9, 21, h, m, s).unwrap();
    Instant { secs: t.timestamp(), nanos: 0 }
}

#[test]
fn reads_every_game_with_its_zone() {
    let games = parse(XML);
    assert_eq!(games.len(), 3);
    let g = &games[0];
    assert_eq!(g.rating, 5571);
    assert_eq!(g.rating_after, 5644);
    assert_eq!(g.placement, 2, "the attribute is spelt Placemenent by HDT");
    assert_eq!(g.ended_at, Instant { secs: utc(12, 44, 26).secs, nanos: 301_831_000 });
    assert!(!g.duos && !g.friendly);
    assert!(games[1].duos);
    assert!(games[2].friendly);
}

#[test]
fn a_game_missing_a_field_is_skipped_not_fatal() {
    let xml = r#"<Game EndTime="2026-09-21T14:44:26+02:00" Rating="5571" Placemenent="2" />
<Game EndTime="2026-09-21T14:50:00+02:00" Rating="1" RatingAfter="2" Placemenent="3" />"#;
    let games = parse(xml);
    assert_eq!(games.len(), 1);
    assert_eq!(games[0].placement, 3);
}

#[test]
fn an_unrelated_element_starting_with_game_is_ignored() {
    assert!(parse(r#"<GameStats EndTime="x" />"#).is_empty());
}

#[test]
fn matches_the_solo_game_with_the_same_place_ending_close() {
    let games = parse(XML);
    let found = find_match(&games, 2, utc(12, 45, 10)).expect("found");
    assert_eq!(found.rating_after, 5644);
}

#[test]
fn never_takes_a_duo_a_friendly_or_another_place() {
    let games = parse(XML);
    assert!(find_match(&games, 1, utc(13, 30, 0)).is_none(), "duo");
    assert!(find_match(&games, 6, utc(14, 30, 0)).is_none(), "friendly");
    assert!(find_match(&games, 3, utc(12, 44, 26)).is_none(), "other place");
}

#[test]
fn never_takes_a_game_ended_more_than_three_minutes_away() {
    let games = parse(XML);
    assert!(find_match(&games, 2, utc(12, 48, 0)).is_none());
}

#[test]
fn the_closest_candidate_wins() {
    let xml = r#"<Game EndTime="2026-09-21T12:40:00Z" Rating="1" RatingAfter="10" Placemenent="2" FriendlyGame="false" Duos="false" />
<Game EndTime="2026-09-21T12:44:00Z" Rating="1" RatingAfter="20" Placemenent="2" FriendlyGame="false" Duos="false" />"#;
    let games = parse(xml);
    assert_eq!(find_match(&games, 2, utc(12, 43, 30)).unwrap().rating_after, 20);
}

#[test]
fn older_files_without_the_duos_attribute_read_as_solo() {
    let xml = r#"<Game EndTime="2026-09-21T12:44:00Z" Rating="1" RatingAfter="2" Placemenent="2" />"#;
    let games = parse(xml);
    assert!(!games[0].duos && !games[0].friendly);
}

#[test]
fn exactly_three_minutes_away_still_matches() {
    assert_eq!(MATCH_WINDOW, 180);
    let xml = r#"<Game EndTime="2026-09-21T12:44:00Z" Rating="1" RatingAfter="2" Placemenent="4" />"#;
    let games = parse(xml);
    assert!(find_match(&games, 4, utc(12, 47, 0)).is_some());
    assert!(find_match(&games, 4, utc(12, 41, 0)).is_some());
    assert!(find_match(&games, 4, utc(12, 47, 1)).is_none());
}

#[test]
fn the_rating_is_read_or_its_absence_explained() {
    assert_eq!(rating_in(XML, 2, utc(12, 45, 10)), Ok((5571, 5644)));
    assert_eq!(rating_in(XML, 3, utc(12, 45, 10)), Err(Missing::NotFound));
    assert_eq!(rating_in("", 2, utc(12, 45, 10)), Err(Missing::NotFound));
    assert_eq!(Missing::NoFile.message(), "HDT file not found");
    assert_eq!(Missing::Unreadable.message(), "HDT file unreadable");
    assert_eq!(
        Missing::NotFound.message(),
        "no solo game with this place within 3 minutes in HDT file"
    );
}
