//! Rocket League: the game's stats socket, read locally and reduced to a
//! summary of the member's own match. The names of the other players never
//! leave this machine.
pub mod config;
pub mod frames;
pub mod gate;
pub mod parser;
pub mod paths;
pub mod session;
pub mod socket;

use vstd::prelude::*;
use crate::payload::{fields_view, push_bool, push_int, push_text, FieldValue, Val};
use crate::text::{append_chars, chars_of};
use crate::rl::gate::MatchGate;
use crate::rl::parser::{Live, Match, MatchModel, Refusal, StateFrame, Summary, SummaryView, spec_finish, spec_live, spec_new, spec_observe, wf};

verus! {

/// The catalogue slug, the one the server knows this game by.
pub const SLUG: &'static str = "rocket-league";

/// The fields sent for a match: sixteen with a playlist, fifteen without,
/// since an absent playlist is left out rather than sent empty. Numbers and
/// facts about the member only.
pub open spec fn spec_payload(s: SummaryView, slug: Seq<char>, played_at: Seq<char>) -> Seq<(Seq<char>, Val)> {
    let head = seq![("game_slug"@, Val::Text(slug))];
    let pl = match s.playlist {
        Some(p) => seq![("playlist"@, Val::Int(p))],
        None => seq![],
    };
    let rest = seq![
        ("team_size"@, Val::Int(s.team_size)),
        ("player_team"@, Val::Int(s.player_team)),
        ("team_blue_score"@, Val::Int(s.team_blue_score)),
        ("team_orange_score"@, Val::Int(s.team_orange_score)),
        ("result"@, Val::Text(s.result)),
        ("goals"@, Val::Int(s.goals)),
        ("assists"@, Val::Int(s.assists)),
        ("saves"@, Val::Int(s.saves)),
        ("shots"@, Val::Int(s.shots)),
        ("score"@, Val::Int(s.score)),
        ("demos"@, Val::Int(s.demos)),
        ("mvp"@, Val::Bool(s.mvp)),
        ("duration_seconds"@, Val::Int(s.duration_seconds)),
        ("played_at"@, Val::Text(played_at)),
    ];
    head + pl + rest
}

/// The payload sent for a match, and nothing else. `played_at` is the
/// instant in UTC, RFC 3339.
pub fn payload(s: &Summary, slug: &str, played_at: &str) -> (r: Vec<(String, FieldValue)>)
    ensures
        fields_view(r@) == spec_payload(s@, slug@, played_at@),
{
    let mut o: Vec<(String, FieldValue)> = Vec::new();
    proof {
        assert(fields_view(o@) =~= seq![]);
    }
    push_text(&mut o, "game_slug", slug);
    if let Some(p) = s.playlist {
        push_int(&mut o, "playlist", p);
    }
    let ghost hp = fields_view(o@);
    push_int(&mut o, "team_size", s.team_size);
    push_int(&mut o, "player_team", s.player_team);
    push_int(&mut o, "team_blue_score", s.team_blue_score);
    push_int(&mut o, "team_orange_score", s.team_orange_score);
    push_text(&mut o, "result", s.result.as_str());
    push_int(&mut o, "goals", s.goals);
    push_int(&mut o, "assists", s.assists);
    push_int(&mut o, "saves", s.saves);
    push_int(&mut o, "shots", s.shots);
    push_int(&mut o, "score", s.score);
    push_int(&mut o, "demos", s.demos);
    push_bool(&mut o, "mvp", s.mvp);
    push_int(&mut o, "duration_seconds", s.duration_seconds);
    push_text(&mut o, "played_at", played_at);
    proof {
        assert(fields_view(o@) =~= spec_payload(s@, slug@, played_at@));
    }
    o
}

/// The eleven fields broadcast during a match.
pub open spec fn spec_live_payload(l: Live, slug: Seq<char>) -> Seq<(Seq<char>, Val)> {
    seq![
        ("game_slug"@, Val::Text(slug)),
        ("team_blue_score"@, Val::Int(l.team_blue_score)),
        ("team_orange_score"@, Val::Int(l.team_orange_score)),
        ("seconds_remaining"@, Val::Int(l.seconds_remaining)),
        ("overtime"@, Val::Bool(l.overtime)),
        ("goals"@, Val::Int(l.goals)),
        ("assists"@, Val::Int(l.assists)),
        ("saves"@, Val::Int(l.saves)),
        ("shots"@, Val::Int(l.shots)),
        ("score"@, Val::Int(l.score)),
        ("demos"@, Val::Int(l.demos)),
    ]
}

/// The state broadcast during the match, and nothing else.
pub fn live_payload(l: &Live, slug: &str) -> (r: Vec<(String, FieldValue)>)
    ensures
        fields_view(r@) == spec_live_payload(*l, slug@),
{
    let mut o: Vec<(String, FieldValue)> = Vec::new();
    proof {
        assert(fields_view(o@) =~= seq![]);
    }
    push_text(&mut o, "game_slug", slug);
    push_int(&mut o, "team_blue_score", l.team_blue_score);
    push_int(&mut o, "team_orange_score", l.team_orange_score);
    push_int(&mut o, "seconds_remaining", l.seconds_remaining);
    push_bool(&mut o, "overtime", l.overtime);
    push_int(&mut o, "goals", l.goals);
    push_int(&mut o, "assists", l.assists);
    push_int(&mut o, "saves", l.saves);
    push_int(&mut o, "shots", l.shots);
    push_int(&mut o, "score", l.score);
    push_int(&mut o, "demos", l.demos);
    proof {
        assert(fields_view(o@) =~= spec_live_payload(*l, slug@));
    }
    o
}

/// The end of a match, broadcast so the card disappears at once.
pub fn ended_payload(slug: &str) -> (r: Vec<(String, FieldValue)>)
    ensures
        fields_view(r@) == seq![("game_slug"@, Val::Text(slug@)), ("ended"@, Val::Bool(true))],
{
    crate::payload::ended_payload(slug)
}

/// The servers a match must be addressed to, by the same rule as
/// Hearthstone's.
pub fn targets(servers: &[(String, String)], catalog: &[(String, String)], global: &str, slug: &str) -> (r: Vec<String>)
    ensures
        r@.map_values(|s: String| s@) == crate::hs::spec_targets(
            crate::hs::pairs_text(servers@),
            crate::hs::pairs_text(catalog@),
            global@,
            slug@,
        ),
{
    crate::hs::targets(servers, catalog, global, slug)
}

} // verus!
