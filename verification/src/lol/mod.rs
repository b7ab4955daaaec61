//! League of Legends: the game serves its own API on the player's machine
//! during a game, and the client reads it. Only facts about the member leave
//! this machine.
pub mod parser;

use vstd::prelude::*;
use crate::payload::{fields_view, push_int, push_text, FieldValue, Val};

verus! {

/// The catalogue slug, the one the server knows this game by.
pub const SLUG: &'static str = "league-of-legends";

/// The nine fields broadcast during a game.
pub open spec fn spec_live_payload(l: parser::Live, slug: Seq<char>) -> Seq<(Seq<char>, Val)> {
    seq![
        ("game_slug"@, Val::Text(slug)),
        ("champion"@, Val::Text(l.champion@)),
        ("level"@, Val::Int(l.level)),
        ("kills"@, Val::Int(l.kills)),
        ("deaths"@, Val::Int(l.deaths)),
        ("assists"@, Val::Int(l.assists)),
        ("creep_score"@, Val::Int(l.creep_score)),
        ("gold"@, Val::Int(l.gold)),
        ("game_time_seconds"@, Val::Int(l.game_time_seconds)),
    ]
}

/// The state broadcast during a game, and nothing else: it names nobody.
pub fn live_payload(l: &parser::Live, slug: &str) -> (r: Vec<(String, FieldValue)>)
    ensures
        fields_view(r@) == spec_live_payload(*l, slug@),
{
    let mut o: Vec<(String, FieldValue)> = Vec::new();
    proof {
        assert(fields_view(o@) =~= seq![]);
    }
    push_text(&mut o, "game_slug", slug);
    push_text(&mut o, "champion", l.champion.as_str());
    push_int(&mut o, "level", l.level);
    push_int(&mut o, "kills", l.kills);
    push_int(&mut o, "deaths", l.deaths);
    push_int(&mut o, "assists", l.assists);
    push_int(&mut o, "creep_score", l.creep_score);
    push_int(&mut o, "gold", l.gold);
    push_int(&mut o, "game_time_seconds", l.game_time_seconds);
    proof {
        assert(fields_view(o@) =~= spec_live_payload(*l, slug@));
    }
    o
}

/// The end of a game, broadcast so the card disappears at once.
pub fn ended_payload(slug: &str) -> (r: Vec<(String, FieldValue)>)
    ensures
        fields_view(r@) == seq![("game_slug"@, Val::Text(slug@)), ("ended"@, Val::Bool(true))],
{
    crate::payload::ended_payload(slug)
}

/// Whether a game has been seen since the API last went away.
pub struct Watch {
    in_game: bool,
}

impl View for Watch {
    type V = bool;

    closed spec fn view(&self) -> bool {
        self.in_game
    }
}

impl Watch {
    /// No game seen yet: the game runs from its menu, where the API does not
    /// exist.
    pub fn new() -> (w: Self)
        ensures
            !w@,
    {
        Watch { in_game: false }
    }

    /// The API answered with a usable state: a game is on.
    pub fn seen(&mut self)
        ensures
            final(self)@,
    {
        self.in_game = true;
    }

    /// The API did not answer. Tells whether that ends a game that was seen,
    /// which is then announced once.
    pub fn gone(&mut self) -> (ended: bool)
        ensures
            ended == old(self)@,
            !final(self)@,
    {
        let was = self.in_game;
        self.in_game = false;
        was
    }
}

} // verus!
