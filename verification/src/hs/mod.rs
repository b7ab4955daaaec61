//! Hearthstone: the game has no player API, so the client reads the game's
//! own logs and reports a summary of each match. The opponent's name and the
//! cards played never leave this machine.
pub mod config;
pub mod hdt;
pub mod parser;
pub mod paths;
pub mod watcher;

use vstd::prelude::*;
use crate::payload::{fields_view, push_int, push_text, FieldValue, Val};
use crate::status::{effective_status, spec_effective_status};
use crate::text::{chars_eq, chars_of, str_eq};

verus! {

/// The catalogue slug, the one the server knows this game by.
pub const SLUG: &'static str = "hearthstone";

/// The fields sent for one match: the game, mode, result and time, then the
/// turns, placement and hero when they were read. Absent ones are left out,
/// never sent empty.
pub open spec fn spec_payload(m: parser::MatchView, slug: Seq<char>, played_at: Seq<char>) -> Seq<(Seq<char>, Val)> {
    let base = seq![
        ("game_slug"@, Val::Text(slug)),
        ("mode"@, Val::Text(m.mode)),
        ("result"@, Val::Text(m.result)),
        ("played_at"@, Val::Text(played_at)),
    ];
    let t = match m.turns {
        Some(x) => seq![("turns"@, Val::Int(x))],
        None => seq![],
    };
    let p = match m.placement {
        Some(x) => seq![("placement"@, Val::Int(x))],
        None => seq![],
    };
    let h = match m.hero_card_id {
        Some(x) => seq![("hero_card_id"@, Val::Text(x))],
        None => seq![],
    };
    base + t + p + h
}

/// The payload sent for one match, and nothing else. `played_at` is the
/// instant in UTC, RFC 3339.
pub fn payload(m: &parser::Match, slug: &str, played_at: &str) -> (r: Vec<(String, FieldValue)>)
    ensures
        fields_view(r@) == spec_payload(m@, slug@, played_at@),
{
    let mut o: Vec<(String, FieldValue)> = Vec::new();
    proof {
        assert(fields_view(o@) =~= seq![]);
    }
    push_text(&mut o, "game_slug", slug);
    push_text(&mut o, "mode", m.mode.as_str());
    push_text(&mut o, "result", m.result.as_str());
    push_text(&mut o, "played_at", played_at);
    let ghost base = fields_view(o@);
    if let Some(t) = m.turns {
        push_int(&mut o, "turns", t);
    }
    let ghost bt = fields_view(o@);
    if let Some(p) = m.placement {
        push_int(&mut o, "placement", p);
    }
    let ghost bp = fields_view(o@);
    if let Some(h) = &m.hero_card_id {
        push_text(&mut o, "hero_card_id", h.as_str());
    }
    proof {
        let s = spec_payload(m@, slug@, played_at@);
        assert(fields_view(o@) =~= s);
    }
    o
}

/// Adds HDT's rating to a match payload, when one was found: two numbers
/// and nothing else.
pub fn with_rating(p: &mut Vec<(String, FieldValue)>, rating: Option<(i64, i64)>)
    ensures
        fields_view(final(p)@) == match rating {
            Some((a, b)) => fields_view(old(p)@) + seq![("rating"@, Val::Int(a)), ("rating_after"@, Val::Int(b))],
            None => fields_view(old(p)@),
        },
{
    if let Some((before, after)) = rating {
        push_int(p, "rating", before);
        push_int(p, "rating_after", after);
        proof {
            assert(fields_view(p@) =~= fields_view(old(p)@) + seq![("rating"@, Val::Int(before)), ("rating_after"@, Val::Int(after))]);
        }
    }
}

/// The fields broadcast while a match is played: game, mode, turn, and the
/// placement when there is one.
pub open spec fn spec_live_payload(l: parser::LiveView, slug: Seq<char>) -> Seq<(Seq<char>, Val)> {
    seq![("game_slug"@, Val::Text(slug)), ("mode"@, Val::Text(l.mode)), ("turn"@, Val::Int(l.turn))] + match l.placement {
        Some(p) => seq![("placement"@, Val::Int(p))],
        None => seq![],
    }
}

/// The state broadcast while a match is played, and nothing else.
pub fn live_payload(l: &parser::Live, slug: &str) -> (r: Vec<(String, FieldValue)>)
    ensures
        fields_view(r@) == spec_live_payload(l@, slug@),
{
    let mut o: Vec<(String, FieldValue)> = Vec::new();
    proof {
        assert(fields_view(o@) =~= seq![]);
    }
    push_text(&mut o, "game_slug", slug);
    push_text(&mut o, "mode", l.mode.as_str());
    push_int(&mut o, "turn", l.turn);
    if let Some(p) = l.placement {
        push_int(&mut o, "placement", p);
    }
    proof {
        assert(fields_view(o@) =~= spec_live_payload(l@, slug@));
    }
    o
}

/// The end of a match, broadcast so the card disappears at once.
pub fn ended_payload(slug: &str) -> (r: Vec<(String, FieldValue)>)
    ensures
        fields_view(r@) == seq![("game_slug"@, Val::Text(slug@)), ("ended"@, Val::Bool(true))],
{
    crate::payload::ended_payload(slug)
}

/// The pairs as text.
pub open spec fn pairs_text(s: Seq<(String, String)>) -> Seq<(Seq<char>, Seq<char>)> {
    s.map_values(|p: (String, String)| (p.0@, p.1@))
}

/// Whether a server, with its status override, gets a match of `slug`: it
/// is not offline, and its catalogue carries the game.
pub open spec fn eligible(server: (Seq<char>, Seq<char>), catalog: Seq<(Seq<char>, Seq<char>)>, global: Seq<char>, slug: Seq<char>) -> bool {
    spec_effective_status(global, server.1) != "offline"@ && catalog.contains((server.0, slug))
}

/// The servers a match goes to, in order.
pub open spec fn spec_targets(servers: Seq<(Seq<char>, Seq<char>)>, catalog: Seq<(Seq<char>, Seq<char>)>, global: Seq<char>, slug: Seq<char>) -> Seq<Seq<char>>
    decreases servers.len(),
{
    if servers.len() == 0 {
        seq![]
    } else {
        let prev = spec_targets(servers.drop_last(), catalog, global, slug);
        if eligible(servers.last(), catalog, global, slug) {
            prev.push(servers.last().0)
        } else {
            prev
        }
    }
}

/// The servers a match should be queued for: a server whose catalogue does
/// not carry the game would refuse it, and one the member set offline has no
/// session to send it.
pub fn targets(servers: &[(String, String)], catalog: &[(String, String)], global: &str, slug: &str) -> (r: Vec<String>)
    ensures
        r@.map_values(|s: String| s@) == spec_targets(pairs_text(servers@), pairs_text(catalog@), global@, slug@),
{
    let ghost sv = pairs_text(servers@);
    let ghost cv = pairs_text(catalog@);
    let mut out: Vec<String> = Vec::new();
    let mut i: usize = 0;
    proof {
        assert(sv.take(0) =~= seq![]);
        assert(out@.map_values(|s: String| s@) =~= seq![]);
    }
    while i < servers.len()
        invariant
            i <= servers@.len(),
            sv == pairs_text(servers@),
            cv == pairs_text(catalog@),
            out@.map_values(|s: String| s@) == spec_targets(sv.take(i as int), cv, global@, slug@),
        decreases servers@.len() - i,
    {
        let id = servers[i].0.as_str();
        let over = servers[i].1.as_str();
        proof {
            assert(sv.take(i + 1).drop_last() =~= sv.take(i as int));
            assert(sv[i as int] == (id@, over@));
        }
        let eff = effective_status(global, over);
        let mut known = false;
        let mut k: usize = 0;
        while k < catalog.len()
            invariant
                k <= catalog@.len(),
                cv == pairs_text(catalog@),
                known == exists|j: int| 0 <= j < k && cv[j] == (id@, slug@),
            decreases catalog@.len() - k,
        {
            proof {
                assert(cv[k as int] == (catalog@[k as int].0@, catalog@[k as int].1@));
            }
            if str_eq(catalog[k].0.as_str(), id) && str_eq(catalog[k].1.as_str(), slug) {
                known = true;
            }
            k = k + 1;
        }
        proof {
            if known {
                let j = choose|j: int| 0 <= j < catalog@.len() && cv[j] == (id@, slug@);
                assert(cv.contains((id@, slug@)));
            }
            if cv.contains((id@, slug@)) {
                let j = choose|j: int| 0 <= j < cv.len() && cv[j] == (id@, slug@);
            }
        }
        let ghost before = out@.map_values(|s: String| s@);
        if !str_eq(eff.as_str(), "offline") && known {
            out.push(id.to_owned());
            proof {
                assert(out@.map_values(|s: String| s@) =~= before.push(id@));
            }
        }
        i = i + 1;
    }
    proof {
        assert(sv.take(sv.len() as int) =~= sv);
    }
    out
}

/// Whether a finished match waits for HDT's rating: only when the member
/// asked for it, for a Battlegrounds match with a placement.
pub fn wants_rating(hdt_enabled: bool, m: &parser::Match) -> (r: bool)
    ensures
        r == (hdt_enabled && m.mode@ == "battlegrounds"@ && m.placement is Some),
{
    hdt_enabled && str_eq(m.mode.as_str(), "battlegrounds") && m.placement.is_some()
}

/// What was last broadcast on the live channel, so that only a change is
/// sent again.
pub struct LastSent {
    last: Option<String>,
}

impl View for LastSent {
    type V = Option<Seq<char>>;

    closed spec fn view(&self) -> Option<Seq<char>> {
        match self.last {
            Some(s) => Some(s@),
            None => None,
        }
    }
}

impl LastSent {
    /// Nothing sent yet.
    pub fn new() -> (s: Self)
        ensures
            s@ is None,
    {
        LastSent { last: None }
    }

    /// Whether this message differs from the last one sent; if so it becomes
    /// the last one sent.
    pub fn should_send(&mut self, raw: &str) -> (r: bool)
        ensures
            r == (old(self)@ != Some(raw@)),
            final(self)@ == Some(raw@),
    {
        let same = match &self.last {
            Some(s) => str_eq(s.as_str(), raw),
            None => false,
        };
        if same {
            return false;
        }
        self.last = Some(raw.to_owned());
        true
    }
}

/// Whether the member left a server's presence on: its override is
/// `online` or `invisible`, or it has none of the three and the global
/// status is not `offline`. An invisible server still reports, only hidden.
pub open spec fn presence_on(global: Seq<char>, over: Seq<char>) -> bool {
    if over == "online"@ || over == "invisible"@ {
        true
    } else if over == "offline"@ {
        false
    } else {
        global != "offline"@
    }
}

/// `targets` (for Hearthstone and Rocket League alike) keeps, in order, the
/// id of every server whose presence the member left on, online or
/// invisible, and whose catalogue carries the game; no other.
pub proof fn law_targets_are_the_servers_that_report_and_know_the_game(
    servers: Seq<(Seq<char>, Seq<char>)>,
    catalog: Seq<(Seq<char>, Seq<char>)>,
    global: Seq<char>,
    slug: Seq<char>,
)
    ensures
        spec_targets(servers, catalog, global, slug) == servers.filter(
            |s: (Seq<char>, Seq<char>)| presence_on(global, s.1) && catalog.contains((s.0, slug)),
        ).map_values(|s: (Seq<char>, Seq<char>)| s.0),
    decreases servers.len(),
{
    reveal(Seq::filter);
    let pred = |s: (Seq<char>, Seq<char>)| presence_on(global, s.1) && catalog.contains((s.0, slug));
    if servers.len() == 0 {
        assert(servers.filter(pred) =~= seq![]);
    } else {
        law_targets_are_the_servers_that_report_and_know_the_game(servers.drop_last(), catalog, global, slug);
        let last = servers.last();
        reveal_strlit("online");
        reveal_strlit("offline");
        reveal_strlit("invisible");
        assert(eligible(last, catalog, global, slug) == pred(last));
        let f = servers.drop_last().filter(pred);
        if pred(last) {
            assert(f.push(last).map_values(|s: (Seq<char>, Seq<char>)| s.0) =~= f.map_values(
                |s: (Seq<char>, Seq<char>)| s.0,
            ).push(last.0));
        }
    }
}

} // verus!
