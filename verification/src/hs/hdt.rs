//! The Battlegrounds rating, read from Hearthstone Deck Tracker's own file.
//!
//! Only six attributes of a `<Game>` are read: EndTime, Rating, RatingAfter,
//! Placemenent (HDT's own spelling), Duos and FriendlyGame. `Player`, which
//! holds account identifiers, is never read.
use vstd::prelude::*;
use crate::text::{
    chars_eq, chars_of, find, find_char, find_from, is_whitespace, is_ws, lemma_find_from_bounds, parse_i64,
    parse_i64_spec, string_of,
};
use crate::time::{nanos_of, parse_rfc3339, rfc3339_instant, Instant};

verus! {

/// Where members get HDT, shown when it is not installed.
pub const DOWNLOAD_URL: &'static str = "https://hsreplay.net/downloads/";

/// How far apart, in seconds, our end of match and HDT's may be to be the
/// same game.
pub const MATCH_WINDOW: i64 = 180;

/// How long, and how often, in seconds, the file is re-read after a match.
pub const WAIT_TOTAL_SECS: u64 = 30;
pub const WAIT_STEP_SECS: u64 = 3;

/// One Battlegrounds game as HDT recorded it, reduced to what is used.
#[derive(Debug, Clone, Copy, PartialEq)]
pub struct HdtGame {
    pub ended_at: Instant,
    pub rating: i64,
    pub rating_after: i64,
    pub placement: i64,
    pub duos: bool,
    pub friendly: bool,
}

/// The value of the attribute whose `key` (its name, `=` and a quote) first
/// occurs at or after `from` preceded by whitespace: up to the next quote.
pub open spec fn attr_from(tag: Seq<char>, key: Seq<char>, from: int) -> Option<Seq<char>>
    decreases tag.len() + 1 - from,
{
    if key.len() == 0 || from < 0 {
        None
    } else {
        match find_from(tag, key, from) {
            None => None,
            Some(at) => if at > 0 && at <= tag.len() && is_ws(tag[at - 1]) {
                let start = at + key.len();
                match find_from(tag, seq!['"'], start) {
                    None => None,
                    Some(end) => Some(tag.subrange(start, end)),
                }
            } else if at >= from && at + key.len() <= tag.len() {
                attr_from(tag, key, at + key.len())
            } else {
                None
            },
        }
    }
}

/// The value of attribute `name` in one tag, the name preceded by
/// whitespace, so that `Rating` never matches inside `RatingAfter`.
pub open spec fn spec_attr(tag: Seq<char>, name: Seq<char>) -> Option<Seq<char>> {
    attr_from(tag, name + "=\""@, 0)
}

/// The value of attribute `name` in one tag.
pub fn attr(tag: &[char], name: &str) -> (r: Option<Vec<char>>)
    ensures
        match r {
            Some(v) => spec_attr(tag@, name@) == Some(v@),
            None => spec_attr(tag@, name@) is None,
        },
{
    let mut key = chars_of(name);
    key.push('=');
    key.push('"');
    proof {
        reveal_strlit("=\"");
        assert(key@ =~= name@ + "=\""@);
    }
    let mut from: usize = 0;
    loop
        invariant
            key@ == name@ + "=\""@,
            key@.len() >= 2,
            from <= tag@.len() + 1,
            spec_attr(tag@, name@) == attr_from(tag@, key@, from as int),
        decreases tag@.len() + 1 - from,
    {
        match find(tag, key.as_slice(), from) {
            None => {
                return None;
            },
            Some(at) => {
                proof {
                    lemma_find_from_bounds(tag@, key@, from as int);
                }
                let n = tag.len();
                assert(at + key@.len() <= n);
                let start = at + key.len();
                if at > 0 && is_whitespace(tag[at - 1]) {
                    match find_char(tag, '"', start) {
                        None => {
                            return None;
                        },
                        Some(end) => {
                            proof {
                                lemma_find_from_bounds(tag@, seq!['"'], start as int);
                            }
                            return Some(crate::text::slice_to_vec(&tag[start..end]));
                        },
                    }
                }
                from = start;
            },
        }
    }
}

/// A game read from a `<Game>` tag's attributes: all four numbers must read,
/// `Duos` and `FriendlyGame` count only when `true`.
pub open spec fn spec_game(tag: Seq<char>) -> Option<HdtGame> {
    let end = match spec_attr(tag, "EndTime"@) {
        Some(v) => rfc3339_instant(v),
        None => None,
    };
    let num = |n: Seq<char>| match spec_attr(tag, n) {
        Some(v) => parse_i64_spec(v),
        None => None,
    };
    match (end, num("Rating"@), num("RatingAfter"@), num("Placemenent"@)) {
        (Some(e), Some(r), Some(a), Some(p)) => Some(HdtGame {
            ended_at: e,
            rating: r as i64,
            rating_after: a as i64,
            placement: p as i64,
            duos: spec_attr(tag, "Duos"@) == Some("true"@),
            friendly: spec_attr(tag, "FriendlyGame"@) == Some("true"@),
        }),
        _ => None,
    }
}

fn num_attr(tag: &[char], name: &str) -> (r: Option<i64>)
    ensures
        r matches Some(v) ==> spec_attr(tag@, name@) matches Some(t) && parse_i64_spec(t) == Some(v as int),
        r is None ==> (match spec_attr(tag@, name@) {
            Some(t) => parse_i64_spec(t),
            None => None,
        }) is None,
{
    match attr(tag, name) {
        Some(v) => parse_i64(v.as_slice()),
        None => None,
    }
}

fn flag_attr(tag: &[char], name: &str) -> (r: bool)
    ensures
        r == (spec_attr(tag@, name@) == Some("true"@)),
{
    match attr(tag, name) {
        Some(v) => chars_eq(v.as_slice(), chars_of("true").as_slice()),
        None => false,
    }
}

fn game(tag: &[char]) -> (r: Option<HdtGame>)
    ensures
        r == spec_game(tag@),
{
    let ended_at = match attr(tag, "EndTime") {
        Some(v) => parse_rfc3339(string_of(v.as_slice()).as_str()),
        None => None,
    };
    let rating = num_attr(tag, "Rating");
    let rating_after = num_attr(tag, "RatingAfter");
    let placement = num_attr(tag, "Placemenent");
    match (ended_at, rating, rating_after, placement) {
        (Some(e), Some(r), Some(a), Some(p)) => Some(
            HdtGame {
                ended_at: e,
                rating: r,
                rating_after: a,
                placement: p,
                duos: flag_attr(tag, "Duos"),
                friendly: flag_attr(tag, "FriendlyGame"),
            },
        ),
        _ => None,
    }
}

/// The readable `<Game …>` tags at or after `pos`, in order: a tag whose
/// name goes on (`<GameStats`) is not one, and a game missing a field is
/// skipped.
pub open spec fn parse_from(xml: Seq<char>, pos: int) -> Seq<HdtGame>
    decreases xml.len() + 1 - pos,
{
    if pos < 0 {
        seq![]
    } else {
        match find_from(xml, "<Game"@, pos) {
            None => seq![],
            Some(i) => {
                let a = i + 5;
                if a <= pos || a > xml.len() {
                    seq![]
                } else if !(a < xml.len() && is_ws(xml[a])) {
                    parse_from(xml, a)
                } else {
                    match find_from(xml, seq!['>'], a) {
                        None => seq![],
                        Some(end) => if end < a || end > xml.len() {
                            seq![]
                        } else {
                            let rest = parse_from(xml, end);
                            match spec_game(xml.subrange(a, end)) {
                                Some(g) => seq![g] + rest,
                                None => rest,
                            }
                        },
                    }
                }
            },
        }
    }
}

/// Every readable `<Game>` in the file. A game missing a field is skipped:
/// one odd entry must not hide the others.
pub fn parse(xml: &str) -> (r: Vec<HdtGame>)
    ensures
        r@ == parse_from(xml@, 0),
{
    let x = chars_of(xml);
    let open = chars_of("<Game");
    proof {
        reveal_strlit("<Game");
    }
    let mut out: Vec<HdtGame> = Vec::new();
    let mut pos: usize = 0;
    loop
        invariant
            x@ == xml@,
            open@ == "<Game"@,
            open@.len() == 5,
            pos <= x@.len() + 1,
            parse_from(xml@, 0) == out@ + parse_from(xml@, pos as int),
        decreases x@.len() + 1 - pos,
    {
        let i = match find(x.as_slice(), open.as_slice(), pos) {
            None => {
                proof {
                    assert(out@ + parse_from(xml@, pos as int) =~= out@);
                }
                return out;
            },
            Some(i) => i,
        };
        proof {
            lemma_find_from_bounds(x@, open@, pos as int);
        }
        let a = i + 5;
        if !(a < x.len() && is_whitespace(x[a])) {
            pos = a;
            continue;
        }
        let end = match find_char(x.as_slice(), '>', a) {
            None => {
                proof {
                    assert(out@ + parse_from(xml@, pos as int) =~= out@);
                }
                return out;
            },
            Some(e) => e,
        };
        let ghost before = out@;
        match game(&x.as_slice()[a..end]) {
            Some(g) => {
                out.push(g);
                proof {
                    assert(before + (seq![g] + parse_from(xml@, end as int)) =~= out@ + parse_from(xml@, end as int));
                }
            },
            None => {},
        }
        pos = end;
    }
}

/// Whole seconds between two instants, as chrono's `num_seconds` of their
/// difference gives them, in absolute value.
pub open spec fn secs_apart(a: Instant, b: Instant) -> int {
    let d = nanos_of(a) - nanos_of(b);
    (if d >= 0 { d } else { -d }) / 1_000_000_000
}

/// A solo, non-friendly game that finished in this place within three
/// minutes.
pub open spec fn candidate(g: HdtGame, placement: i64, ended_at: Instant) -> bool {
    !g.duos && !g.friendly && g.placement == placement && secs_apart(g.ended_at, ended_at) <= MATCH_WINDOW
}

/// The candidate closest in time; the first of those equally close.
pub open spec fn is_best(games: Seq<HdtGame>, placement: i64, ended_at: Instant, i: int) -> bool {
    &&& 0 <= i < games.len()
    &&& candidate(games[i], placement, ended_at)
    &&& forall|j: int| 0 <= j < games.len() && candidate(games[j], placement, ended_at) ==> secs_apart(games[i].ended_at, ended_at) <= secs_apart(games[j].ended_at, ended_at)
    &&& forall|j: int| 0 <= j < i && candidate(games[j], placement, ended_at) ==> secs_apart(games[i].ended_at, ended_at) < secs_apart(games[j].ended_at, ended_at)
}

fn secs_between(a: Instant, b: Instant) -> (r: i128)
    ensures
        r == secs_apart(a, b),
{
    let d = ((a.secs as i128) * 1_000_000_000 + (a.nanos as i128)) - ((b.secs as i128) * 1_000_000_000 + (b.nanos as i128));
    let m = if d >= 0 { d } else { -d };
    m / 1_000_000_000
}

/// The solo, non-friendly game that finished in `placement` closest to
/// `ended_at`, within three minutes. Never another game's rating.
pub fn find_match(games: &[HdtGame], placement: i64, ended_at: Instant) -> (r: Option<&HdtGame>)
    ensures
        match r {
            Some(g) => exists|i: int| is_best(games@, placement, ended_at, i) && games@[i] == *g,
            None => forall|j: int| 0 <= j < games@.len() ==> !candidate(#[trigger] games@[j], placement, ended_at),
        },
{
    let mut best: Option<usize> = None;
    let mut best_d: i128 = 0;
    let mut i: usize = 0;
    while i < games.len()
        invariant
            i <= games@.len(),
            match best {
                Some(b) => b < i && candidate(games@[b as int], placement, ended_at) && best_d == secs_apart(
                    games@[b as int].ended_at,
                    ended_at,
                ) && (forall|j: int| 0 <= j < i && candidate(games@[j], placement, ended_at) ==> best_d <= secs_apart(
                    games@[j].ended_at,
                    ended_at,
                )) && (forall|j: int| 0 <= j < b && candidate(games@[j], placement, ended_at) ==> best_d < secs_apart(
                    games@[j].ended_at,
                    ended_at,
                )),
                None => forall|j: int| 0 <= j < i ==> !candidate(#[trigger] games@[j], placement, ended_at),
            },
        decreases games@.len() - i,
    {
        let g = &games[i];
        if !g.duos && !g.friendly && g.placement == placement {
            let d = secs_between(g.ended_at, ended_at);
            if d <= MATCH_WINDOW as i128 {
                match best {
                    None => {
                        best = Some(i);
                        best_d = d;
                    },
                    Some(_) => {
                        if d < best_d {
                            best = Some(i);
                            best_d = d;
                        }
                    },
                }
            }
        }
        i = i + 1;
    }
    match best {
        Some(b) => {
            proof {
                assert(is_best(games@, placement, ended_at, b as int));
            }
            Some(&games[b])
        },
        None => None,
    }
}

/// Why no rating was found, for the client's log.
#[derive(Debug, PartialEq, Eq, Clone, Copy)]
pub enum Missing {
    NoFile,
    Unreadable,
    NotFound,
}

impl Missing {
    /// What the client's log says.
    pub fn message(&self) -> (r: &'static str)
        ensures
            r@ == match self {
                Missing::NoFile => "HDT file not found"@,
                Missing::Unreadable => "HDT file unreadable"@,
                Missing::NotFound => "no solo game with this place within 3 minutes in HDT file"@,
            },
    {
        match self {
            Missing::NoFile => "HDT file not found",
            Missing::Unreadable => "HDT file unreadable",
            Missing::NotFound => "no solo game with this place within 3 minutes in HDT file",
        }
    }
}

/// The rating before and after the game HDT's file holds for this match, or
/// why there is none.
pub fn rating_in(xml: &str, placement: i64, ended_at: Instant) -> (r: Result<(i64, i64), Missing>)
    ensures
        match r {
            Ok((a, b)) => exists|i: int| is_best(parse_from(xml@, 0), placement, ended_at, i) && parse_from(xml@, 0)[i].rating == a
                && parse_from(xml@, 0)[i].rating_after == b,
            Err(e) => e == Missing::NotFound && forall|j: int| 0 <= j < parse_from(xml@, 0).len() ==> !candidate(
                #[trigger] parse_from(xml@, 0)[j],
                placement,
                ended_at,
            ),
        },
{
    let games = parse(xml);
    match find_match(games.as_slice(), placement, ended_at) {
        Some(g) => Ok((g.rating, g.rating_after)),
        None => Err(Missing::NotFound),
    }
}

} // verus!
