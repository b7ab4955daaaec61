//! Turning Hearthstone log lines into match summaries.
//!
//! The lines carry the member's BattleTag, the opponents' names and every
//! card played. None of that reaches a `Match` or a `Live`, which are what
//! leave this module: neither has a field that could hold a name.
use vstd::prelude::*;
use chrono::Timelike;
use crate::scanner::{lookup, set_name, set_name_in};
use crate::text::{
    append_chars, chars_eq, chars_of, contains, contains_chars, find, find_from, first_word, first_word_of, is_whitespace,
    is_ws, lemma_find_from_bounds, parse_i64, parse_i64_spec, slice_to_vec, split_second, split_second_at,
    split_once_str, string_of, trim, trim_bounds,
};

verus! {

// ---------------------------------------------------------------------------
// Times

/// A time of day: seconds since midnight and nanoseconds.
#[derive(Debug, Clone, Copy, PartialEq, Eq)]
pub struct Clock {
    pub secs: u32,
    pub nanos: u32,
}

/// A date and a time of day: the day as chrono numbers it from the common
/// era, and the time.
#[derive(Debug, Clone, Copy, PartialEq, Eq)]
pub struct Stamp {
    pub day: i32,
    pub clock: Clock,
}

/// Whether `a` is strictly earlier than `b`.
pub open spec fn stamp_lt(a: Stamp, b: Stamp) -> bool {
    a.day < b.day || (a.day == b.day && (a.clock.secs < b.clock.secs || (a.clock.secs == b.clock.secs
        && a.clock.nanos < b.clock.nanos)))
}

/// What `NaiveTime::parse_from_str(stamp, "%H:%M:%S%.f")` gives, as a clock.
pub uninterp spec fn clock_of(stamp: Seq<char>) -> Option<Clock>;

/// `chrono::NaiveTime::parse_from_str` with `%H:%M:%S%.f`: the time written,
/// if it reads as one. A chrono time is under a day, and its nanoseconds
/// under two seconds' worth (a leap second).
#[verifier::external_body]
fn parse_clock(stamp: &str) -> (r: Option<Clock>)
    ensures
        r == clock_of(stamp@),
        r matches Some(c) ==> c.secs < 86400 && c.nanos < 2_000_000_000,
{
    match chrono::NaiveTime::parse_from_str(stamp, "%H:%M:%S%.f") {
        Ok(t) => Some(Clock { secs: t.num_seconds_from_midnight(), nanos: t.nanosecond() }),
        Err(_) => None,
    }
}

/// The time of day a line was written: the first word after a leading `D `.
pub open spec fn line_time(line: Seq<char>) -> Option<Clock> {
    if line.len() >= 2 && line.take(2) == "D "@ {
        match first_word(line.skip(2)) {
            Some(w) => clock_of(w),
            None => None,
        }
    } else {
        None
    }
}

fn time_of_line(line: &[char]) -> (r: Option<Clock>)
    ensures
        r == line_time(line@),
{
    if line.len() >= 2 && line[0] == 'D' && line[1] == ' ' {
        proof {
            reveal_strlit("D ");
            assert(line@.take(2) =~= "D "@);
        }
        let n = line.len();
        proof {
            assert(line@.subrange(2, n as int) =~= line@.skip(2));
        }
        match first_word_of(&line[2..n]) {
            Some(w) => parse_clock(string_of(w.as_slice()).as_str()),
            None => None,
        }
    } else {
        proof {
            reveal_strlit("D ");
            if line@.len() >= 2 {
                assert(line@.take(2)[0] == line@[0]);
                assert(line@.take(2)[1] == line@[1]);
            }
        }
        None
    }
}

// ---------------------------------------------------------------------------
// Fields of a line

/// Where a value stops: whitespace or a closing bracket.
pub open spec fn is_stop(c: char) -> bool {
    is_ws(c) || c == ']'
}

/// The position of the first stop at or after `from`, or the length.
pub open spec fn stop_at(s: Seq<char>, from: int) -> int
    decreases s.len() - from,
{
    if from < 0 || from >= s.len() {
        s.len() as int
    } else if is_stop(s[from]) {
        from
    } else {
        stop_at(s, from + 1)
    }
}

/// The value following `key`, up to the next whitespace or closing bracket;
/// with an empty key, the line's first token. `None` when empty.
pub open spec fn field(line: Seq<char>, key: Seq<char>) -> Option<Seq<char>> {
    let rest = if key.len() == 0 {
        Some(line)
    } else {
        split_second(line, key)
    };
    match rest {
        None => None,
        Some(r) => {
            let v = trim(r.take(stop_at(r, 0)));
            if v.len() == 0 {
                None
            } else {
                Some(v)
            }
        },
    }
}

fn stop_in(s: &[char]) -> (r: usize)
    ensures
        r == stop_at(s@, 0),
        r <= s@.len(),
{
    let mut i: usize = 0;
    while i < s.len()
        invariant
            i <= s@.len(),
            stop_at(s@, 0) == stop_at(s@, i as int),
        decreases s@.len() - i,
    {
        if is_whitespace(s[i]) || s[i] == ']' {
            return i;
        }
        i = i + 1;
    }
    i
}

/// The value following `key`, up to the next whitespace or closing bracket.
pub fn field_of(line: &[char], key: &str) -> (r: Option<Vec<char>>)
    ensures
        match r {
            Some(v) => field(line@, key@) == Some(v@),
            None => field(line@, key@) is None,
        },
{
    let k = chars_of(key);
    let (a, b) = if k.len() == 0 {
        (0, line.len())
    } else {
        match split_second_at(line, k.as_slice()) {
            Some(p) => p,
            None => {
                return None;
            },
        }
    };
    proof {
        if k@.len() == 0 {
            assert(line@.subrange(0, line@.len() as int) =~= line@);
        }
    }
    let rest = &line[a..b];
    let e = stop_in(rest);
    let (x, y) = trim_bounds(rest, 0, e);
    proof {
        assert(rest@.subrange(0, e as int) =~= rest@.take(e as int));
    }
    if x == y {
        return None;
    }
    Some(slice_to_vec(&rest[x..y]))
}

// ---------------------------------------------------------------------------
// One game being read

/// What has been read of one game.
pub struct GameView {
    pub my_player_id: Option<Seq<char>>,
    pub my_name: Option<Seq<char>>,
    pub mode: Option<Seq<char>>,
    pub result: Option<Seq<char>>,
    pub turns: Option<i64>,
    pub placement: Option<i64>,
    pub hero_entity: Option<Seq<char>>,
    pub ended_at: Option<Clock>,
    /// Entity id → card id.
    pub cards: Seq<(Seq<char>, Seq<char>)>,
    /// Set once this game has been reported.
    pub emitted: bool,
}

/// Nothing read yet.
pub open spec fn fresh_game() -> GameView {
    GameView {
        my_player_id: None,
        my_name: None,
        mode: None,
        result: None,
        turns: None,
        placement: None,
        hero_entity: None,
        ended_at: None,
        cards: seq![],
        emitted: false,
    }
}

/// The member's player id, from a `Player EntityID=` line: only the account
/// with a real id, since an opponent in Battlegrounds carries `hi=0 lo=0`.
/// Otherwise the member's name, from the `PlayerID=…, PlayerName=` line of
/// his id.
pub open spec fn read_player(g: GameView, line: Seq<char>) -> GameView {
    match split_second(line, "Player EntityID="@) {
        Some(rest) => match field(rest, "PlayerID="@) {
            Some(pid) => {
                let genuine = match split_second(rest, "GameAccountId=[hi="@) {
                    Some(t) => !(t.len() >= 7 && t.take(7) == "0 lo=0]"@),
                    None => false,
                };
                if genuine {
                    GameView { my_player_id: Some(pid), ..g }
                } else {
                    g
                }
            },
            None => g,
        },
        None => match split_second(line, "PlayerID="@) {
            Some(rest) => match split_once_str(rest, ", PlayerName="@) {
                Some((pid, name)) => if g.my_player_id == Some(trim(pid)) {
                    GameView { my_name: Some(trim(name)), ..g }
                } else {
                    g
                },
                None => g,
            },
            None => g,
        },
    }
}

/// The mode, from `GameType=`; and the card of every entity created or
/// described on the line.
pub open spec fn read_mode_and_cards(g: GameView, line: Seq<char>) -> GameView {
    let g1 = match field(line, "GameType="@) {
        Some(gt) => GameView {
            mode: Some(if gt == "GT_BATTLEGROUNDS"@ { "battlegrounds"@ } else { "constructed"@ }),
            ..g
        },
        None => g,
    };
    let g2 = match split_second(line, "FULL_ENTITY - Creating ID="@) {
        Some(rest) => match (field(rest, ""@), field(rest, "CardID="@)) {
            (Some(id), Some(card)) => GameView { cards: set_name(g1.cards, id, card), ..g1 },
            _ => g1,
        },
        None => g1,
    };
    match (field(line, " id="@), field(line, "cardId="@)) {
        (Some(id), Some(card)) => GameView { cards: set_name(g2.cards, id, card), ..g2 },
        _ => g2,
    }
}

/// The result a `PLAYSTATE` value stands for.
pub open spec fn result_of(v: Seq<char>) -> Option<Seq<char>> {
    if v == "WON"@ {
        Some("win"@)
    } else if v == "LOST"@ {
        Some("loss"@)
    } else if v == "TIED"@ {
        Some("draw"@)
    } else {
        None
    }
}

/// What a line about the member's own entity says: his hero, his result
/// with the time it was written, and his turn, the largest seen.
pub open spec fn read_mine(g: GameView, line: Seq<char>) -> GameView {
    let g1 = match field(line, "tag=HERO_ENTITY value="@) {
        Some(v) => GameView { hero_entity: Some(v), ..g },
        None => g,
    };
    let g2 = match field(line, "tag=PLAYSTATE value="@) {
        Some(v) => match result_of(v) {
            Some(r) => GameView { result: Some(r), ended_at: line_time(line), ..g1 },
            None => g1,
        },
        None => g1,
    };
    let turn = match field(line, "tag=TURN value="@) {
        Some(v) => parse_i64_spec(v),
        None => None,
    };
    match turn {
        Some(t) => {
            let before: int = match g2.turns {
                Some(x) => x as int,
                None => 0,
            };
            GameView { turns: Some(if before >= t { before as i64 } else { t as i64 }), ..g2 }
        },
        None => g2,
    }
}

/// The member's leaderboard place, from a line about his player: the last
/// value counts, and one that does not read as a number clears it.
pub open spec fn read_place(g: GameView, line: Seq<char>) -> GameView {
    if contains(line, "tag=PLAYER_LEADERBOARD_PLACE value="@) {
        let is_mine = match g.my_player_id {
            Some(p) => contains(line, "player="@ + p + "]"@),
            None => false,
        };
        if is_mine {
            let v = match field(line, "tag=PLAYER_LEADERBOARD_PLACE value="@) {
                Some(t) => match parse_i64_spec(t) {
                    Some(x) => Some(x as i64),
                    None => None,
                },
                None => None,
            };
            GameView { placement: v, ..g }
        } else {
            g
        }
    } else {
        g
    }
}

/// A game after one of its lines. Nothing about the member's entity is read
/// before his name is known.
pub open spec fn read_line(g: GameView, line: Seq<char>) -> GameView {
    let g1 = read_mode_and_cards(read_player(g, line), line);
    match g1.my_name {
        None => g1,
        Some(me) => {
            let g2 = if contains(line, "Entity="@ + me + " "@) {
                read_mine(g1, line)
            } else {
                g1
            };
            read_place(g2, line)
        },
    }
}

/// The member's position: a Battlegrounds win is first place, whatever the
/// leaderboard last said; otherwise the last place read.
pub open spec fn reported_placement(g: GameView) -> Option<i64> {
    if g.mode == Some("battlegrounds"@) && g.result == Some("win"@) {
        Some(1)
    } else {
        g.placement
    }
}

/// A finished match, as text.
pub struct MatchView {
    pub mode: Seq<char>,
    pub result: Seq<char>,
    pub turns: Option<i64>,
    pub placement: Option<i64>,
    pub hero_card_id: Option<Seq<char>>,
    pub ended_at: Clock,
}

/// The match, once its mode, result and end time have been read; its hero's
/// card when the hero entity's card is known.
pub open spec fn finish_game(g: GameView) -> Option<MatchView> {
    if g.mode is Some && g.result is Some && g.ended_at is Some {
        Some(MatchView {
            mode: g.mode->0,
            result: g.result->0,
            turns: g.turns,
            placement: reported_placement(g),
            hero_card_id: match g.hero_entity {
                Some(id) => lookup(g.cards, id),
                None => None,
            },
            ended_at: g.ended_at->0,
        })
    } else {
        None
    }
}

/// Optional characters as text.
pub open spec fn opt_chars(x: Option<Vec<char>>) -> Option<Seq<char>> {
    match x {
        Some(v) => Some(v@),
        None => None,
    }
}

/// State accumulated while reading one game.
pub struct Game {
    my_player_id: Option<Vec<char>>,
    my_name: Option<Vec<char>>,
    mode: Option<Vec<char>>,
    result: Option<Vec<char>>,
    turns: Option<i64>,
    placement: Option<i64>,
    hero_entity: Option<Vec<char>>,
    ended_at: Option<Clock>,
    cards: Vec<(String, String)>,
    emitted: bool,
}

impl View for Game {
    type V = GameView;

    closed spec fn view(&self) -> GameView {
        GameView {
            my_player_id: opt_chars(self.my_player_id),
            my_name: opt_chars(self.my_name),
            mode: opt_chars(self.mode),
            result: opt_chars(self.result),
            turns: self.turns,
            placement: self.placement,
            hero_entity: opt_chars(self.hero_entity),
            ended_at: self.ended_at,
            cards: crate::scanner::pairs_view(self.cards@),
            emitted: self.emitted,
        }
    }
}

/// The characters `a`, then `b`, then `c`.
fn concat3(a: &str, b: &[char], c: &str) -> (r: Vec<char>)
    ensures
        r@ == a@ + b@ + c@,
{
    let mut out = chars_of(a);
    let mut i: usize = 0;
    let ghost start = out@;
    while i < b.len()
        invariant
            i <= b@.len(),
            out@ == start + b@.take(i as int),
        decreases b@.len() - i,
    {
        out.push(b[i]);
        proof {
            assert(b@.take(i + 1) =~= b@.take(i as int).push(b@[i as int]));
            assert(out@ =~= start + b@.take(i + 1));
        }
        i = i + 1;
    }
    proof {
        assert(b@.take(b@.len() as int) =~= b@);
    }
    let tail = chars_of(c);
    let mut j: usize = 0;
    let ghost mid = out@;
    while j < tail.len()
        invariant
            j <= tail@.len(),
            out@ == mid + tail@.take(j as int),
        decreases tail@.len() - j,
    {
        out.push(tail[j]);
        proof {
            assert(tail@.take(j + 1) =~= tail@.take(j as int).push(tail@[j as int]));
            assert(out@ =~= mid + tail@.take(j + 1));
        }
        j = j + 1;
    }
    proof {
        assert(tail@.take(tail@.len() as int) =~= tail@);
        assert(out@ =~= a@ + b@ + c@);
    }
    out
}

impl Game {
    /// Nothing read yet.
    pub fn new() -> (g: Self)
        ensures
            g@ == fresh_game(),
    {
        let g = Game {
            my_player_id: None,
            my_name: None,
            mode: None,
            result: None,
            turns: None,
            placement: None,
            hero_entity: None,
            ended_at: None,
            cards: Vec::new(),
            emitted: false,
        };
        proof {
            assert(crate::scanner::pairs_view(g.cards@) =~= seq![]);
        }
        g
    }

    fn read_player(&mut self, line: &[char])
        ensures
            final(self)@ == read_player(old(self)@, line@),
    {
        let k1 = chars_of("Player EntityID=");
        proof {
            reveal_strlit("Player EntityID=");
        }
        match split_second_at(line, k1.as_slice()) {
            Some((a, b)) => {
                let rest = &line[a..b];
                match field_of(rest, "PlayerID=") {
                    Some(pid) => {
                        let k2 = chars_of("GameAccountId=[hi=");
                        proof {
                            reveal_strlit("GameAccountId=[hi=");
                        }
                        let genuine = match split_second_at(rest, k2.as_slice()) {
                            Some((c, d)) => {
                                let t = &rest[c..d];
                                let zero = chars_of("0 lo=0]");
                                proof {
                                    reveal_strlit("0 lo=0]");
                                    if t@.len() >= 7 {
                                        assert(t@.subrange(0, 7) =~= t@.take(7));
                                    }
                                }
                                !(t.len() >= 7 && chars_eq(&t[0..7], zero.as_slice()))
                            },
                            None => false,
                        };
                        if genuine {
                            self.my_player_id = Some(pid);
                        }
                    },
                    None => {},
                }
            },
            None => {
                let k3 = chars_of("PlayerID=");
                proof {
                    reveal_strlit("PlayerID=");
                }
                match split_second_at(line, k3.as_slice()) {
                    Some((a, b)) => {
                        let rest = &line[a..b];
                        let sep = chars_of(", PlayerName=");
                        proof {
                            reveal_strlit(", PlayerName=");
                        }
                        match find(rest, sep.as_slice(), 0) {
                            Some(i) => {
                                proof {
                                    lemma_find_from_bounds(rest@, sep@, 0);
                                }
                                let n = rest.len();
                                let (pa, pb) = trim_bounds(rest, 0, i);
                                let (na, nb) = trim_bounds(rest, i + sep.len(), n);
                                let same = match &self.my_player_id {
                                    Some(p) => chars_eq(p.as_slice(), &rest[pa..pb]),
                                    None => false,
                                };
                                if same {
                                    self.my_name = Some(slice_to_vec(&rest[na..nb]));
                                }
                            },
                            None => {},
                        }
                    },
                    None => {},
                }
            },
        }
    }

    fn read_mode_and_cards(&mut self, line: &[char])
        ensures
            final(self)@ == read_mode_and_cards(old(self)@, line@),
    {
        match field_of(line, "GameType=") {
            Some(gt) => {
                let bg = chars_of("GT_BATTLEGROUNDS");
                self.mode = Some(
                    if chars_eq(gt.as_slice(), bg.as_slice()) {
                        chars_of("battlegrounds")
                    } else {
                        chars_of("constructed")
                    },
                );
            },
            None => {},
        }
        let ghost g1 = self@;
        let k = chars_of("FULL_ENTITY - Creating ID=");
        proof {
            reveal_strlit("FULL_ENTITY - Creating ID=");
        }
        match split_second_at(line, k.as_slice()) {
            Some((a, b)) => {
                let rest = &line[a..b];
                match (field_of(rest, ""), field_of(rest, "CardID=")) {
                    (Some(id), Some(card)) => {
                        proof {
                            reveal_strlit("");
                        }
                        set_name_in(&mut self.cards, string_of(id.as_slice()).as_str(), string_of(card.as_slice()).as_str());
                    },
                    _ => {
                        proof {
                            reveal_strlit("");
                        }
                    },
                }
            },
            None => {},
        }
        match (field_of(line, " id="), field_of(line, "cardId=")) {
            (Some(id), Some(card)) => {
                set_name_in(&mut self.cards, string_of(id.as_slice()).as_str(), string_of(card.as_slice()).as_str());
            },
            _ => {},
        }
    }
}

impl Game {
    fn read_mine(&mut self, line: &[char])
        ensures
            final(self)@ == read_mine(old(self)@, line@),
    {
        match field_of(line, "tag=HERO_ENTITY value=") {
            Some(v) => {
                self.hero_entity = Some(v);
            },
            None => {},
        }
        match field_of(line, "tag=PLAYSTATE value=") {
            Some(v) => {
                let r: Option<&str> = if chars_eq(v.as_slice(), chars_of("WON").as_slice()) {
                    Some("win")
                } else if chars_eq(v.as_slice(), chars_of("LOST").as_slice()) {
                    Some("loss")
                } else if chars_eq(v.as_slice(), chars_of("TIED").as_slice()) {
                    Some("draw")
                } else {
                    None
                };
                match r {
                    Some(word) => {
                        self.result = Some(chars_of(word));
                        self.ended_at = time_of_line(line);
                    },
                    None => {},
                }
            },
            None => {},
        }
        let turn = match field_of(line, "tag=TURN value=") {
            Some(v) => parse_i64(v.as_slice()),
            None => None,
        };
        match turn {
            Some(t) => {
                let before: i64 = match self.turns {
                    Some(x) => x,
                    None => 0,
                };
                self.turns = Some(if before >= t { before } else { t });
            },
            None => {},
        }
    }

    fn read_place(&mut self, line: &[char])
        ensures
            final(self)@ == read_place(old(self)@, line@),
    {
        let tag = chars_of("tag=PLAYER_LEADERBOARD_PLACE value=");
        if contains_chars(line, tag.as_slice()) {
            let is_mine = match &self.my_player_id {
                Some(p) => {
                    let pat = concat3("player=", p.as_slice(), "]");
                    contains_chars(line, pat.as_slice())
                },
                None => false,
            };
            if is_mine {
                self.placement = match field_of(line, "tag=PLAYER_LEADERBOARD_PLACE value=") {
                    Some(t) => parse_i64(t.as_slice()),
                    None => None,
                };
            }
        }
    }

    /// Takes one line of the game into account.
    pub fn read(&mut self, line: &[char])
        ensures
            final(self)@ == read_line(old(self)@, line@),
    {
        self.read_player(line);
        self.read_mode_and_cards(line);
        let me = match &self.my_name {
            Some(m) => slice_to_vec(m.as_slice()),
            None => {
                return;
            },
        };
        let mine = concat3("Entity=", me.as_slice(), " ");
        if contains_chars(line, mine.as_slice()) {
            self.read_mine(line);
        }
        self.read_place(line);
    }

    /// The member's position, with the one correction Battlegrounds needs.
    fn reported_placement(&self) -> (r: Option<i64>)
        ensures
            r == reported_placement(self@),
    {
        let bg = match &self.mode {
            Some(m) => chars_eq(m.as_slice(), chars_of("battlegrounds").as_slice()),
            None => false,
        };
        let won = match &self.result {
            Some(r) => chars_eq(r.as_slice(), chars_of("win").as_slice()),
            None => false,
        };
        if bg && won {
            return Some(1);
        }
        self.placement
    }

    /// The match, once every mandatory field has been read.
    fn finish(&self) -> (r: Option<Match>)
        ensures
            match r {
                Some(m) => finish_game(self@) == Some(m@),
                None => finish_game(self@) is None,
            },
    {
        let mode = match &self.mode {
            Some(m) => string_of(m.as_slice()),
            None => {
                return None;
            },
        };
        let result = match &self.result {
            Some(r) => string_of(r.as_slice()),
            None => {
                return None;
            },
        };
        let ended_at = match self.ended_at {
            Some(t) => t,
            None => {
                return None;
            },
        };
        let hero: Option<String> = match &self.hero_entity {
            Some(id) => {
                let ids = string_of(id.as_slice());
                let r = crate::scanner::position(&self.cards, ids.as_str());
                proof {
                    assert forall|j: int| 0 <= j < self.cards@.len() implies #[trigger] self@.cards[j].0 == self.cards@[j].0@ by {}
                    crate::scanner::lemma_found(self.cards@, self@.cards, id@, r);
                }
                match r {
                    Some(i) => Some(self.cards[i].1.clone()),
                    None => None,
                }
            },
            None => None,
        };
        Some(Match { mode, result, turns: self.turns, placement: self.reported_placement(), hero_card_id: hero, ended_at })
    }
}

/// One finished match, exactly what the server accepts and nothing more.
#[derive(Debug, Clone, PartialEq)]
pub struct Match {
    pub mode: String,
    pub result: String,
    pub turns: Option<i64>,
    pub placement: Option<i64>,
    pub hero_card_id: Option<String>,
    /// Time of day of the final line; the day itself comes from the folder.
    pub ended_at: Clock,
}

/// An optional string as text.
pub open spec fn opt_str(x: Option<String>) -> Option<Seq<char>> {
    match x {
        Some(s) => Some(s@),
        None => None,
    }
}

impl View for Match {
    type V = MatchView;

    open spec fn view(&self) -> MatchView {
        MatchView {
            mode: self.mode@,
            result: self.result@,
            turns: self.turns,
            placement: self.placement,
            hero_card_id: opt_str(self.hero_card_id),
            ended_at: self.ended_at,
        }
    }
}

impl Match {
    /// The instant the match ended, given the session folder's own start.
    ///
    /// Log lines carry a time of day and no date: a time earlier than the
    /// session start means the session crossed midnight, and the day rolls
    /// over.
    pub fn played_at(&self, session_start: Stamp) -> (r: Stamp)
        requires
            session_start.day < i32::MAX,
        ensures
            r == (if stamp_lt(Stamp { day: session_start.day, clock: self.ended_at }, session_start) {
                Stamp { day: (session_start.day + 1) as i32, clock: self.ended_at }
            } else {
                Stamp { day: session_start.day, clock: self.ended_at }
            }),
    {
        let c = self.ended_at;
        let s = session_start.clock;
        let earlier = c.secs < s.secs || (c.secs == s.secs && c.nanos < s.nanos);
        if earlier {
            Stamp { day: session_start.day + 1, clock: c }
        } else {
            Stamp { day: session_start.day, clock: c }
        }
    }
}

/// The state of a match still being played: a mode and two numbers, and no
/// field a name could ever land in.
#[derive(Debug, Clone, PartialEq)]
pub struct Live {
    pub mode: String,
    /// The turn being played.
    pub turn: i64,
    pub placement: Option<i64>,
}

/// The live state, as text.
pub struct LiveView {
    pub mode: Seq<char>,
    pub turn: i64,
    pub placement: Option<i64>,
}

impl View for Live {
    type V = LiveView;

    open spec fn view(&self) -> LiveView {
        LiveView { mode: self.mode@, turn: self.turn, placement: self.placement }
    }
}

/// The reader after one line, and the match that line finished, if any.
/// Only `GameState.` lines count (the game writes every event twice); a
/// `CREATE_GAME` opens a fresh game; a game is reported once, as soon as it
/// is complete.
pub open spec fn push_line(cur: Option<GameView>, line: Seq<char>) -> (Option<GameView>, Option<MatchView>) {
    if !contains(line, "GameState."@) {
        (cur, None)
    } else if contains(line, "CREATE_GAME"@) {
        (Some(fresh_game()), None)
    } else {
        match cur {
            None => (None, None),
            Some(g) => {
                let g1 = read_line(g, line);
                if !g1.emitted {
                    match finish_game(g1) {
                        Some(m) => (Some(GameView { emitted: true, ..g1 }), Some(m)),
                        None => (Some(g1), None),
                    }
                } else {
                    (Some(g1), None)
                }
            },
        }
    }
}

/// The reader after these lines, and the matches they finished, in order.
pub open spec fn push_lines(cur: Option<GameView>, lines: Seq<Seq<char>>) -> (Option<GameView>, Seq<MatchView>)
    decreases lines.len(),
{
    if lines.len() == 0 {
        (cur, seq![])
    } else {
        let p = push_lines(cur, lines.drop_last());
        let q = push_line(p.0, lines.last());
        (q.0, match q.1 {
            Some(m) => p.1.push(m),
            None => p.1,
        })
    }
}

/// What the live card shows: nothing once the game is reported, nor before
/// its mode and a turn are known; a placement in Battlegrounds only.
pub open spec fn spec_live(cur: Option<GameView>) -> Option<LiveView> {
    match cur {
        None => None,
        Some(g) => if g.emitted || g.mode is None || g.turns is None {
            None
        } else {
            Some(LiveView {
                mode: g.mode->0,
                turn: g.turns->0,
                placement: if g.mode->0 == "battlegrounds"@ {
                    reported_placement(g)
                } else {
                    None
                },
            })
        },
    }
}

/// The lines as text.
pub open spec fn texts_of(lines: Seq<&str>) -> Seq<Seq<char>> {
    lines.map_values(|l: &str| l@)
}

/// The matches as text.
pub open spec fn matches_view(ms: Seq<Match>) -> Seq<MatchView> {
    ms.map_values(|m: Match| m@)
}

/// Reads lines as they arrive, emitting each match the moment it ends. The
/// state carries over from one batch of lines to the next, since a match
/// spans many.
pub struct Parser {
    cur: Option<Game>,
}

impl View for Parser {
    type V = Option<GameView>;

    closed spec fn view(&self) -> Option<GameView> {
        match self.cur {
            Some(g) => Some(g@),
            None => None,
        }
    }
}

impl Parser {
    /// No game opened yet.
    pub fn new() -> (p: Self)
        ensures
            p@ is None,
    {
        Parser { cur: None }
    }

    /// The matches that finished within these lines. Unfinished games are
    /// not reported.
    pub fn push(&mut self, lines: &[&str]) -> (r: Vec<Match>)
        ensures
            (final(self)@, matches_view(r@)) == push_lines(old(self)@, texts_of(lines@)),
    {
        let ghost start = self@;
        let ghost ls = texts_of(lines@);
        let mut out: Vec<Match> = Vec::new();
        let mut i: usize = 0;
        proof {
            assert(ls.take(0) =~= seq![]);
            assert(matches_view(out@) =~= seq![]);
        }
        while i < lines.len()
            invariant
                i <= lines@.len(),
                ls == texts_of(lines@),
                (self@, matches_view(out@)) == push_lines(start, ls.take(i as int)),
            decreases lines@.len() - i,
        {
            let line = chars_of(lines[i]);
            proof {
                assert(ls.take(i + 1).drop_last() =~= ls.take(i as int));
                assert(ls[i as int] == line@);
            }
            let ghost before = matches_view(out@);
            if !contains_chars(line.as_slice(), chars_of("GameState.").as_slice()) {
            } else if contains_chars(line.as_slice(), chars_of("CREATE_GAME").as_slice()) {
                self.cur = Some(Game::new());
            } else {
                match &mut self.cur {
                    None => {},
                    Some(g) => {
                        g.read(line.as_slice());
                        if !g.emitted {
                            match g.finish() {
                                Some(m) => {
                                    g.emitted = true;
                                    out.push(m);
                                    proof {
                                        assert(matches_view(out@) =~= before.push(m@));
                                    }
                                },
                                None => {},
                            }
                        }
                    },
                }
            }
            i = i + 1;
        }
        proof {
            assert(ls.take(ls.len() as int) =~= ls);
        }
        out
    }

    /// The match being played right now, if there is one.
    pub fn live(&self) -> (r: Option<Live>)
        ensures
            match r {
                Some(l) => spec_live(self@) == Some(l@),
                None => spec_live(self@) is None,
            },
    {
        let g = match &self.cur {
            Some(g) => g,
            None => {
                return None;
            },
        };
        if g.emitted {
            return None;
        }
        let mode = match &g.mode {
            Some(m) => m,
            None => {
                return None;
            },
        };
        let turn = match g.turns {
            Some(t) => t,
            None => {
                return None;
            },
        };
        let placement = if chars_eq(mode.as_slice(), chars_of("battlegrounds").as_slice()) {
            g.reported_placement()
        } else {
            None
        };
        Some(Live { mode: string_of(mode.as_slice()), turn, placement })
    }
}

/// Every finished match in the given lines, read in one go.
pub fn parse_games(lines: &[&str]) -> (r: Vec<Match>)
    ensures
        matches_view(r@) == push_lines(None, texts_of(lines@)).1,
{
    let mut p = Parser::new();
    p.push(lines)
}

// ---------------------------------------------------------------------------
// Laws

/// Only the game's `GameState.` lines are read: the `PowerTaskList` copy of
/// every event changes nothing, so a doubled stream is read once.
pub proof fn law_only_game_state_lines_count(cur: Option<GameView>, line: Seq<char>)
    requires
        !contains(line, "GameState."@),
    ensures
        push_line(cur, line) == (cur, None::<MatchView>),
{
}

/// A game is reported once: after its match has been emitted, no line but a
/// new game's opening emits anything, and a new game starts afresh.
pub proof fn law_a_game_is_reported_once(g: GameView, line: Seq<char>)
    requires
        g.emitted,
    ensures
        push_line(Some(g), line).1 is None,
        push_line(Some(g), line).0 matches Some(h) ==> h.emitted || h == fresh_game(),
{
}

/// A reported match always has the result the member's own entity gave,
/// and its mode and end time: a game closed mid-match is never reported.
pub proof fn law_only_finished_games_are_reported(g: GameView)
    requires
        finish_game(g) is Some,
    ensures
        g.result is Some && g.mode is Some && g.ended_at is Some,
        finish_game(g)->0.result == g.result->0,
{
}

/// Winning a Battlegrounds lobby is first place, whatever the leaderboard
/// last said; otherwise the last place read stands.
pub proof fn law_a_battlegrounds_win_is_first_place(g: GameView)
    ensures
        g.mode == Some("battlegrounds"@) && g.result == Some("win"@) ==> reported_placement(g) == Some(1i64),
        !(g.mode == Some("battlegrounds"@) && g.result == Some("win"@)) ==> reported_placement(g) == g.placement,
{
}

/// The live card shows no placement outside Battlegrounds, nothing once the
/// match is reported, and nothing before a turn is known.
pub proof fn law_the_live_card_is_conservative(g: GameView)
    ensures
        g.emitted ==> spec_live(Some(g)) is None,
        g.turns is None ==> spec_live(Some(g)) is None,
        spec_live(Some(g)) is Some && spec_live(Some(g))->0.mode != "battlegrounds"@ ==> spec_live(Some(g))->0.placement is None,
        spec_live(Some(g)) is Some && g.mode == Some("battlegrounds"@) && g.result == Some("win"@) ==> spec_live(
            Some(g),
        )->0.placement == Some(1i64),
{
}

/// Within a game the turn shown never goes back: a line that does not open
/// a new game keeps the largest turn read so far, or a larger one.
pub proof fn law_the_turn_never_goes_back(g: GameView, line: Seq<char>)
    requires
        !contains(line, "CREATE_GAME"@),
        g.turns is Some,
    ensures
        push_line(Some(g), line).0 matches Some(h) && h.turns matches Some(u) && u >= g.turns->0,
{
    let g0 = read_mode_and_cards(read_player(g, line), line);
    assert(g0.turns == g.turns);
    match g0.my_name {
        None => {},
        Some(me) => {
            let g2 = if contains(line, "Entity="@ + me + " "@) {
                read_mine(g0, line)
            } else {
                g0
            };
            assert(g2.turns matches Some(u) && u >= g.turns->0);
            assert(read_place(g2, line).turns == g2.turns);
        },
    }
}

/// The same over any run of lines that opens no new game.
pub proof fn law_the_turn_never_goes_back_over_lines(g: GameView, lines: Seq<Seq<char>>)
    requires
        forall|i: int| 0 <= i < lines.len() ==> !contains(#[trigger] lines[i], "CREATE_GAME"@),
        g.turns is Some,
    ensures
        push_lines(Some(g), lines).0 matches Some(h) && h.turns matches Some(u) && u >= g.turns->0,
    decreases lines.len(),
{
    if lines.len() > 0 {
        let rest = lines.drop_last();
        assert forall|i: int| 0 <= i < rest.len() implies !contains(#[trigger] rest[i], "CREATE_GAME"@) by {
            assert(rest[i] == lines[i]);
        }
        law_the_turn_never_goes_back_over_lines(g, rest);
        let h = push_lines(Some(g), rest).0->0;
        assert(!contains(lines[lines.len() - 1], "CREATE_GAME"@));
        if contains(lines.last(), "GameState."@) {
            law_the_turn_never_goes_back(h, lines.last());
        }
    }
}

/// The live card does not depend on how the lines were cut into batches:
/// after several pushes it is the card of all their lines read at once.
pub proof fn law_the_live_card_ignores_batches(cur: Option<GameView>, a: Seq<Seq<char>>, b: Seq<Seq<char>>)
    ensures
        spec_live(push_lines(push_lines(cur, a).0, b).0) == spec_live(push_lines(cur, a + b).0),
{
    law_batches_do_not_matter(cur, a, b);
}

/// Reading lines in two batches is reading them in one: the reader carries
/// its state across calls, so a match split between two batches is found.
pub proof fn law_batches_do_not_matter(cur: Option<GameView>, a: Seq<Seq<char>>, b: Seq<Seq<char>>)
    ensures
        ({
            let first = push_lines(cur, a);
            let second = push_lines(first.0, b);
            let once = push_lines(cur, a + b);
            second.0 == once.0 && first.1 + second.1 == once.1
        }),
    decreases b.len(),
{
    if b.len() == 0 {
        assert(a + b =~= a);
        assert(push_lines(cur, a).1 + seq![] =~= push_lines(cur, a).1);
    } else {
        law_batches_do_not_matter(cur, a, b.drop_last());
        assert((a + b).drop_last() =~= a + b.drop_last());
        assert((a + b).last() == b.last());
        let first = push_lines(cur, a);
        let mid = push_lines(first.0, b.drop_last());
        let q = push_line(mid.0, b.last());
        match q.1 {
            Some(m) => {
                assert(first.1 + mid.1.push(m) =~= (first.1 + mid.1).push(m));
            },
            None => {},
        }
    }
}


/// A mode this reader can give: one of two fixed words.
pub open spec fn is_known_mode(m: Seq<char>) -> bool {
    m == "battlegrounds"@ || m == "constructed"@
}

/// A result this reader can give: one of three fixed words.
pub open spec fn is_known_result(r: Seq<char>) -> bool {
    r == "win"@ || r == "loss"@ || r == "draw"@
}

/// The game read so far holds only fixed words for its mode and result.
pub open spec fn reader_words_known(cur: Option<GameView>) -> bool {
    cur matches Some(g) ==> ((g.mode matches Some(m) ==> is_known_mode(m)) && (g.result matches Some(r)
        ==> is_known_result(r)))
}

proof fn lemma_push_line_keeps_words(cur: Option<GameView>, line: Seq<char>)
    requires
        reader_words_known(cur),
    ensures
        reader_words_known(push_line(cur, line).0),
        push_line(cur, line).1 matches Some(m) ==> is_known_mode(m.mode) && is_known_result(m.result),
{
    if contains(line, "GameState."@) && !contains(line, "CREATE_GAME"@) {
        if let Some(g) = cur {
            let g0 = read_player(g, line);
            let g1 = read_mode_and_cards(g0, line);
            assert(reader_words_known(Some(g1)));
            let g2 = match g1.my_name {
                None => g1,
                Some(me) => {
                    let a = if contains(line, "Entity="@ + me + " "@) {
                        read_mine(g1, line)
                    } else {
                        g1
                    };
                    read_place(a, line)
                },
            };
            assert(read_line(g, line) == g2);
            assert(reader_words_known(Some(g2)));
        }
    }
}

/// What leaves the reader names nobody: whatever the log holds, a match's
/// mode and result, and the live card's mode, are fixed words.
pub proof fn law_only_fixed_words_leave_the_reader(cur: Option<GameView>, lines: Seq<Seq<char>>)
    requires
        reader_words_known(cur),
    ensures
        reader_words_known(push_lines(cur, lines).0),
        forall|i: int|
            0 <= i < push_lines(cur, lines).1.len() ==> is_known_mode(#[trigger] push_lines(cur, lines).1[i].mode)
                && is_known_result(push_lines(cur, lines).1[i].result),
        spec_live(push_lines(cur, lines).0) matches Some(l) ==> is_known_mode(l.mode),
    decreases lines.len(),
{
    if lines.len() > 0 {
        law_only_fixed_words_leave_the_reader(cur, lines.drop_last());
        let p = push_lines(cur, lines.drop_last());
        lemma_push_line_keeps_words(p.0, lines.last());
    }
}

/// The reader after these batches of lines, each handed to one `push`.
pub open spec fn push_batches(cur: Option<GameView>, batches: Seq<Seq<Seq<char>>>) -> Option<GameView>
    decreases batches.len(),
{
    if batches.len() == 0 {
        cur
    } else {
        push_lines(push_batches(cur, batches.drop_last()), batches.last()).0
    }
}

/// `Parser::live` after any run of `push` calls is the card of all their
/// lines read at once, in order: how the lines were cut into batches
/// changes nothing.
pub proof fn law_live_after_any_run_of_pushes(cur: Option<GameView>, batches: Seq<Seq<Seq<char>>>)
    ensures
        push_batches(cur, batches) == push_lines(cur, batches.flatten()).0,
        spec_live(push_batches(cur, batches)) == spec_live(push_lines(cur, batches.flatten()).0),
    decreases batches.len(),
{
    batches.lemma_flatten_and_flatten_alt_are_equivalent();
    if batches.len() == 0 {
    } else {
        let rest = batches.drop_last();
        law_live_after_any_run_of_pushes(cur, rest);
        rest.lemma_flatten_and_flatten_alt_are_equivalent();
        law_batches_do_not_matter(cur, rest.flatten(), batches.last());
    }
}

/// The member's turn a line gives, read against the game as it stands:
/// on a game line that opens no new game, once the member's name is known,
/// the `TURN` value of a line about his own entity.
pub open spec fn member_turn(g: GameView, line: Seq<char>) -> Option<int> {
    let g0 = read_mode_and_cards(read_player(g, line), line);
    if !contains(line, "GameState."@) || contains(line, "CREATE_GAME"@) {
        None
    } else {
        match g0.my_name {
            None => None,
            Some(me) => if contains(line, "Entity="@ + me + " "@) {
                match field(line, "tag=TURN value="@) {
                    Some(v) => parse_i64_spec(v),
                    None => None,
                }
            } else {
                None
            },
        }
    }
}

proof fn lemma_turn_after_line(h: GameView, line: Seq<char>)
    requires
        !contains(line, "CREATE_GAME"@),
    ensures
        push_line(Some(h), line).0 matches Some(h2) && h2.turns == match member_turn(h, line) {
            Some(t) => {
                let before: int = match h.turns {
                    Some(x) => x as int,
                    None => 0,
                };
                Some(if before >= t { before as i64 } else { t as i64 })
            },
            None => h.turns,
        },
{
    if contains(line, "GameState."@) {
        let g0 = read_mode_and_cards(read_player(h, line), line);
        assert(g0.turns == h.turns);
        match g0.my_name {
            None => {},
            Some(me) => {
                let g2 = if contains(line, "Entity="@ + me + " "@) {
                    read_mine(g0, line)
                } else {
                    g0
                };
                assert(read_place(g2, line).turns == g2.turns);
            },
        }
    }
}

/// Within a game, the turn `Parser::live` shows is the largest member turn
/// read since the game opened: at least every one of them, and one of them,
/// or the turn the game had, or `0` when every turn read was below zero.
pub proof fn law_the_turn_shown_is_the_largest_read(g: GameView, lines: Seq<Seq<char>>)
    requires
        forall|i: int| 0 <= i < lines.len() ==> !contains(#[trigger] lines[i], "CREATE_GAME"@),
    ensures
        push_lines(Some(g), lines).0 is Some,
        forall|i: int|
            0 <= i < lines.len() ==> (#[trigger] member_turn(push_lines(Some(g), lines.take(i)).0->0, lines[i]) matches Some(t)
                ==> push_lines(Some(g), lines).0->0.turns matches Some(u) && u >= t),
        g.turns matches Some(t0) ==> push_lines(Some(g), lines).0->0.turns matches Some(u) && u >= t0,
        push_lines(Some(g), lines).0->0.turns matches Some(u) ==> g.turns == Some(u) || u == 0 || exists|i: int|
            0 <= i < lines.len() && #[trigger] member_turn(push_lines(Some(g), lines.take(i)).0->0, lines[i]) == Some(u as int),
    decreases lines.len(),
{
    if lines.len() == 0 {
    } else {
        let n = lines.len() - 1;
        let rest = lines.drop_last();
        assert forall|i: int| 0 <= i < rest.len() implies !contains(#[trigger] rest[i], "CREATE_GAME"@) by {
            assert(rest[i] == lines[i]);
        }
        law_the_turn_shown_is_the_largest_read(g, rest);
        let hr = push_lines(Some(g), rest).0->0;
        let line = lines[n];
        assert(lines.last() == line);
        assert(!contains(line, "CREATE_GAME"@));
        lemma_turn_after_line(hr, line);
        assert(lines.take(n) =~= rest);
        let h = push_lines(Some(g), lines).0->0;
        assert(push_lines(Some(g), lines).0 == push_line(Some(hr), line).0);
        assert forall|i: int| 0 <= i < n implies lines.take(i) == rest.take(i) && lines[i] == rest[i] by {
            assert(lines.take(i) =~= rest.take(i));
        }
        assert forall|i: int|
            0 <= i < lines.len() && (#[trigger] member_turn(push_lines(Some(g), lines.take(i)).0->0, lines[i])) is Some
            implies h.turns is Some && h.turns->0 >= member_turn(push_lines(Some(g), lines.take(i)).0->0, lines[i])->0 by {
            if i < n {
                assert(lines.take(i) == rest.take(i) && lines[i] == rest[i]);
                assert(member_turn(push_lines(Some(g), rest.take(i)).0->0, rest[i]) is Some);
            }
        }
        if let Some(u) = h.turns {
            if !(g.turns == Some(u) || u == 0) {
                if let Some(t) = member_turn(hr, line) {
                    let before: int = match hr.turns {
                        Some(x) => x as int,
                        None => 0,
                    };
                    if before >= t {
                        assert(hr.turns == Some(u));
                        let i = choose|i: int|
                            0 <= i < rest.len() && #[trigger] member_turn(push_lines(Some(g), rest.take(i)).0->0, rest[i]) == Some(u as int);
                        assert(lines.take(i) == rest.take(i) && lines[i] == rest[i]);
                        assert(member_turn(push_lines(Some(g), lines.take(i)).0->0, lines[i]) == Some(u as int));
                    } else {
                        assert(member_turn(push_lines(Some(g), lines.take(n)).0->0, lines[n]) == Some(u as int));
                    }
                } else {
                    let i = choose|i: int|
                        0 <= i < rest.len() && #[trigger] member_turn(push_lines(Some(g), rest.take(i)).0->0, rest[i]) == Some(u as int);
                    assert(lines.take(i) == rest.take(i) && lines[i] == rest[i]);
                    assert(member_turn(push_lines(Some(g), lines.take(i)).0->0, lines[i]) == Some(u as int));
                }
            }
        }
    }
}

/// `Parser::live` shows nothing while no game has been opened: lines read
/// before any `CREATE_GAME` game line leave the reader with no game.
pub proof fn law_no_card_before_a_game_opens(lines: Seq<Seq<char>>)
    requires
        forall|i: int| 0 <= i < lines.len() ==> !(contains(#[trigger] lines[i], "GameState."@) && contains(lines[i], "CREATE_GAME"@)),
    ensures
        push_lines(None, lines).0 is None,
        spec_live(push_lines(None, lines).0) is None,
    decreases lines.len(),
{
    if lines.len() > 0 {
        let rest = lines.drop_last();
        assert forall|i: int| 0 <= i < rest.len() implies !(contains(#[trigger] rest[i], "GameState."@) && contains(rest[i], "CREATE_GAME"@)) by {
            assert(rest[i] == lines[i]);
        }
        law_no_card_before_a_game_opens(rest);
        assert(lines[lines.len() - 1] == lines.last());
    }
}

} // verus!
