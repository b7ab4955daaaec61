//! Reading a Rocket League match, in pure functions.
//!
//! The full scoresheet, which carries every player's name, lives here and goes
//! no further. This module uses it to compute, and lets out facts about the
//! member, plus the other players' numbers without their names.
use vstd::prelude::*;
use sha2::Digest;
use vstd::utf8::encode_utf8;
use crate::order::{
    leq_of, lemma_insert_multiset, lemma_sorted_insert, lemma_sorted_perm_is_sort, lemma_text_lt_asymmetric,
    lemma_text_lt_irreflexive, lemma_text_lt_total, lemma_text_lt_transitive, lemma_text_order, sorted_perm,
    strict_order_on, strictly_sorted, text_less, text_lt, text_order,
};
use crate::text::{append_chars, chars_eq, chars_eq_ignore_ascii_case, chars_of, eq_ignore_ascii_case, int_text, push_int_text, slice_to_vec, string_of, push_char, trim, trimmed};

verus! {

broadcast use vstd::seq_lib::group_to_multiset_ensures;

// ---------------------------------------------------------------------------
// The match key

/// The SHA-256 digest of these bytes, as `sha2` computes it.
pub uninterp spec fn sha256(data: Seq<u8>) -> Seq<u8>;

/// `sha2::Sha256::digest`: the digest of these bytes, 32 bytes long.
#[verifier::external_body]
fn sha256_of(data: &[u8]) -> (r: Vec<u8>)
    ensures
        r@ == sha256(data@),
        r@.len() == 32,
{
    sha2::Sha256::digest(data).to_vec()
}

/// The lowercase hexadecimal digit of a number below 16.
pub open spec fn hex_digit(n: u8) -> char {
    if n < 10 {
        (n + 48) as char
    } else {
        (n + 87) as char
    }
}

/// Bytes in lowercase hexadecimal, two digits each, high half first.
pub open spec fn lower_hex(bs: Seq<u8>) -> Seq<char>
    decreases bs.len(),
{
    if bs.len() == 0 {
        seq![]
    } else {
        lower_hex(bs.drop_last()) + seq![hex_digit(bs.last() / 16), hex_digit(bs.last() % 16)]
    }
}

fn hex_char(n: u8) -> (c: char)
    requires
        n < 16,
    ensures
        c == hex_digit(n),
{
    if n < 10 {
        (n + 48) as char
    } else {
        (n + 87) as char
    }
}

/// Writes a digest in lowercase hexadecimal.
pub fn hex_of(digest: &[u8]) -> (r: String)
    ensures
        r@ == lower_hex(digest@),
{
    let mut out = String::new();
    let mut i: usize = 0;
    proof {
        assert(digest@.take(0) =~= seq![]);
    }
    while i < digest.len()
        invariant
            i <= digest@.len(),
            out@ == lower_hex(digest@.take(i as int)),
        decreases digest@.len() - i,
    {
        let b = digest[i];
        proof {
            assert(digest@.take(i + 1).drop_last() =~= digest@.take(i as int));
        }
        push_char(&mut out, hex_char(b / 16));
        push_char(&mut out, hex_char(b % 16));
        proof {
            assert(out@ =~= lower_hex(digest@.take(i + 1)));
        }
        i = i + 1;
    }
    proof {
        assert(digest@.take(digest@.len() as int) =~= digest@);
    }
    out
}

/// The key a match is known by outside this machine.
pub open spec fn spec_match_key(guid: Seq<char>) -> Seq<char> {
    lower_hex(sha256(encode_utf8(guid)))
}

/// The match's identifier as it leaves this machine: the SHA-256 of the
/// game's `MatchGuid`, in lowercase hex.
pub fn match_key(guid: &str) -> (k: String)
    ensures
        k@ == spec_match_key(guid@),
        k@.len() == 64,
        forall|i: int| 0 <= i < k@.len() ==> is_lower_hex(#[trigger] k@[i]),
{
    let d = sha256_of(guid.as_bytes());
    proof {
        law_lower_hex_shape(d@);
    }
    hex_of(d.as_slice())
}

/// A lowercase hexadecimal digit.
pub open spec fn is_lower_hex(c: char) -> bool {
    ('0' <= c && c <= '9') || ('a' <= c && c <= 'f')
}

/// Bytes in lowercase hexadecimal take two digits each, every one of them
/// `0`-`9` or `a`-`f`.
pub proof fn law_lower_hex_shape(bs: Seq<u8>)
    ensures
        lower_hex(bs).len() == 2 * bs.len(),
        forall|i: int| 0 <= i < lower_hex(bs).len() ==> is_lower_hex(#[trigger] lower_hex(bs)[i]),
    decreases bs.len(),
{
    if bs.len() > 0 {
        law_lower_hex_shape(bs.drop_last());
        let prev = lower_hex(bs.drop_last());
        let b = bs.last();
        assert(b / 16 < 16 && b % 16 < 16);
        assert forall|n: u8| n < 16 implies is_lower_hex(#[trigger] hex_digit(n)) by {
            if n < 10 {
                assert(('0' as u32) <= ((n + 48) as char) as u32);
            }
        }
        assert forall|i: int| 0 <= i < lower_hex(bs).len() implies is_lower_hex(#[trigger] lower_hex(bs)[i]) by {
            if i < prev.len() {
                assert(lower_hex(bs)[i] == prev[i]);
            } else if i == prev.len() {
                assert(lower_hex(bs)[i] == hex_digit(b / 16));
            } else {
                assert(lower_hex(bs)[i] == hex_digit(b % 16));
            }
        }
    }
}

/// How many distinct player names are kept at most: they serve to write one
/// local log line, and a real match holds eight at most.
pub const MAX_NAMES_SEEN: usize = 32;

/// How many other players a summary carries at most: four against four, minus
/// the member.
pub const MAX_OTHERS: usize = 7;

/// The playlists with no opponent: free play, workshop, training.
pub open spec fn spec_is_training(playlist: i64) -> bool {
    playlist == 0 || playlist == 9 || playlist == 19 || playlist == 21 || playlist == 73
}

/// The ranked playlists, according to the Psyonix catalogue.
pub open spec fn spec_is_ranked(playlist: i64) -> bool {
    playlist == 10 || playlist == 11 || playlist == 13 || playlist == 27 || playlist == 28
        || playlist == 29 || playlist == 30
}

/// Whether this playlist is ranked.
pub fn is_ranked(playlist: i64) -> (b: bool)
    ensures
        b == spec_is_ranked(playlist),
{
    playlist == 10 || playlist == 11 || playlist == 13 || playlist == 27 || playlist == 28
        || playlist == 29 || playlist == 30
}

/// Whether this playlist has no opponent and must never be reported.
pub fn is_training(playlist: i64) -> (b: bool)
    ensures
        b == spec_is_training(playlist),
{
    playlist == 0 || playlist == 9 || playlist == 19 || playlist == 21 || playlist == 73
}

// ---------------------------------------------------------------------------
// What the game sends

/// One entry of `Game.Teams`: the fields read from it, `None` when absent or
/// not an integer.
pub struct TeamLine {
    pub team_num: Option<i64>,
    pub score: Option<i64>,
}

/// `Data.Game`, when it is an object: the fields read from it.
pub struct GameInfo {
    pub playlist: Option<i64>,
    pub time_seconds: Option<i64>,
    /// `bOvertime`, when it is a boolean.
    pub overtime: Option<bool>,
    /// `Teams`, when it is an array.
    pub teams: Option<Vec<TeamLine>>,
}

/// One entry of `Data.Players`: the fields read from it, `None` when absent
/// or of another type.
pub struct PlayerLine {
    pub name: Option<String>,
    pub team_num: Option<i64>,
    pub score: Option<i64>,
    pub goals: Option<i64>,
    pub assists: Option<i64>,
    pub saves: Option<i64>,
    pub shots: Option<i64>,
    pub demos: Option<i64>,
}

/// The `Data` of an `UpdateState`, reduced to what the match reads.
pub struct StateFrame {
    /// `MatchGuid`, when it is a string.
    pub match_guid: Option<String>,
    /// `Game`, when it is an object.
    pub game: Option<GameInfo>,
    /// `Players` at the root of `Data`, when it is an array.
    pub players: Option<Vec<PlayerLine>>,
}

// ---------------------------------------------------------------------------
// What comes out

/// Another player of the match, reduced to numbers.
#[derive(Debug, Clone, Copy, PartialEq)]
pub struct Other {
    pub team: i64,
    pub score: i64,
    pub goals: i64,
    pub assists: i64,
    pub saves: i64,
    pub shots: i64,
    pub demos: i64,
    /// Seen during the match, absent from the latest state: they left.
    pub left: bool,
}

/// The reasons a match is not reported: exactly one of them, the truth it
/// observed.
#[derive(Debug, Clone, Copy, PartialEq, Eq)]
pub enum Refusal {
    /// No `UpdateState` was ever received.
    NeverObserved,
    /// One of the two sides never held a single player.
    NoOpponent,
    /// The game really did send a playlist, and it is a training one.
    TrainingPlaylist(i64),
    /// The observed team size falls outside 1 to 4.
    TeamSizeOutOfRange(i64),
    /// The configured player name matches nobody on the scoresheet.
    MemberNotFound,
    /// The member was found on a team that is neither blue nor orange.
    MemberTeamInvalid(i64),
}

/// What the client's log says of a refusal.
pub open spec fn spec_refusal_message(r: Refusal) -> Seq<char> {
    match r {
        Refusal::NeverObserved => "no update was ever observed"@,
        Refusal::NoOpponent => "no opponent was ever seen on the other team"@,
        Refusal::TrainingPlaylist(p) => "training playlist ("@ + int_text(p as int) + ")"@,
        Refusal::TeamSizeOutOfRange(n) => "team size out of range ("@ + int_text(n as int) + ")"@,
        Refusal::MemberNotFound => "the configured member name matched nobody"@,
        Refusal::MemberTeamInvalid(t) => "the member's team number is invalid ("@ + int_text(t as int) + ")"@,
    }
}

impl Refusal {
    /// What the client's log says of this refusal.
    pub fn message(&self) -> (r: String)
        ensures
            r@ == spec_refusal_message(*self),
    {
        let (head, n): (&str, Option<i64>) = match self {
            Refusal::NeverObserved => ("no update was ever observed", None),
            Refusal::NoOpponent => ("no opponent was ever seen on the other team", None),
            Refusal::TrainingPlaylist(p) => ("training playlist (", Some(*p)),
            Refusal::TeamSizeOutOfRange(n) => ("team size out of range (", Some(*n)),
            Refusal::MemberNotFound => ("the configured member name matched nobody", None),
            Refusal::MemberTeamInvalid(t) => ("the member's team number is invalid (", Some(*t)),
        };
        let mut out = head.to_owned();
        if let Some(v) = n {
            push_int_text(&mut out, v);
            append_chars(&mut out, chars_of(")").as_slice());
        }
        out
    }
}

/// The summary of a finished match: nothing but facts about the member, and
/// the other players' numbers without their names.
#[derive(Debug, Clone, PartialEq)]
pub struct Summary {
    pub playlist: Option<i64>,
    pub team_size: i64,
    pub player_team: i64,
    pub team_blue_score: i64,
    pub team_orange_score: i64,
    pub result: String,
    pub goals: i64,
    pub assists: i64,
    pub saves: i64,
    pub shots: i64,
    pub score: i64,
    pub demos: i64,
    pub mvp: bool,
    pub duration_seconds: i64,
    pub match_key: Option<String>,
    pub others: Vec<Other>,
}

/// A match's current state, for the live feed.
#[derive(Debug, Clone, PartialEq)]
pub struct Live {
    pub team_blue_score: i64,
    pub team_orange_score: i64,
    pub seconds_remaining: i64,
    pub overtime: bool,
    pub goals: i64,
    pub assists: i64,
    pub saves: i64,
    pub shots: i64,
    pub score: i64,
    pub demos: i64,
}

/// One player's statistics, exactly as the game gives them.
#[derive(Debug, Clone, Copy)]
pub struct Stats {
    pub team: i64,
    pub goals: i64,
    pub assists: i64,
    pub saves: i64,
    pub shots: i64,
    pub score: i64,
    pub demos: i64,
}

// ---------------------------------------------------------------------------
// The model of a match being observed

/// What a match being observed holds.
pub struct MatchModel {
    pub member: Seq<char>,
    pub guid: Option<Seq<char>>,
    /// `None` for as long as the game has never sent a playlist.
    pub playlist: Option<i64>,
    pub blue: i64,
    pub orange: i64,
    pub seconds: i64,
    pub overtime: bool,
    /// The largest player count seen on each team.
    pub max_players_blue: i64,
    pub max_players_orange: i64,
    pub mine: Option<Stats>,
    /// The best score seen on each team.
    pub best_blue: i64,
    pub best_orange: i64,
    pub seen: bool,
    /// Every player name met, in the order first met, for the local log.
    pub names_seen: Seq<Seq<char>>,
    /// Every other player's latest line, under their name, in the order
    /// first met.
    pub others: Seq<(Seq<char>, Other)>,
}

/// No name is held twice.
pub open spec fn names_unique(ns: Seq<Seq<char>>) -> bool {
    forall|i: int, j: int| 0 <= i < j < ns.len() ==> ns[i] != ns[j]
}

/// The names under which the other players are kept.
pub open spec fn other_names(os: Seq<(Seq<char>, Other)>) -> Seq<Seq<char>> {
    os.map_values(|e: (Seq<char>, Other)| e.0)
}

/// A match model is well formed: names held once each, within the caps.
pub open spec fn wf(m: MatchModel) -> bool {
    &&& names_unique(m.names_seen)
    &&& m.names_seen.len() <= MAX_NAMES_SEEN
    &&& names_unique(other_names(m.others))
    &&& m.others.len() <= MAX_NAMES_SEEN
}

/// A field read as `i64`, `0` when absent.
pub open spec fn iv(x: Option<i64>) -> i64 {
    match x {
        Some(v) => v,
        None => 0,
    }
}

/// An optional string, as text.
pub open spec fn opt_text(x: Option<String>) -> Option<Seq<char>> {
    match x {
        Some(s) => Some(s@),
        None => None,
    }
}

/// Whether this name from the scoresheet is the member's: the same once
/// trimmed, ignoring ASCII case.
pub open spec fn same_player(name: Option<Seq<char>>, member: Seq<char>) -> bool {
    match name {
        Some(n) => eq_ignore_ascii_case(trim(n), trim(member)),
        None => false,
    }
}

pub open spec fn max_i64(a: i64, b: i64) -> i64 {
    if a >= b {
        a
    } else {
        b
    }
}

/// The model of a match just opened for this member.
pub open spec fn spec_new(member: Seq<char>) -> MatchModel {
    MatchModel {
        member,
        guid: None,
        playlist: None,
        blue: 0,
        orange: 0,
        seconds: 0,
        overtime: false,
        max_players_blue: 0,
        max_players_orange: 0,
        mine: None,
        best_blue: 0,
        best_orange: 0,
        seen: false,
        names_seen: seq![],
        others: seq![],
    }
}

/// The team scores after reading the `Teams` entries: team 0 is blue, team 1
/// orange, any other number is ignored.
pub open spec fn apply_teams(bo: (i64, i64), ts: Seq<TeamLine>) -> (i64, i64)
    decreases ts.len(),
{
    if ts.len() == 0 {
        bo
    } else {
        let p = apply_teams(bo, ts.drop_last());
        let t = ts.last();
        if iv(t.team_num) == 0 {
            (iv(t.score), p.1)
        } else if iv(t.team_num) == 1 {
            (p.0, iv(t.score))
        } else {
            p
        }
    }
}

/// The model after the frame's `MatchGuid`, when it is a non-empty string.
pub open spec fn with_guid(m: MatchModel, f: StateFrame) -> MatchModel {
    match f.match_guid {
        Some(g) => if g@.len() > 0 {
            MatchModel { guid: Some(g@), ..m }
        } else {
            m
        },
        None => m,
    }
}

/// The model after the frame's `Game` object.
pub open spec fn with_game(m: MatchModel, g: GameInfo) -> MatchModel {
    let scores = match g.teams {
        Some(ts) => apply_teams((m.blue, m.orange), ts@),
        None => (m.blue, m.orange),
    };
    MatchModel {
        playlist: if g.playlist is Some {
            g.playlist
        } else {
            m.playlist
        },
        seconds: iv(g.time_seconds),
        overtime: match g.overtime {
            Some(b) => b,
            None => false,
        },
        blue: scores.0,
        orange: scores.1,
        ..m
    }
}

/// What reading a frame's players accumulates.
pub struct Tally {
    pub model: MatchModel,
    pub blue_n: int,
    pub orange_n: int,
    /// The names of the other players present in this frame.
    pub present: Seq<Seq<char>>,
}

/// The position of the entry kept under this name.
pub open spec fn index_of_name(os: Seq<(Seq<char>, Other)>, n: Seq<char>) -> Option<int>
    decreases os.len(),
{
    if os.len() == 0 {
        None
    } else if os.last().0 == n {
        Some(os.len() - 1)
    } else {
        index_of_name(os.drop_last(), n)
    }
}

/// A player's line, as the member's statistics.
pub open spec fn stats_of(p: PlayerLine) -> Stats {
    Stats {
        team: iv(p.team_num),
        goals: iv(p.goals),
        assists: iv(p.assists),
        saves: iv(p.saves),
        shots: iv(p.shots),
        score: iv(p.score),
        demos: iv(p.demos),
    }
}

/// A player's line, as another player's numbers.
pub open spec fn other_of(p: PlayerLine) -> Other {
    Other {
        team: iv(p.team_num),
        score: iv(p.score),
        goals: iv(p.goals),
        assists: iv(p.assists),
        saves: iv(p.saves),
        shots: iv(p.shots),
        demos: iv(p.demos),
        left: false,
    }
}

/// Reading one player of a frame.
///
/// Team 0 counts for blue and team 1 for orange, each keeping its best score.
/// A new name is remembered while fewer than the cap are. The member's line
/// becomes his statistics; any other named line replaces that player's
/// entry, or adds one while fewer than the cap are kept.
pub open spec fn step_player(t: Tally, p: PlayerLine) -> Tally {
    let m = t.model;
    let team = iv(p.team_num);
    let score = iv(p.score);
    let name = opt_text(p.name);
    let names_seen = match name {
        Some(n) => if !m.names_seen.contains(n) && m.names_seen.len() < MAX_NAMES_SEEN {
            m.names_seen.push(n)
        } else {
            m.names_seen
        },
        None => m.names_seen,
    };
    let m1 = MatchModel {
        best_blue: if team == 0 {
            max_i64(m.best_blue, score)
        } else {
            m.best_blue
        },
        best_orange: if team == 1 {
            max_i64(m.best_orange, score)
        } else {
            m.best_orange
        },
        names_seen,
        ..m
    };
    let blue_n = if team == 0 {
        t.blue_n + 1
    } else {
        t.blue_n
    };
    let orange_n = if team == 1 {
        t.orange_n + 1
    } else {
        t.orange_n
    };
    if same_player(name, m.member) {
        Tally { model: MatchModel { mine: Some(stats_of(p)), ..m1 }, blue_n, orange_n, present: t.present }
    } else {
        match name {
            Some(n) => {
                let others = match index_of_name(m.others, n) {
                    Some(k) => m.others.update(k, (n, other_of(p))),
                    None => if m.others.len() < MAX_NAMES_SEEN {
                        m.others.push((n, other_of(p)))
                    } else {
                        m.others
                    },
                };
                Tally { model: MatchModel { others, ..m1 }, blue_n, orange_n, present: t.present.push(n) }
            },
            None => Tally { model: m1, blue_n, orange_n, present: t.present },
        }
    }
}

/// Reading the players of a frame, one after the other.
pub open spec fn tally_players(t: Tally, ps: Seq<PlayerLine>) -> Tally
    decreases ps.len(),
{
    if ps.len() == 0 {
        t
    } else {
        step_player(tally_players(t, ps.drop_last()), ps.last())
    }
}

/// The others, each marked as left when absent from this frame.
pub open spec fn mark_left(os: Seq<(Seq<char>, Other)>, present: Seq<Seq<char>>) -> Seq<(Seq<char>, Other)> {
    os.map_values(|e: (Seq<char>, Other)| (e.0, Other { left: !present.contains(e.0), ..e.1 }))
}

/// The model after an `UpdateState`.
///
/// The GUID and the `Game` object are read first. Without a `Players` array
/// at the root nothing more happens; with one, its players are read, the
/// others absent from it are marked as left, each team's largest roster is
/// kept, and the match counts as observed.
pub open spec fn spec_observe(m: MatchModel, f: StateFrame) -> MatchModel {
    let m1 = with_guid(m, f);
    let m2 = match f.game {
        Some(g) => with_game(m1, g),
        None => m1,
    };
    match f.players {
        None => m2,
        Some(ps) => {
            let t = tally_players(Tally { model: m2, blue_n: 0, orange_n: 0, present: seq![] }, ps@);
            let m3 = t.model;
            MatchModel {
                others: mark_left(m3.others, t.present),
                max_players_blue: if t.blue_n > m3.max_players_blue {
                    t.blue_n as i64
                } else {
                    m3.max_players_blue
                },
                max_players_orange: if t.orange_n > m3.max_players_orange {
                    t.orange_n as i64
                } else {
                    m3.max_players_orange
                },
                seen: true,
                ..m3
            }
        },
    }
}

// ---------------------------------------------------------------------------
// The match

/// A match being observed.
pub struct Match {
    member: Vec<char>,
    guid: Option<String>,
    playlist: Option<i64>,
    blue: i64,
    orange: i64,
    seconds: i64,
    overtime: bool,
    max_players_blue: i64,
    max_players_orange: i64,
    mine: Option<Stats>,
    best_blue: i64,
    best_orange: i64,
    seen: bool,
    names_seen: Vec<Vec<char>>,
    others: Vec<(Vec<char>, Other)>,
}

/// The texts of a vector of character vectors.
pub open spec fn texts(vs: Seq<Vec<char>>) -> Seq<Seq<char>> {
    vs.map_values(|v: Vec<char>| v@)
}

/// The entries of a vector of named lines, as text.
pub open spec fn entries(os: Seq<(Vec<char>, Other)>) -> Seq<(Seq<char>, Other)> {
    os.map_values(|e: (Vec<char>, Other)| (e.0@, e.1))
}

impl View for Match {
    type V = MatchModel;

    closed spec fn view(&self) -> MatchModel {
        MatchModel {
            member: self.member@,
            guid: opt_text(self.guid),
            playlist: self.playlist,
            blue: self.blue,
            orange: self.orange,
            seconds: self.seconds,
            overtime: self.overtime,
            max_players_blue: self.max_players_blue,
            max_players_orange: self.max_players_orange,
            mine: self.mine,
            best_blue: self.best_blue,
            best_orange: self.best_orange,
            seen: self.seen,
            names_seen: texts(self.names_seen@),
            others: entries(self.others@),
        }
    }
}

/// A field read as `i64`, `0` when absent.
fn int_or_zero(x: Option<i64>) -> (r: i64)
    ensures
        r == iv(x),
{
    match x {
        Some(v) => v,
        None => 0,
    }
}

/// Whether the text is among these.
fn holds_name(vs: &Vec<Vec<char>>, n: &[char]) -> (r: bool)
    ensures
        r == texts(vs@).contains(n@),
{
    let mut i: usize = 0;
    while i < vs.len()
        invariant
            i <= vs@.len(),
            forall|k: int| 0 <= k < i ==> vs@[k]@ != n@,
        decreases vs@.len() - i,
    {
        if chars_eq(vs[i].as_slice(), n) {
            proof {
                assert(texts(vs@)[i as int] == n@);
            }
            return true;
        }
        i = i + 1;
    }
    proof {
        if texts(vs@).contains(n@) {
            let k = choose|k: int| 0 <= k < texts(vs@).len() && texts(vs@)[k] == n@;
            assert(vs@[k]@ == n@);
        }
    }
    false
}

proof fn lemma_index_of_name(os: Seq<(Seq<char>, Other)>, n: Seq<char>)
    ensures
        index_of_name(os, n) matches Some(k) ==> 0 <= k < os.len() && os[k].0 == n,
        index_of_name(os, n) is None ==> forall|k: int| 0 <= k < os.len() ==> os[k].0 != n,
    decreases os.len(),
{
    if os.len() > 0 && os.last().0 != n {
        lemma_index_of_name(os.drop_last(), n);
        assert forall|k: int| 0 <= k < os.len() - 1 implies os[k] == os.drop_last()[k] by {}
    }
}

proof fn lemma_index_of_unique(os: Seq<(Seq<char>, Other)>, n: Seq<char>, k: int)
    requires
        names_unique(other_names(os)),
        0 <= k < os.len(),
        os[k].0 == n,
    ensures
        index_of_name(os, n) == Some(k),
    decreases os.len(),
{
    if os.last().0 != n {
        assert(k < os.len() - 1);
        let d = os.drop_last();
        assert(d[k] == os[k]);
        assert forall|i: int, j: int| 0 <= i < j < d.len() implies other_names(d)[i] != other_names(d)[j] by {
            assert(other_names(d)[i] == other_names(os)[i]);
            assert(other_names(d)[j] == other_names(os)[j]);
        }
        lemma_index_of_unique(d, n, k);
    } else {
        assert(other_names(os)[k] == n);
        assert(other_names(os)[os.len() - 1] == n);
    }
}

/// The position of the entry kept under this name.
fn position_of(os: &Vec<(Vec<char>, Other)>, n: &[char]) -> (r: Option<usize>)
    requires
        names_unique(other_names(entries(os@))),
    ensures
        r matches Some(k) ==> index_of_name(entries(os@), n@) == Some(k as int),
        r is None ==> index_of_name(entries(os@), n@) is None,
{
    let mut i: usize = 0;
    while i < os.len()
        invariant
            i <= os@.len(),
            names_unique(other_names(entries(os@))),
            forall|k: int| 0 <= k < i ==> os@[k].0@ != n@,
        decreases os@.len() - i,
    {
        if chars_eq(os[i].0.as_slice(), n) {
            proof {
                assert(entries(os@)[i as int].0 == n@);
                lemma_index_of_unique(entries(os@), n@, i as int);
            }
            return Some(i);
        }
        i = i + 1;
    }
    proof {
        lemma_index_of_name(entries(os@), n@);
        if let Some(k) = index_of_name(entries(os@), n@) {
            assert(entries(os@)[k].0 == os@[k].0@);
        }
    }
    None
}

/// Whether this name from the scoresheet is the member's.
fn is_member(name: &Option<Vec<char>>, member_trimmed: &[char], Ghost(member): Ghost<Seq<char>>) -> (r: bool)
    requires
        member_trimmed@ == trim(member),
    ensures
        r == same_player(
            match name {
                Some(n) => Some(n@),
                None => None,
            },
            member,
        ),
{
    match name {
        Some(n) => {
            let t = trimmed(n.as_slice());
            chars_eq_ignore_ascii_case(t.as_slice(), member_trimmed)
        },
        None => false,
    }
}

// ---------------------------------------------------------------------------
// Sorting names and lines

/// The names in the order of `String`.
fn sorted_texts(ns: &Vec<Vec<char>>) -> (r: Vec<Vec<char>>)
    requires
        names_unique(texts(ns@)),
    ensures
        sorted_perm(texts(r@), texts(ns@), text_order()),
{
    proof {
        lemma_text_order();
    }
    let mut out: Vec<Vec<char>> = Vec::new();
    let mut i: usize = 0;
    proof {
        assert(texts(ns@).take(0) =~= seq![]);
        assert(texts(out@) =~= seq![]);
    }
    while i < ns.len()
        invariant
            i <= ns@.len(),
            strict_order_on(text_order()),
            names_unique(texts(ns@)),
            sorted_perm(texts(out@), texts(ns@).take(i as int), text_order()),
        decreases ns@.len() - i,
    {
        let x = slice_to_vec(ns[i].as_slice());
        let ghost xs = x@;
        let ghost o = texts(out@);
        proof {
            assert(texts(ns@)[i as int] == xs);
            if o.contains(xs) {
                vstd::seq_lib::to_multiset_contains(o, xs);
                vstd::seq_lib::to_multiset_contains(texts(ns@).take(i as int), xs);
                assert(texts(ns@).take(i as int).contains(xs));
                let k = choose|k: int| 0 <= k < i && texts(ns@).take(i as int)[k] == xs;
                assert(texts(ns@)[k] == xs);
            }
        }
        let mut p: usize = 0;
        loop
            invariant
                p <= out@.len(),
                o == texts(out@),
                x@ == xs,
                !o.contains(xs),
                forall|k: int| 0 <= k < p ==> text_lt(o[k], xs),
            ensures
                p <= out@.len(),
                forall|k: int| 0 <= k < p ==> text_lt(o[k], xs),
                p < out@.len() ==> text_lt(xs, o[p as int]),
            decreases out@.len() - p,
        {
            if p >= out.len() {
                break;
            }
            proof {
                assert(o[p as int] == out@[p as int]@);
            }
            if text_less(x.as_slice(), out[p].as_slice()) {
                break;
            }
            proof {
                assert(o[p as int] != xs);
                lemma_text_lt_total(o[p as int], xs);
            }
            p = p + 1;
        }
        proof {
            assert forall|k: int| p <= k < o.len() implies text_lt(xs, o[k]) by {
                if k > p {
                    assert(text_order()(o[p as int], o[k]));
                    lemma_text_lt_transitive(xs, o[p as int], o[k]);
                }
            }
            lemma_sorted_insert(o, p as int, xs, text_order());
            lemma_insert_multiset(o, p as int, xs);
            lemma_insert_multiset(texts(ns@).take(i as int), i as int, xs);
            assert(texts(ns@).take(i as int).insert(i as int, xs) =~= texts(ns@).take(i + 1));
        }
        out.insert(p, x);
        proof {
            assert(texts(out@) =~= o.insert(p as int, xs));
        }
        i = i + 1;
    }
    proof {
        assert(texts(ns@).take(ns@.len() as int) =~= texts(ns@));
    }
    out
}

/// The order in which a summary keeps the other players: those still
/// present first, then by score, best first, then by name; the remaining
/// numbers only break the ties no two real players share.
pub open spec fn present_first(a: (Seq<char>, Other), b: (Seq<char>, Other)) -> bool {
    if a.1.left != b.1.left {
        !a.1.left
    } else if a.1.score != b.1.score {
        a.1.score > b.1.score
    } else if a.0 != b.0 {
        text_lt(a.0, b.0)
    } else {
        tail_lt(a.1, b.1)
    }
}

/// The order in which a summary lists the other players: by team, then by
/// score, best first, those still present first, then by name.
pub open spec fn team_first(a: (Seq<char>, Other), b: (Seq<char>, Other)) -> bool {
    if a.1.team != b.1.team {
        a.1.team < b.1.team
    } else if a.1.score != b.1.score {
        a.1.score > b.1.score
    } else if a.1.left != b.1.left {
        !a.1.left
    } else if a.0 != b.0 {
        text_lt(a.0, b.0)
    } else {
        tail_lt(a.1, b.1)
    }
}

/// Ties on the remaining numbers.
pub open spec fn tail_lt(a: Other, b: Other) -> bool {
    if a.team != b.team {
        a.team < b.team
    } else if a.goals != b.goals {
        a.goals < b.goals
    } else if a.assists != b.assists {
        a.assists < b.assists
    } else if a.saves != b.saves {
        a.saves < b.saves
    } else if a.shots != b.shots {
        a.shots < b.shots
    } else {
        a.demos < b.demos
    }
}

/// One of the two orders on the other players: by team when `team` holds,
/// those present first otherwise.
pub open spec fn entry_order(team: bool) -> spec_fn((Seq<char>, Other), (Seq<char>, Other)) -> bool {
    if team {
        |a: (Seq<char>, Other), b: (Seq<char>, Other)| team_first(a, b)
    } else {
        |a: (Seq<char>, Other), b: (Seq<char>, Other)| present_first(a, b)
    }
}

proof fn lemma_entry_orders()
    ensures
        strict_order_on(entry_order(false)),
        strict_order_on(entry_order(true)),
{
    let l1 = entry_order(false);
    let l2 = entry_order(true);
    assert forall|a: (Seq<char>, Other)| !#[trigger] l1(a, a) && !l2(a, a) by {
        lemma_text_lt_irreflexive(a.0);
    }
    assert forall|a: (Seq<char>, Other), b: (Seq<char>, Other), c: (Seq<char>, Other)| #[trigger] l1(a, b) && #[trigger] l1(b, c) implies l1(a, c) by {
        lemma_text_lt_asymmetric(a.0, b.0);
        lemma_text_lt_asymmetric(b.0, c.0);
        lemma_text_lt_asymmetric(a.0, c.0);
        if text_lt(a.0, b.0) && text_lt(b.0, c.0) {
            lemma_text_lt_transitive(a.0, b.0, c.0);
        }
        lemma_text_lt_irreflexive(a.0);
    }
    assert forall|a: (Seq<char>, Other), b: (Seq<char>, Other), c: (Seq<char>, Other)| #[trigger] l2(a, b) && #[trigger] l2(b, c) implies l2(a, c) by {
        lemma_text_lt_asymmetric(a.0, b.0);
        lemma_text_lt_asymmetric(b.0, c.0);
        lemma_text_lt_asymmetric(a.0, c.0);
        if text_lt(a.0, b.0) && text_lt(b.0, c.0) {
            lemma_text_lt_transitive(a.0, b.0, c.0);
        }
        lemma_text_lt_irreflexive(a.0);
    }
    assert forall|a: (Seq<char>, Other), b: (Seq<char>, Other)| a != b implies #[trigger] l1(a, b) || l1(b, a) by {
        lemma_text_lt_total(a.0, b.0);
    }
    assert forall|a: (Seq<char>, Other), b: (Seq<char>, Other)| a != b implies #[trigger] l2(a, b) || l2(b, a) by {
        lemma_text_lt_total(a.0, b.0);
    }
}

/// No entry is held twice.
pub open spec fn distinct<E>(s: Seq<E>) -> bool {
    forall|i: int, j: int| 0 <= i < j < s.len() ==> s[i] != s[j]
}

fn tail_less(a: &Other, b: &Other) -> (r: bool)
    ensures
        r == tail_lt(*a, *b),
{
    if a.team != b.team {
        a.team < b.team
    } else if a.goals != b.goals {
        a.goals < b.goals
    } else if a.assists != b.assists {
        a.assists < b.assists
    } else if a.saves != b.saves {
        a.saves < b.saves
    } else if a.shots != b.shots {
        a.shots < b.shots
    } else {
        a.demos < b.demos
    }
}

/// Whether the first entry comes before the second in `entry_order(team)`.
fn entry_less(a: &(Vec<char>, Other), b: &(Vec<char>, Other), team: bool) -> (r: bool)
    ensures
        r == entry_order(team)((a.0@, a.1), (b.0@, b.1)),
{
    let x = &a.1;
    let y = &b.1;
    if team && x.team != y.team {
        return x.team < y.team;
    }
    if !team && x.left != y.left {
        return !x.left;
    }
    if x.score != y.score {
        return x.score > y.score;
    }
    if team && x.left != y.left {
        return !x.left;
    }
    if !chars_eq(a.0.as_slice(), b.0.as_slice()) {
        return text_less(a.0.as_slice(), b.0.as_slice());
    }
    tail_less(x, y)
}

/// The entries, sorted by `entry_order(team)`.
fn sort_entries(v: &Vec<(Vec<char>, Other)>, team: bool) -> (r: Vec<(Vec<char>, Other)>)
    requires
        distinct(entries(v@)),
    ensures
        sorted_perm(entries(r@), entries(v@), entry_order(team)),
{
    proof {
        lemma_entry_orders();
    }
    let ghost lt = entry_order(team);
    let mut out: Vec<(Vec<char>, Other)> = Vec::new();
    let mut i: usize = 0;
    proof {
        assert(entries(v@).take(0) =~= seq![]);
        assert(entries(out@) =~= seq![]);
    }
    while i < v.len()
        invariant
            i <= v@.len(),
            strict_order_on(entry_order(team)),
            distinct(entries(v@)),
            sorted_perm(entries(out@), entries(v@).take(i as int), entry_order(team)),
        decreases v@.len() - i,
    {
        let x = (slice_to_vec(v[i].0.as_slice()), v[i].1);
        let ghost xs = (x.0@, x.1);
        let ghost o = entries(out@);
        let ghost pre = entries(v@).take(i as int);
        proof {
            assert(entries(v@)[i as int] == xs);
            if o.contains(xs) {
                vstd::seq_lib::to_multiset_contains(o, xs);
                vstd::seq_lib::to_multiset_contains(pre, xs);
                assert(pre.contains(xs));
                let k = choose|k: int| 0 <= k < i && pre[k] == xs;
                assert(entries(v@)[k] == xs);
            }
        }
        let mut p: usize = 0;
        loop
            invariant
                p <= out@.len(),
                o == entries(out@),
                (x.0@, x.1) == xs,
                !o.contains(xs),
                strict_order_on(entry_order(team)),
                forall|k: int| 0 <= k < p ==> entry_order(team)(o[k], xs),
            ensures
                p <= out@.len(),
                forall|k: int| 0 <= k < p ==> entry_order(team)(o[k], xs),
                p < out@.len() ==> entry_order(team)(xs, o[p as int]),
            decreases out@.len() - p,
        {
            if p >= out.len() {
                break;
            }
            proof {
                assert(o[p as int] == (out@[p as int].0@, out@[p as int].1));
            }
            if entry_less(&x, &out[p], team) {
                break;
            }
            proof {
                assert(o[p as int] != xs);
            }
            p = p + 1;
        }
        proof {
            assert forall|k: int| p <= k < o.len() implies #[trigger] entry_order(team)(xs, o[k]) by {
                if k > p {
                    assert(entry_order(team)(o[p as int], o[k]));
                }
            }
            lemma_sorted_insert(o, p as int, xs, entry_order(team));
            lemma_insert_multiset(o, p as int, xs);
            lemma_insert_multiset(pre, i as int, xs);
            assert(pre.insert(i as int, xs) =~= entries(v@).take(i + 1));
        }
        out.insert(p, x);
        proof {
            assert(entries(out@) =~= o.insert(p as int, xs));
        }
        i = i + 1;
    }
    proof {
        assert(entries(v@).take(v@.len() as int) =~= entries(v@));
    }
    out
}

/// At most the first `n` entries.
pub open spec fn at_most<E>(s: Seq<E>, n: int) -> Seq<E> {
    if s.len() <= n {
        s
    } else {
        s.take(n)
    }
}

/// The other players as a summary carries them: those still present first
/// when there are more than seven, then listed by team and score. Their
/// names stay behind.
pub open spec fn others_for_summary(os: Seq<(Seq<char>, Other)>) -> Seq<Other> {
    let kept = at_most(os.sort_by(leq_of(entry_order(false))), MAX_OTHERS as int);
    kept.sort_by(leq_of(entry_order(true))).map_values(|e: (Seq<char>, Other)| e.1)
}

/// What a summary says.
pub struct SummaryView {
    pub playlist: Option<i64>,
    pub team_size: i64,
    pub player_team: i64,
    pub team_blue_score: i64,
    pub team_orange_score: i64,
    pub result: Seq<char>,
    pub goals: i64,
    pub assists: i64,
    pub saves: i64,
    pub shots: i64,
    pub score: i64,
    pub demos: i64,
    pub mvp: bool,
    pub duration_seconds: i64,
    pub match_key: Option<Seq<char>>,
    pub others: Seq<Other>,
}

impl View for Summary {
    type V = SummaryView;

    open spec fn view(&self) -> SummaryView {
        SummaryView {
            playlist: self.playlist,
            team_size: self.team_size,
            player_team: self.player_team,
            team_blue_score: self.team_blue_score,
            team_orange_score: self.team_orange_score,
            result: self.result@,
            goals: self.goals,
            assists: self.assists,
            saves: self.saves,
            shots: self.shots,
            score: self.score,
            demos: self.demos,
            mvp: self.mvp,
            duration_seconds: self.duration_seconds,
            match_key: opt_text(self.match_key),
            others: self.others@,
        }
    }
}

/// The member's result, from his team's score and the other team's.
pub open spec fn spec_result(mine: i64, theirs: i64) -> Seq<char> {
    if mine > theirs {
        "win"@
    } else if mine < theirs {
        "loss"@
    } else {
        "draw"@
    }
}

/// A duration brought within 0 to 7200 seconds.
pub open spec fn clamp_duration(d: i64) -> i64 {
    if d < 0 {
        0
    } else if d > 7200 {
        7200
    } else {
        d
    }
}

/// The summary of a match, or the first reason in this order not to give
/// one: never observed, no opponent, a training playlist actually sent, a
/// team size outside 1 to 4, the member absent, the member on neither team.
pub open spec fn spec_finish(m: MatchModel, duration: i64) -> Result<SummaryView, Refusal> {
    let team_size = max_i64(m.max_players_blue, m.max_players_orange);
    if !m.seen {
        Err(Refusal::NeverObserved)
    } else if m.max_players_blue == 0 || m.max_players_orange == 0 {
        Err(Refusal::NoOpponent)
    } else if m.playlist is Some && spec_is_training(m.playlist->0) {
        Err(Refusal::TrainingPlaylist(m.playlist->0))
    } else if !(1 <= team_size && team_size <= 4) {
        Err(Refusal::TeamSizeOutOfRange(team_size))
    } else {
        match m.mine {
            None => Err(Refusal::MemberNotFound),
            Some(mine) => if mine.team != 0 && mine.team != 1 {
                Err(Refusal::MemberTeamInvalid(mine.team))
            } else {
                let my_score = if mine.team == 0 { m.blue } else { m.orange };
                let their_score = if mine.team == 0 { m.orange } else { m.blue };
                let best_of_mine = if mine.team == 0 { m.best_blue } else { m.best_orange };
                let key = match m.guid {
                    Some(g) => Some(spec_match_key(g)),
                    None => None,
                };
                Ok(SummaryView {
                    playlist: m.playlist,
                    team_size,
                    player_team: mine.team,
                    team_blue_score: m.blue,
                    team_orange_score: m.orange,
                    result: spec_result(my_score, their_score),
                    goals: mine.goals,
                    assists: mine.assists,
                    saves: mine.saves,
                    shots: mine.shots,
                    score: mine.score,
                    demos: mine.demos,
                    mvp: my_score > their_score && mine.score >= best_of_mine,
                    duration_seconds: clamp_duration(duration),
                    match_key: key,
                    others: if key is Some { others_for_summary(m.others) } else { seq![] },
                })
            },
        }
    }
}

/// The live state of a match: only once the member has been seen in it.
pub open spec fn spec_live(m: MatchModel) -> Option<Live> {
    match m.mine {
        None => None,
        Some(mine) => Some(Live {
            team_blue_score: m.blue,
            team_orange_score: m.orange,
            seconds_remaining: if m.seconds < 0 { 0 } else { m.seconds },
            overtime: m.overtime,
            goals: mine.goals,
            assists: mine.assists,
            saves: mine.saves,
            shots: mine.shots,
            score: mine.score,
            demos: mine.demos,
        }),
    }
}

/// The texts of a vector of strings.
pub open spec fn string_texts(vs: Seq<String>) -> Seq<Seq<char>> {
    vs.map_values(|v: String| v@)
}

impl Match {
    /// Opens the observation of a match for this member.
    pub fn new(member: &str) -> (m: Self)
        ensures
            m@ == spec_new(member@),
            wf(m@),
    {
        let m = Match {
            member: chars_of(member),
            guid: None,
            playlist: None,
            blue: 0,
            orange: 0,
            seconds: 0,
            overtime: false,
            max_players_blue: 0,
            max_players_orange: 0,
            mine: None,
            best_blue: 0,
            best_orange: 0,
            seen: false,
            names_seen: Vec::new(),
            others: Vec::new(),
        };
        proof {
            assert(texts(m.names_seen@) =~= seq![]);
            assert(entries(m.others@) =~= seq![]);
        }
        m
    }

    /// The match's GUID, once it is known.
    pub fn guid(&self) -> (g: Option<String>)
        ensures
            opt_text(g) == self@.guid,
    {
        match &self.guid {
            Some(g) => Some(g.clone()),
            None => None,
        }
    }

    /// Takes an `UpdateState` into account.
    pub fn observe(&mut self, data: &StateFrame)
        requires
            wf(old(self)@),
            data.players matches Some(ps) ==> ps@.len() <= i64::MAX,
        ensures
            wf(final(self)@),
            final(self)@ == spec_observe(old(self)@, *data),
    {
        let ghost m0 = self@;
        if let Some(g) = &data.match_guid {
            if !g.as_str().is_empty() {
                self.guid = Some(g.clone());
            }
        }
        let ghost m1 = self@;
        proof {
            assert(m1 == with_guid(m0, *data));
        }
        if let Some(game) = &data.game {
            if let Some(p) = game.playlist {
                self.playlist = Some(p);
            }
            self.seconds = int_or_zero(game.time_seconds);
            self.overtime = match game.overtime {
                Some(b) => b,
                None => false,
            };
            if let Some(teams) = &game.teams {
                let mut blue = self.blue;
                let mut orange = self.orange;
                let mut i: usize = 0;
                proof {
                    assert(teams@.take(0) =~= seq![]);
                }
                while i < teams.len()
                    invariant
                        i <= teams@.len(),
                        (blue, orange) == apply_teams((m1.blue, m1.orange), teams@.take(i as int)),
                    decreases teams@.len() - i,
                {
                    proof {
                        assert(teams@.take(i + 1).drop_last() =~= teams@.take(i as int));
                    }
                    let t = &teams[i];
                    let team = int_or_zero(t.team_num);
                    if team == 0 {
                        blue = int_or_zero(t.score);
                    } else if team == 1 {
                        orange = int_or_zero(t.score);
                    }
                    i = i + 1;
                }
                proof {
                    assert(teams@.take(teams@.len() as int) =~= teams@);
                }
                self.blue = blue;
                self.orange = orange;
            }
            proof {
                assert(self@ == with_game(m1, *game));
            }
        }
        let ghost m2 = self@;
        let players = match &data.players {
            Some(p) => p,
            None => {
                return;
            },
        };
        let member_trimmed = trimmed(self.member.as_slice());
        let mut blue_n: i64 = 0;
        let mut orange_n: i64 = 0;
        let mut present: Vec<Vec<char>> = Vec::new();
        let ghost t0 = Tally { model: m2, blue_n: 0, orange_n: 0, present: seq![] };
        let mut i: usize = 0;
        proof {
            assert(players@.take(0) =~= seq![]);
            assert(texts(present@) =~= seq![]);
        }
        while i < players.len()
            invariant
                i <= players@.len(),
                players@.len() <= i64::MAX,
                member_trimmed@ == trim(self@.member),
                self@.member == m2.member,
                wf(self@),
                0 <= blue_n <= i,
                0 <= orange_n <= i,
                tally_players(t0, players@.take(i as int)) == (Tally {
                    model: self@,
                    blue_n: blue_n as int,
                    orange_n: orange_n as int,
                    present: texts(present@),
                }),
            decreases players@.len() - i,
        {
            proof {
                assert(players@.take(i + 1).drop_last() =~= players@.take(i as int));
            }
            let ghost before = self@;
            let ghost pres_before = texts(present@);
            let p = &players[i];
            let team = int_or_zero(p.team_num);
            let score = int_or_zero(p.score);
            if team == 0 {
                blue_n = blue_n + 1;
                if score > self.best_blue {
                    self.best_blue = score;
                }
            } else if team == 1 {
                orange_n = orange_n + 1;
                if score > self.best_orange {
                    self.best_orange = score;
                }
            }
            let name: Option<Vec<char>> = match &p.name {
                Some(n) => Some(chars_of(n.as_str())),
                None => None,
            };
            if let Some(n) = &name {
                if !holds_name(&self.names_seen, n.as_slice()) && self.names_seen.len() < MAX_NAMES_SEEN {
                    let ghost ns = self.names_seen@;
                    self.names_seen.push(slice_to_vec(n.as_slice()));
                    proof {
                        assert(texts(self.names_seen@) =~= texts(ns).push(n@));
                        assert forall|a: int, b: int| 0 <= a < b < texts(self.names_seen@).len() implies texts(self.names_seen@)[a] != texts(self.names_seen@)[b] by {
                            if b == ns.len() {
                                assert(texts(ns)[a] == texts(self.names_seen@)[a]);
                            } else {
                                assert(texts(ns)[a] == texts(self.names_seen@)[a]);
                                assert(texts(ns)[b] == texts(self.names_seen@)[b]);
                            }
                        }
                    }
                }
            }
            let ghost m_mid = self@;
            let mine = is_member(&name, member_trimmed.as_slice(), Ghost(self@.member));
            if mine {
                self.mine = Some(
                    Stats {
                        team,
                        goals: int_or_zero(p.goals),
                        assists: int_or_zero(p.assists),
                        saves: int_or_zero(p.saves),
                        shots: int_or_zero(p.shots),
                        score,
                        demos: int_or_zero(p.demos),
                    },
                );
            } else if let Some(n) = name {
                present.push(slice_to_vec(n.as_slice()));
                proof {
                    assert(texts(present@) =~= pres_before.push(n@));
                }
                let line = Other {
                    team,
                    score,
                    goals: int_or_zero(p.goals),
                    assists: int_or_zero(p.assists),
                    saves: int_or_zero(p.saves),
                    shots: int_or_zero(p.shots),
                    demos: int_or_zero(p.demos),
                    left: false,
                };
                let ghost os = self.others@;
                match position_of(&self.others, n.as_slice()) {
                    Some(k) => {
                        proof {
                            lemma_index_of_name(entries(os), n@);
                        }
                        self.others.set(k, (n, line));
                        proof {
                            assert(entries(self.others@) =~= entries(os).update(k as int, (n@, line)));
                            assert(other_names(entries(self.others@)) =~= other_names(entries(os)));
                        }
                    },
                    None => {
                        if self.others.len() < MAX_NAMES_SEEN {
                            self.others.push((n, line));
                            proof {
                                lemma_index_of_name(entries(os), n@);
                                let no = other_names(entries(self.others@));
                                assert(entries(self.others@) =~= entries(os).push((n@, line)));
                                assert forall|a: int, b: int| 0 <= a < b < no.len() implies no[a] != no[b] by {
                                    assert(no[a] == other_names(entries(os))[a]);
                                    if b < os.len() {
                                        assert(no[b] == other_names(entries(os))[b]);
                                    } else {
                                        assert(entries(os)[a].0 != n@);
                                    }
                                }
                            }
                        }
                    },
                }
            }
            proof {
                let pl = players@[i as int];
                assert(*p == pl);
                assert(opt_text(pl.name) == (match name {
                    Some(n) => Some(n@),
                    None => None,
                }));
            }
            i = i + 1;
        }
        proof {
            assert(players@.take(players@.len() as int) =~= players@);
        }
        let ghost t = tally_players(t0, players@);
        let ghost m3 = self@;
        let mut k: usize = 0;
        let ghost os = self.others@;
        while k < self.others.len()
            invariant
                k <= self.others@.len(),
                self.others@.len() == os.len(),
                texts(present@) == t.present,
                t.model == m3,
                entries(os) == m3.others,
                m3.others == entries(os),
                blue_n == t.blue_n,
                orange_n == t.orange_n,
                self@ == (MatchModel { others: entries(self.others@), ..m3 }),
                forall|j: int| k <= j < os.len() ==> self.others@[j] == os[j],
                forall|j: int| 0 <= j < k ==> #[trigger] entries(self.others@)[j] == mark_left(entries(os), t.present)[j],
            decreases os.len() - k,
        {
            let left = !holds_name(&present, self.others[k].0.as_slice());
            let ghost before = self.others@;
            self.others[k].1.left = left;
            proof {
                assert forall|j: int| 0 <= j < k + 1 implies #[trigger] entries(self.others@)[j] == mark_left(entries(os), t.present)[j] by {
                    if j < k {
                        assert(self.others@[j] == before[j]);
                        assert(entries(before)[j] == entries(self.others@)[j]);
                    } else {
                        assert(self.others@[j].0 == os[j].0);
                    }
                }
            }
            k = k + 1;
        }
        proof {
            assert(entries(self.others@) =~= mark_left(entries(os), t.present));
            assert(other_names(entries(self.others@)) =~= other_names(entries(os)));
        }
        if blue_n > self.max_players_blue {
            self.max_players_blue = blue_n;
        }
        if orange_n > self.max_players_orange {
            self.max_players_orange = orange_n;
        }
        self.seen = true;
    }

    /// The names met during the match, in the order of `String`, for the
    /// local log only.
    pub fn names_seen(&self) -> (r: Vec<String>)
        requires
            wf(self@),
        ensures
            string_texts(r@) == self@.names_seen.sort_by(leq_of(text_order())),
    {
        let sorted = sorted_texts(&self.names_seen);
        proof {
            lemma_text_order();
            lemma_sorted_perm_is_sort(texts(sorted@), texts(self.names_seen@), text_order());
        }
        let mut out: Vec<String> = Vec::new();
        let mut i: usize = 0;
        while i < sorted.len()
            invariant
                i <= sorted@.len(),
                string_texts(out@) == texts(sorted@).take(i as int),
            decreases sorted@.len() - i,
        {
            let ghost before = out@;
            out.push(string_of(sorted[i].as_slice()));
            proof {
                assert(texts(sorted@)[i as int] == sorted@[i as int]@);
                assert(string_texts(out@) =~= string_texts(before).push(texts(sorted@)[i as int]));
                assert(string_texts(out@) =~= texts(sorted@).take(i + 1));
            }
            i = i + 1;
        }
        proof {
            assert(texts(sorted@).take(sorted@.len() as int) =~= texts(sorted@));
        }
        out
    }

    /// The other players as the summary carries them.
    fn summary_others(&self) -> (r: Vec<Other>)
        requires
            wf(self@),
        ensures
            r@ == others_for_summary(self@.others),
    {
        let ghost es = entries(self.others@);
        proof {
            lemma_entry_orders();
            assert forall|i: int, j: int| 0 <= i < j < es.len() implies es[i] != es[j] by {
                assert(other_names(es)[i] == es[i].0);
                assert(other_names(es)[j] == es[j].0);
            }
        }
        let mut kept = sort_entries(&self.others, false);
        proof {
            lemma_sorted_perm_is_sort(entries(kept@), es, entry_order(false));
        }
        let ghost all = entries(kept@);
        kept.truncate(MAX_OTHERS);
        proof {
            assert(entries(kept@) =~= at_most(all, MAX_OTHERS as int));
            assert forall|i: int, j: int| 0 <= i < j < entries(kept@).len() implies entries(kept@)[i] != entries(kept@)[j] by {
                assert(entries(kept@)[i] == all[i]);
                assert(entries(kept@)[j] == all[j]);
                assert(entry_order(false)(all[i], all[j]));
            }
        }
        let listed = sort_entries(&kept, true);
        proof {
            lemma_sorted_perm_is_sort(entries(listed@), entries(kept@), entry_order(true));
        }
        let ghost ls = entries(listed@);
        let mut out: Vec<Other> = Vec::new();
        let mut i: usize = 0;
        while i < listed.len()
            invariant
                i <= listed@.len(),
                ls == entries(listed@),
                out@ == ls.take(i as int).map_values(|e: (Seq<char>, Other)| e.1),
            decreases listed@.len() - i,
        {
            out.push(listed[i].1);
            proof {
                assert(ls[i as int].1 == listed@[i as int].1);
                assert(out@ =~= ls.take(i + 1).map_values(|e: (Seq<char>, Other)| e.1));
            }
            i = i + 1;
        }
        proof {
            assert(ls.take(ls.len() as int) =~= ls);
        }
        out
    }

    /// The current state, for the live feed.
    pub fn live(&self) -> (r: Option<Live>)
        ensures
            r == spec_live(self@),
    {
        match &self.mine {
            None => None,
            Some(mine) => Some(
                Live {
                    team_blue_score: self.blue,
                    team_orange_score: self.orange,
                    seconds_remaining: if self.seconds < 0 {
                        0
                    } else {
                        self.seconds
                    },
                    overtime: self.overtime,
                    goals: mine.goals,
                    assists: mine.assists,
                    saves: mine.saves,
                    shots: mine.shots,
                    score: mine.score,
                    demos: mine.demos,
                },
            ),
        }
    }

    /// The summary, if and only if it is complete; otherwise the precise
    /// reason it is not.
    pub fn finish(&self, duration_seconds: i64) -> (r: Result<Summary, Refusal>)
        requires
            wf(self@),
        ensures
            match r {
                Ok(s) => spec_finish(self@, duration_seconds) == Ok::<SummaryView, Refusal>(s@),
                Err(e) => spec_finish(self@, duration_seconds) == Err::<SummaryView, Refusal>(e),
            },
    {
        if !self.seen {
            return Err(Refusal::NeverObserved);
        }
        if self.max_players_blue == 0 || self.max_players_orange == 0 {
            return Err(Refusal::NoOpponent);
        }
        if let Some(p) = self.playlist {
            if is_training(p) {
                return Err(Refusal::TrainingPlaylist(p));
            }
        }
        let team_size = if self.max_players_blue >= self.max_players_orange {
            self.max_players_blue
        } else {
            self.max_players_orange
        };
        if !(1 <= team_size && team_size <= 4) {
            return Err(Refusal::TeamSizeOutOfRange(team_size));
        }
        let mine = match &self.mine {
            Some(m) => m,
            None => {
                return Err(Refusal::MemberNotFound);
            },
        };
        if mine.team != 0 && mine.team != 1 {
            return Err(Refusal::MemberTeamInvalid(mine.team));
        }
        let (my_score, their_score) = if mine.team == 0 {
            (self.blue, self.orange)
        } else {
            (self.orange, self.blue)
        };
        let result = if my_score > their_score {
            "win"
        } else if my_score < their_score {
            "loss"
        } else {
            "draw"
        };
        let best_of_mine = if mine.team == 0 {
            self.best_blue
        } else {
            self.best_orange
        };
        let mvp = my_score > their_score && mine.score >= best_of_mine;
        let match_key: Option<String> = match &self.guid {
            Some(g) => Some(match_key(g.as_str())),
            None => None,
        };
        let others = if match_key.is_some() {
            self.summary_others()
        } else {
            Vec::new()
        };
        let duration = if duration_seconds < 0 {
            0
        } else if duration_seconds > 7200 {
            7200
        } else {
            duration_seconds
        };
        let s = Summary {
            playlist: self.playlist,
            team_size,
            player_team: mine.team,
            team_blue_score: self.blue,
            team_orange_score: self.orange,
            result: result.to_owned(),
            goals: mine.goals,
            assists: mine.assists,
            saves: mine.saves,
            shots: mine.shots,
            score: mine.score,
            demos: mine.demos,
            mvp,
            duration_seconds: duration,
            match_key,
            others,
        };
        proof {
            assert(s@.others =~= spec_finish(self@, duration_seconds)->Ok_0.others);
        }
        Ok(s)
    }
}

// ---------------------------------------------------------------------------
// Laws

/// A summary carries at most seven other players, whatever was observed.
pub proof fn law_summary_others_are_at_most_seven(os: Seq<(Seq<char>, Other)>)
    ensures
        others_for_summary(os).len() <= MAX_OTHERS,
{
    lemma_entry_orders();
    crate::order::lemma_leq_of_total(entry_order(false));
    crate::order::lemma_leq_of_total(entry_order(true));
    let sorted = os.sort_by(leq_of(entry_order(false)));
    os.lemma_sort_by_ensures(leq_of(entry_order(false)));
    let kept = at_most(sorted, MAX_OTHERS as int);
    kept.lemma_sort_by_ensures(leq_of(entry_order(true)));
    assert(kept.len() <= MAX_OTHERS);
    assert(kept.sort_by(leq_of(entry_order(true))).len() == kept.len()) by {
        assert(kept.sort_by(leq_of(entry_order(true))).to_multiset().len() == kept.to_multiset().len());
    }
}

/// What a reported match says holds together: a team size of 1 to 4, the
/// member on team 0 or 1, a duration within two hours, an MVP only on a win,
/// and a result of win, loss or draw by the two teams' scores.
pub proof fn law_a_summary_is_consistent(m: MatchModel, duration: i64)
    requires
        spec_finish(m, duration) is Ok,
    ensures
        ({
            let s = spec_finish(m, duration)->Ok_0;
            &&& 1 <= s.team_size <= 4
            &&& s.player_team == 0 || s.player_team == 1
            &&& 0 <= s.duration_seconds <= 7200
            &&& s.mvp ==> s.result == "win"@
            &&& s.result == "win"@ || s.result == "loss"@ || s.result == "draw"@
            &&& (s.match_key is None ==> s.others.len() == 0)
        }),
{
}

/// A match is refused, never summarised, when nobody ever stood on one of
/// the two sides: free play and training have no opponent.
pub proof fn law_no_opponent_is_never_reported(m: MatchModel, duration: i64)
    requires
        m.seen,
        m.max_players_blue == 0 || m.max_players_orange == 0,
    ensures
        spec_finish(m, duration) == Err::<SummaryView, Refusal>(Refusal::NoOpponent),
{
}

/// A playlist the game never sent is never taken for a training one: with no
/// playlist, the refusals are about the players only.
pub proof fn law_an_absent_playlist_never_refuses(m: MatchModel, duration: i64)
    requires
        m.playlist is None,
    ensures
        !(spec_finish(m, duration) matches Err(Refusal::TrainingPlaylist(_))),
{
}

/// How many of these lines are on team `t`.
pub open spec fn count_team(ps: Seq<PlayerLine>, t: int) -> int
    decreases ps.len(),
{
    if ps.len() == 0 {
        0
    } else {
        count_team(ps.drop_last(), t) + if iv(ps.last().team_num) == t {
            1int
        } else {
            0int
        }
    }
}

/// The statistics of the last of these lines that is the member's.
pub open spec fn last_member_line(ps: Seq<PlayerLine>, member: Seq<char>) -> Option<Stats>
    decreases ps.len(),
{
    if ps.len() == 0 {
        None
    } else if same_player(opt_text(ps.last().name), member) {
        Some(stats_of(ps.last()))
    } else {
        last_member_line(ps.drop_last(), member)
    }
}

/// A match after these frames, in order.
pub open spec fn observe_all(m: MatchModel, frames: Seq<StateFrame>) -> MatchModel
    decreases frames.len(),
{
    if frames.len() == 0 {
        m
    } else {
        spec_observe(observe_all(m, frames.drop_last()), frames.last())
    }
}

/// Whether one of these frames carried a `Players` array.
pub open spec fn some_players(frames: Seq<StateFrame>) -> bool {
    exists|i: int| 0 <= i < frames.len() && (#[trigger] frames[i]).players is Some
}

/// The most players a `Players` array of these frames held on team `t`.
pub open spec fn largest_side(frames: Seq<StateFrame>, t: int) -> int
    decreases frames.len(),
{
    if frames.len() == 0 {
        0
    } else {
        let prev = largest_side(frames.drop_last(), t);
        match frames.last().players {
            Some(ps) => if count_team(ps@, t) > prev {
                count_team(ps@, t)
            } else {
                prev
            },
            None => prev,
        }
    }
}

/// The last playlist these frames really sent, if any.
pub open spec fn playlist_sent(frames: Seq<StateFrame>) -> Option<i64>
    decreases frames.len(),
{
    if frames.len() == 0 {
        None
    } else {
        match frames.last().game {
            Some(g) => if g.playlist is Some {
                g.playlist
            } else {
                playlist_sent(frames.drop_last())
            },
            None => playlist_sent(frames.drop_last()),
        }
    }
}

/// The statistics of the member's last line in these frames, if any.
pub open spec fn member_line(frames: Seq<StateFrame>, member: Seq<char>) -> Option<Stats>
    decreases frames.len(),
{
    if frames.len() == 0 {
        None
    } else {
        match frames.last().players {
            Some(ps) => match last_member_line(ps@, member) {
                Some(st) => Some(st),
                None => member_line(frames.drop_last(), member),
            },
            None => member_line(frames.drop_last(), member),
        }
    }
}

proof fn lemma_count_team(ps: Seq<PlayerLine>, t: int)
    ensures
        0 <= count_team(ps, t) <= ps.len(),
    decreases ps.len(),
{
    if ps.len() > 0 {
        lemma_count_team(ps.drop_last(), t);
    }
}

proof fn lemma_tally(t: Tally, ps: Seq<PlayerLine>)
    ensures
        ({
            let u = tally_players(t, ps);
            &&& u.model.member == t.model.member
            &&& u.model.playlist == t.model.playlist
            &&& u.model.seen == t.model.seen
            &&& u.model.max_players_blue == t.model.max_players_blue
            &&& u.model.max_players_orange == t.model.max_players_orange
            &&& u.blue_n == t.blue_n + count_team(ps, 0)
            &&& u.orange_n == t.orange_n + count_team(ps, 1)
            &&& u.model.mine == match last_member_line(ps, t.model.member) {
                Some(st) => Some(st),
                None => t.model.mine,
            }
        }),
    decreases ps.len(),
{
    if ps.len() > 0 {
        lemma_tally(t, ps.drop_last());
    }
}

proof fn lemma_observe_all(member: Seq<char>, frames: Seq<StateFrame>)
    requires
        forall|i: int| 0 <= i < frames.len() ==> ((#[trigger] frames[i]).players matches Some(ps) ==> ps@.len() <= i64::MAX),
    ensures
        ({
            let m = observe_all(spec_new(member), frames);
            &&& m.member == member
            &&& m.seen == some_players(frames)
            &&& m.max_players_blue == largest_side(frames, 0)
            &&& m.max_players_orange == largest_side(frames, 1)
            &&& m.playlist == playlist_sent(frames)
            &&& m.mine == member_line(frames, member)
            &&& largest_side(frames, 0) >= 0
            &&& largest_side(frames, 1) >= 0
        }),
    decreases frames.len(),
{
    if frames.len() > 0 {
        let rest = frames.drop_last();
        assert forall|i: int| 0 <= i < rest.len() implies ((#[trigger] rest[i]).players matches Some(ps) ==> ps@.len() <= i64::MAX) by {
            assert(rest[i] == frames[i]);
        }
        lemma_observe_all(member, rest);
        let f = frames.last();
        assert(frames[frames.len() - 1] == f);
        let m0 = observe_all(spec_new(member), rest);
        let m1 = with_guid(m0, f);
        let m2 = match f.game {
            Some(g) => with_game(m1, g),
            None => m1,
        };
        match f.players {
            Some(ps) => {
                let t = Tally { model: m2, blue_n: 0, orange_n: 0, present: seq![] };
                lemma_tally(t, ps@);
                lemma_count_team(ps@, 0);
                lemma_count_team(ps@, 1);
                assert(some_players(frames));
            },
            None => {
                if some_players(frames) {
                    let i = choose|i: int| 0 <= i < frames.len() && (#[trigger] frames[i]).players is Some;
                    assert(rest[i] == frames[i]);
                }
                if some_players(rest) {
                    let i = choose|i: int| 0 <= i < rest.len() && (#[trigger] rest[i]).players is Some;
                    assert(rest[i] == frames[i]);
                }
            },
        }
        if f.players is Some && some_players(rest) {
            let i = choose|i: int| 0 <= i < rest.len() && (#[trigger] rest[i]).players is Some;
            assert(rest[i] == frames[i]);
        }
        if some_players(rest) {
            let i = choose|i: int| 0 <= i < rest.len() && (#[trigger] rest[i]).players is Some;
            assert(rest[i] == frames[i]);
        }
    }
}

/// `Match::finish` after `Match::new(member)` and any run of `observe` calls
/// gives the first of these that applies: never observed, when no frame
/// carried a `Players` array; no opponent, when team 0 or team 1 never held a
/// player; a training playlist the game really sent; a largest side outside 1
/// to 4; no line for the member; the member on neither team; and otherwise a
/// summary.
pub proof fn law_finish_gives_the_first_reason_that_applies(member: Seq<char>, frames: Seq<StateFrame>, duration: i64)
    requires
        forall|i: int| 0 <= i < frames.len() ==> ((#[trigger] frames[i]).players matches Some(ps) ==> ps@.len() <= i64::MAX),
    ensures
        ({
            let r = spec_finish(observe_all(spec_new(member), frames), duration);
            let blue = largest_side(frames, 0);
            let orange = largest_side(frames, 1);
            let size = if blue >= orange { blue } else { orange };
            if !some_players(frames) {
                r == Err::<SummaryView, Refusal>(Refusal::NeverObserved)
            } else if blue == 0 || orange == 0 {
                r == Err::<SummaryView, Refusal>(Refusal::NoOpponent)
            } else if playlist_sent(frames) matches Some(p) && spec_is_training(p) {
                r == Err::<SummaryView, Refusal>(Refusal::TrainingPlaylist(playlist_sent(frames)->0))
            } else if !(1 <= size <= 4) {
                r == Err::<SummaryView, Refusal>(Refusal::TeamSizeOutOfRange(size as i64))
            } else {
                match member_line(frames, member) {
                    None => r == Err::<SummaryView, Refusal>(Refusal::MemberNotFound),
                    Some(st) => if st.team != 0 && st.team != 1 {
                        r == Err::<SummaryView, Refusal>(Refusal::MemberTeamInvalid(st.team))
                    } else {
                        r is Ok
                    },
                }
            }
        }),
{
    lemma_observe_all(member, frames);
}

/// The member's last line among these, as the game sent it.
pub open spec fn last_member_raw(ps: Seq<PlayerLine>, member: Seq<char>) -> Option<PlayerLine>
    decreases ps.len(),
{
    if ps.len() == 0 {
        None
    } else if same_player(opt_text(ps.last().name), member) {
        Some(ps.last())
    } else {
        last_member_raw(ps.drop_last(), member)
    }
}

/// The member's last line in these frames, as the game sent it.
pub open spec fn member_raw_line(frames: Seq<StateFrame>, member: Seq<char>) -> Option<PlayerLine>
    decreases frames.len(),
{
    if frames.len() == 0 {
        None
    } else {
        match frames.last().players {
            Some(ps) => match last_member_raw(ps@, member) {
                Some(p) => Some(p),
                None => member_raw_line(frames.drop_last(), member),
            },
            None => member_raw_line(frames.drop_last(), member),
        }
    }
}

/// Line `k` of the `Players` array of frame `i`, when there is one.
pub open spec fn line_at(frames: Seq<StateFrame>, i: int, k: int) -> Option<PlayerLine> {
    if 0 <= i < frames.len() {
        match frames[i].players {
            Some(ps) => if 0 <= k < ps@.len() {
                Some(ps@[k])
            } else {
                None
            },
            None => None,
        }
    } else {
        None
    }
}

proof fn lemma_last_member_raw(ps: Seq<PlayerLine>, member: Seq<char>)
    ensures
        last_member_line(ps, member) == match last_member_raw(ps, member) {
            Some(p) => Some(stats_of(p)),
            None => None,
        },
    decreases ps.len(),
{
    if ps.len() > 0 {
        lemma_last_member_raw(ps.drop_last(), member);
    }
}

proof fn lemma_member_raw_line(frames: Seq<StateFrame>, member: Seq<char>)
    ensures
        member_line(frames, member) == match member_raw_line(frames, member) {
            Some(p) => Some(stats_of(p)),
            None => None,
        },
    decreases frames.len(),
{
    if frames.len() > 0 {
        lemma_member_raw_line(frames.drop_last(), member);
        match frames.last().players {
            Some(ps) => lemma_last_member_raw(ps@, member),
            None => {},
        }
    }
}

proof fn lemma_tally_best(t: Tally, ps: Seq<PlayerLine>)
    ensures
        ({
            let u = tally_players(t, ps).model;
            &&& u.best_blue >= t.model.best_blue
            &&& u.best_orange >= t.model.best_orange
            &&& forall|k: int| 0 <= k < ps.len() && iv((#[trigger] ps[k]).team_num) == 0 ==> iv(ps[k].score) <= u.best_blue
            &&& forall|k: int| 0 <= k < ps.len() && iv((#[trigger] ps[k]).team_num) == 1 ==> iv(ps[k].score) <= u.best_orange
            &&& (u.best_blue == t.model.best_blue || exists|k: int|
                0 <= k < ps.len() && iv((#[trigger] ps[k]).team_num) == 0 && iv(ps[k].score) == u.best_blue)
            &&& (u.best_orange == t.model.best_orange || exists|k: int|
                0 <= k < ps.len() && iv((#[trigger] ps[k]).team_num) == 1 && iv(ps[k].score) == u.best_orange)
        }),
    decreases ps.len(),
{
    if ps.len() > 0 {
        let rest = ps.drop_last();
        lemma_tally_best(t, rest);
        let u0 = tally_players(t, rest).model;
        let u = tally_players(t, ps).model;
        let n = ps.len() - 1;
        assert(ps[n] == ps.last());
        assert forall|k: int| 0 <= k < n implies ps[k] == rest[k] by {}
        if u0.best_blue != t.model.best_blue && u.best_blue == u0.best_blue {
            let k = choose|k: int| 0 <= k < rest.len() && iv((#[trigger] rest[k]).team_num) == 0 && iv(rest[k].score) == u0.best_blue;
            assert(ps[k] == rest[k]);
        }
        if u0.best_orange != t.model.best_orange && u.best_orange == u0.best_orange {
            let k = choose|k: int| 0 <= k < rest.len() && iv((#[trigger] rest[k]).team_num) == 1 && iv(rest[k].score) == u0.best_orange;
            assert(ps[k] == rest[k]);
        }
        assert forall|k: int| 0 <= k < ps.len() && iv((#[trigger] ps[k]).team_num) == 0 implies iv(ps[k].score) <= u.best_blue by {
            if k < n {
                assert(ps[k] == rest[k]);
            }
        }
        assert forall|k: int| 0 <= k < ps.len() && iv((#[trigger] ps[k]).team_num) == 1 implies iv(ps[k].score) <= u.best_orange by {
            if k < n {
                assert(ps[k] == rest[k]);
            }
        }
    }
}

proof fn lemma_observe_all_best(member: Seq<char>, frames: Seq<StateFrame>)
    ensures
        ({
            let m = observe_all(spec_new(member), frames);
            &&& m.best_blue >= 0
            &&& m.best_orange >= 0
            &&& forall|i: int, k: int|
                #[trigger] line_at(frames, i, k) is Some && iv(line_at(frames, i, k)->0.team_num) == 0 ==> iv(line_at(frames, i, k)->0.score) <= m.best_blue
            &&& forall|i: int, k: int|
                #[trigger] line_at(frames, i, k) is Some && iv(line_at(frames, i, k)->0.team_num) == 1 ==> iv(line_at(frames, i, k)->0.score) <= m.best_orange
            &&& (m.best_blue == 0 || exists|i: int, k: int|
                #[trigger] line_at(frames, i, k) is Some && iv(line_at(frames, i, k)->0.team_num) == 0 && iv(line_at(frames, i, k)->0.score) == m.best_blue)
            &&& (m.best_orange == 0 || exists|i: int, k: int|
                #[trigger] line_at(frames, i, k) is Some && iv(line_at(frames, i, k)->0.team_num) == 1 && iv(line_at(frames, i, k)->0.score) == m.best_orange)
        }),
    decreases frames.len(),
{
    if frames.len() > 0 {
        let rest = frames.drop_last();
        lemma_observe_all_best(member, rest);
        let n = frames.len() - 1;
        let f = frames.last();
        assert(frames[n] == f);
        let m0 = observe_all(spec_new(member), rest);
        let m = observe_all(spec_new(member), frames);
        let m1 = with_guid(m0, f);
        let m2 = match f.game {
            Some(g) => with_game(m1, g),
            None => m1,
        };
        assert(m2.best_blue == m0.best_blue && m2.best_orange == m0.best_orange);
        assert forall|i: int, k: int| 0 <= i < n implies #[trigger] line_at(frames, i, k) == line_at(rest, i, k) by {
            assert(frames[i] == rest[i]);
        }
        match f.players {
            Some(ps) => {
                let t = Tally { model: m2, blue_n: 0, orange_n: 0, present: seq![] };
                lemma_tally_best(t, ps@);
                assert forall|k: int| #[trigger] line_at(frames, n, k) == (if 0 <= k < ps@.len() {
                    Some(ps@[k])
                } else {
                    None::<PlayerLine>
                }) by {}
                assert forall|i: int, k: int|
                    #[trigger] line_at(frames, i, k) is Some && iv(line_at(frames, i, k)->0.team_num) == 0 implies iv(line_at(frames, i, k)->0.score) <= m.best_blue by {
                    if i < n {
                        assert(line_at(frames, i, k) == line_at(rest, i, k));
                    } else {
                        assert(line_at(frames, n, k) == Some(ps@[k]));
                    }
                }
                assert forall|i: int, k: int|
                    #[trigger] line_at(frames, i, k) is Some && iv(line_at(frames, i, k)->0.team_num) == 1 implies iv(line_at(frames, i, k)->0.score) <= m.best_orange by {
                    if i < n {
                        assert(line_at(frames, i, k) == line_at(rest, i, k));
                    } else {
                        assert(line_at(frames, n, k) == Some(ps@[k]));
                    }
                }
                if m.best_blue != 0 {
                    if m.best_blue == m0.best_blue {
                        let (i, k) = choose|i: int, k: int|
                            #[trigger] line_at(rest, i, k) is Some && iv(line_at(rest, i, k)->0.team_num) == 0 && iv(line_at(rest, i, k)->0.score) == m0.best_blue;
                        assert(line_at(frames, i, k) == line_at(rest, i, k));
                    } else {
                        let k = choose|k: int| 0 <= k < ps@.len() && iv((#[trigger] ps@[k]).team_num) == 0 && iv(ps@[k].score) == m.best_blue;
                        assert(line_at(frames, n, k) == Some(ps@[k]));
                    }
                }
                if m.best_orange != 0 {
                    if m.best_orange == m0.best_orange {
                        let (i, k) = choose|i: int, k: int|
                            #[trigger] line_at(rest, i, k) is Some && iv(line_at(rest, i, k)->0.team_num) == 1 && iv(line_at(rest, i, k)->0.score) == m0.best_orange;
                        assert(line_at(frames, i, k) == line_at(rest, i, k));
                    } else {
                        let k = choose|k: int| 0 <= k < ps@.len() && iv((#[trigger] ps@[k]).team_num) == 1 && iv(ps@[k].score) == m.best_orange;
                        assert(line_at(frames, n, k) == Some(ps@[k]));
                    }
                }
            },
            None => {
                assert forall|k: int| #[trigger] line_at(frames, n, k) is None by {}
                assert forall|i: int, k: int|
                    #[trigger] line_at(frames, i, k) is Some && iv(line_at(frames, i, k)->0.team_num) == 0 implies iv(line_at(frames, i, k)->0.score) <= m.best_blue by {
                    if i < n {
                        assert(line_at(frames, i, k) == line_at(rest, i, k));
                    }
                }
                assert forall|i: int, k: int|
                    #[trigger] line_at(frames, i, k) is Some && iv(line_at(frames, i, k)->0.team_num) == 1 implies iv(line_at(frames, i, k)->0.score) <= m.best_orange by {
                    if i < n {
                        assert(line_at(frames, i, k) == line_at(rest, i, k));
                    }
                }
                if m.best_blue != 0 {
                    let (i, k) = choose|i: int, k: int|
                        #[trigger] line_at(rest, i, k) is Some && iv(line_at(rest, i, k)->0.team_num) == 0 && iv(line_at(rest, i, k)->0.score) == m0.best_blue;
                    assert(line_at(frames, i, k) == line_at(rest, i, k));
                }
                if m.best_orange != 0 {
                    let (i, k) = choose|i: int, k: int|
                        #[trigger] line_at(rest, i, k) is Some && iv(line_at(rest, i, k)->0.team_num) == 1 && iv(line_at(rest, i, k)->0.score) == m0.best_orange;
                    assert(line_at(frames, i, k) == line_at(rest, i, k));
                }
            },
        }
    }
}

/// `Match::live`, after `Match::new(member)` and any run of `observe` calls,
/// shows the member's statistics exactly as the last line the game sent
/// for him gives them (goals, assists, saves, shots, score, demos), and
/// nothing before the game has sent one.
pub proof fn law_live_shows_the_members_last_line(member: Seq<char>, frames: Seq<StateFrame>)
    requires
        forall|i: int| 0 <= i < frames.len() ==> ((#[trigger] frames[i]).players matches Some(ps) ==> ps@.len() <= i64::MAX),
    ensures
        match member_raw_line(frames, member) {
            None => spec_live(observe_all(spec_new(member), frames)) is None,
            Some(p) => spec_live(observe_all(spec_new(member), frames)) matches Some(v) && v.goals == iv(p.goals)
                && v.assists == iv(p.assists) && v.saves == iv(p.saves) && v.shots == iv(p.shots) && v.score == iv(
                p.score,
            ) && v.demos == iv(p.demos),
        },
{
    lemma_observe_all(member, frames);
    lemma_member_raw_line(frames, member);
}

/// What `Match::finish` reports of the member, after `Match::new(member)` and
/// any run of `observe` calls: his team and statistics as his last line
/// gives them; a win, loss or draw by his team's score against the other's;
/// and MVP exactly when his team won and no line the game sent for his team
/// scored more than him (his score not below zero): a team-mate who scored
/// more takes it from him.
pub proof fn law_the_mvp_is_the_best_score_of_the_winning_team(member: Seq<char>, frames: Seq<StateFrame>, duration: i64)
    requires
        forall|i: int| 0 <= i < frames.len() ==> ((#[trigger] frames[i]).players matches Some(ps) ==> ps@.len() <= i64::MAX),
    ensures
        spec_finish(observe_all(spec_new(member), frames), duration) matches Ok(s) ==> {
            &&& member_raw_line(frames, member) matches Some(p) && s.player_team == iv(p.team_num) && s.goals == iv(p.goals)
                && s.assists == iv(p.assists) && s.saves == iv(p.saves) && s.shots == iv(p.shots) && s.score == iv(p.score)
                && s.demos == iv(p.demos)
            &&& {
                let mine = if s.player_team == 0 { s.team_blue_score } else { s.team_orange_score };
                let theirs = if s.player_team == 0 { s.team_orange_score } else { s.team_blue_score };
                &&& (s.result == "win"@) == (mine > theirs)
                &&& (s.result == "loss"@) == (mine < theirs)
                &&& (s.result == "draw"@) == (mine == theirs)
            }
            &&& s.mvp ==> s.result == "win"@
            &&& s.mvp ==> forall|i: int, k: int|
                #[trigger] line_at(frames, i, k) is Some && iv(line_at(frames, i, k)->0.team_num) == s.player_team
                    ==> iv(line_at(frames, i, k)->0.score) <= s.score
            &&& (s.result == "win"@ && s.score >= 0 && forall|i: int, k: int|
                #[trigger] line_at(frames, i, k) is Some && iv(line_at(frames, i, k)->0.team_num) == s.player_team
                    ==> iv(line_at(frames, i, k)->0.score) <= s.score) ==> s.mvp
        },
{
    lemma_observe_all(member, frames);
    lemma_member_raw_line(frames, member);
    lemma_observe_all_best(member, frames);
    reveal_strlit("win");
    reveal_strlit("loss");
    reveal_strlit("draw");
    assert("win"@.len() == 3 && "loss"@.len() == 4 && "draw"@.len() == 4);
    assert("loss"@[0] != "draw"@[0]);
    let m = observe_all(spec_new(member), frames);
    if let Ok(s) = spec_finish(m, duration) {
        let p = member_raw_line(frames, member)->0;
        assert(member_raw_line(frames, member) is Some);
        assert(s.player_team == iv(p.team_num));
        assert(s.score == iv(p.score));
        let mine = if s.player_team == 0 { s.team_blue_score } else { s.team_orange_score };
        let theirs = if s.player_team == 0 { s.team_orange_score } else { s.team_blue_score };
        assert((s.result == "win"@) == (mine > theirs));
        assert((s.result == "loss"@) == (mine < theirs));
        assert(s.mvp ==> s.result == "win"@);
        assert(s.mvp ==> forall|i: int, k: int|
                #[trigger] line_at(frames, i, k) is Some && iv(line_at(frames, i, k)->0.team_num) == s.player_team
                    ==> iv(line_at(frames, i, k)->0.score) <= s.score);
        if s.result == "win"@ && s.score >= 0 && forall|i: int, k: int|
            #[trigger] line_at(frames, i, k) is Some && iv(line_at(frames, i, k)->0.team_num) == s.player_team
                ==> iv(line_at(frames, i, k)->0.score) <= s.score {
            if s.player_team == 0 {
                if m.best_blue != 0 {
                    let (i, k) = choose|i: int, k: int|
                        #[trigger] line_at(frames, i, k) is Some && iv(line_at(frames, i, k)->0.team_num) == 0 && iv(
                            line_at(frames, i, k)->0.score,
                        ) == m.best_blue;
                    assert(iv(line_at(frames, i, k)->0.score) <= s.score);
                }
            } else {
                if m.best_orange != 0 {
                    let (i, k) = choose|i: int, k: int|
                        #[trigger] line_at(frames, i, k) is Some && iv(line_at(frames, i, k)->0.team_num) == 1 && iv(
                            line_at(frames, i, k)->0.score,
                        ) == m.best_orange;
                    assert(iv(line_at(frames, i, k)->0.score) <= s.score);
                }
            }
        }
    }
}

/// The score of the last of these `Teams` lines for team `t`.
pub open spec fn last_team_score(ts: Seq<TeamLine>, t: int) -> Option<i64>
    decreases ts.len(),
{
    if ts.len() == 0 {
        None
    } else if iv(ts.last().team_num) == t {
        Some(iv(ts.last().score))
    } else {
        last_team_score(ts.drop_last(), t)
    }
}

/// Team `t`'s score as the last `Teams` line the game sent for it gives it,
/// `0` before any.
pub open spec fn team_score(frames: Seq<StateFrame>, t: int) -> i64
    decreases frames.len(),
{
    if frames.len() == 0 {
        0
    } else {
        let prev = team_score(frames.drop_last(), t);
        match frames.last().game {
            Some(g) => match g.teams {
                Some(ts) => match last_team_score(ts@, t) {
                    Some(x) => x,
                    None => prev,
                },
                None => prev,
            },
            None => prev,
        }
    }
}

/// The last `Game` object these frames carried.
pub open spec fn last_game(frames: Seq<StateFrame>) -> Option<GameInfo>
    decreases frames.len(),
{
    if frames.len() == 0 {
        None
    } else {
        match frames.last().game {
            Some(g) => Some(g),
            None => last_game(frames.drop_last()),
        }
    }
}

/// The last non-empty `MatchGuid` these frames carried.
pub open spec fn last_guid(frames: Seq<StateFrame>) -> Option<Seq<char>>
    decreases frames.len(),
{
    if frames.len() == 0 {
        None
    } else {
        match frames.last().match_guid {
            Some(g) => if g@.len() > 0 {
                Some(g@)
            } else {
                last_guid(frames.drop_last())
            },
            None => last_guid(frames.drop_last()),
        }
    }
}

proof fn lemma_apply_teams(bo: (i64, i64), ts: Seq<TeamLine>)
    ensures
        apply_teams(bo, ts).0 == match last_team_score(ts, 0) {
            Some(x) => x,
            None => bo.0,
        },
        apply_teams(bo, ts).1 == match last_team_score(ts, 1) {
            Some(x) => x,
            None => bo.1,
        },
    decreases ts.len(),
{
    if ts.len() > 0 {
        lemma_apply_teams(bo, ts.drop_last());
    }
}

proof fn lemma_tally_keeps_the_game(t: Tally, ps: Seq<PlayerLine>)
    ensures
        ({
            let u = tally_players(t, ps).model;
            &&& u.blue == t.model.blue
            &&& u.orange == t.model.orange
            &&& u.seconds == t.model.seconds
            &&& u.overtime == t.model.overtime
            &&& u.guid == t.model.guid
        }),
    decreases ps.len(),
{
    if ps.len() > 0 {
        lemma_tally_keeps_the_game(t, ps.drop_last());
    }
}

proof fn lemma_observe_all_game(member: Seq<char>, frames: Seq<StateFrame>)
    ensures
        ({
            let m = observe_all(spec_new(member), frames);
            &&& m.blue == team_score(frames, 0)
            &&& m.orange == team_score(frames, 1)
            &&& m.seconds == match last_game(frames) {
                Some(g) => iv(g.time_seconds),
                None => 0,
            }
            &&& m.overtime == match last_game(frames) {
                Some(g) => g.overtime == Some(true),
                None => false,
            }
            &&& m.guid == last_guid(frames)
        }),
    decreases frames.len(),
{
    if frames.len() > 0 {
        let rest = frames.drop_last();
        lemma_observe_all_game(member, rest);
        let f = frames.last();
        let m0 = observe_all(spec_new(member), rest);
        let m1 = with_guid(m0, f);
        let m2 = match f.game {
            Some(g) => with_game(m1, g),
            None => m1,
        };
        match f.game {
            Some(g) => match g.teams {
                Some(ts) => lemma_apply_teams((m1.blue, m1.orange), ts@),
                None => {},
            },
            None => {},
        }
        match f.players {
            Some(ps) => lemma_tally_keeps_the_game(Tally { model: m2, blue_n: 0, orange_n: 0, present: seq![] }, ps@),
            None => {},
        }
    }
}

/// `Match::live` shows the teams' scores as the last `Teams` line for each
/// gives them, the clock of the last `Game` object never below zero, and
/// its overtime flag.
pub proof fn law_live_shows_the_last_scores_and_clock(member: Seq<char>, frames: Seq<StateFrame>)
    ensures
        spec_live(observe_all(spec_new(member), frames)) matches Some(v) ==> {
            let secs: i64 = match last_game(frames) {
                Some(g) => iv(g.time_seconds),
                None => 0,
            };
            &&& v.team_blue_score == team_score(frames, 0)
            &&& v.team_orange_score == team_score(frames, 1)
            &&& v.seconds_remaining == if secs < 0 { 0 } else { secs }
            &&& v.overtime == match last_game(frames) {
                Some(g) => g.overtime == Some(true),
                None => false,
            }
        },
{
    lemma_observe_all_game(member, frames);
}

/// What else `Match::finish` reports: the teams' scores as their last
/// `Teams` lines give them, the playlist the game last really sent, the
/// larger of the two largest sides seen, the duration brought within 0 to
/// 7200 seconds, and the SHA-256 key of the last non-empty `MatchGuid`, if
/// any; with no key, no other player.
pub proof fn law_finish_reports_what_the_frames_said(member: Seq<char>, frames: Seq<StateFrame>, duration: i64)
    requires
        forall|i: int| 0 <= i < frames.len() ==> ((#[trigger] frames[i]).players matches Some(ps) ==> ps@.len() <= i64::MAX),
    ensures
        spec_finish(observe_all(spec_new(member), frames), duration) matches Ok(s) ==> {
            &&& s.team_blue_score == team_score(frames, 0)
            &&& s.team_orange_score == team_score(frames, 1)
            &&& s.playlist == playlist_sent(frames)
            &&& s.team_size == if largest_side(frames, 0) >= largest_side(frames, 1) {
                largest_side(frames, 0)
            } else {
                largest_side(frames, 1)
            }
            &&& s.duration_seconds == if duration < 0 {
                0
            } else if duration > 7200 {
                7200
            } else {
                duration
            }
            &&& s.match_key == match last_guid(frames) {
                Some(g) => Some(spec_match_key(g)),
                None => None,
            }
            &&& (s.match_key is None ==> s.others.len() == 0)
        },
{
    lemma_observe_all(member, frames);
    lemma_observe_all_game(member, frames);
}

proof fn lemma_others_for_summary_len(os: Seq<(Seq<char>, Other)>)
    ensures
        others_for_summary(os).len() == if os.len() <= MAX_OTHERS { os.len() } else { MAX_OTHERS as nat },
{
    lemma_entry_orders();
    crate::order::lemma_leq_of_total(entry_order(false));
    crate::order::lemma_leq_of_total(entry_order(true));
    let sorted = os.sort_by(leq_of(entry_order(false)));
    os.lemma_sort_by_ensures(leq_of(entry_order(false)));
    assert(sorted.len() == os.len()) by {
        assert(sorted.to_multiset().len() == os.to_multiset().len());
    }
    let kept = at_most(sorted, MAX_OTHERS as int);
    kept.lemma_sort_by_ensures(leq_of(entry_order(true)));
    assert(kept.sort_by(leq_of(entry_order(true))).len() == kept.len()) by {
        assert(kept.sort_by(leq_of(entry_order(true))).to_multiset().len() == kept.to_multiset().len());
    }
}

/// Whether line `q` names a player other than the member.
pub open spec fn names_another(q: PlayerLine, member: Seq<char>) -> bool {
    q.name is Some && !same_player(opt_text(q.name), member)
}

proof fn lemma_tally_others(t: Tally, ps: Seq<PlayerLine>)
    ensures
        ({
            let u = tally_players(t, ps).model.others;
            &&& u.len() >= t.model.others.len()
            &&& (exists|k: int| 0 <= k < ps.len() && names_another(#[trigger] ps[k], t.model.member)) ==> u.len() > 0
            &&& u.len() > 0 ==> t.model.others.len() > 0 || exists|k: int|
                0 <= k < ps.len() && names_another(#[trigger] ps[k], t.model.member)
        }),
    decreases ps.len(),
{
    if ps.len() > 0 {
        let rest = ps.drop_last();
        lemma_tally_others(t, rest);
        lemma_tally(t, rest);
        let n = ps.len() - 1;
        assert(ps[n] == ps.last());
        let t0 = tally_players(t, rest);
        let p = ps.last();
        match opt_text(p.name) {
            Some(nm) => {
                if !same_player(opt_text(p.name), t0.model.member) {
                    lemma_index_of_name(t0.model.others, nm);
                }
            },
            None => {},
        }
        if exists|k: int| 0 <= k < rest.len() && names_another(#[trigger] rest[k], t.model.member) {
            let k = choose|k: int| 0 <= k < rest.len() && names_another(#[trigger] rest[k], t.model.member);
            assert(ps[k] == rest[k]);
        }
        if exists|k: int| 0 <= k < ps.len() && names_another(#[trigger] ps[k], t.model.member) {
            let k = choose|k: int| 0 <= k < ps.len() && names_another(#[trigger] ps[k], t.model.member);
            if k < n {
                assert(rest[k] == ps[k]);
            }
        }
        let u = tally_players(t, ps).model.others;
        assert(u.len() >= t0.model.others.len());
        assert(names_another(p, t.model.member) ==> u.len() > 0);
        assert(u.len() > t0.model.others.len() ==> names_another(p, t.model.member));
    }
}

proof fn lemma_observe_all_member(member: Seq<char>, frames: Seq<StateFrame>)
    ensures
        observe_all(spec_new(member), frames).member == member,
    decreases frames.len(),
{
    if frames.len() > 0 {
        lemma_observe_all_member(member, frames.drop_last());
        let f = frames.last();
        let m0 = observe_all(spec_new(member), frames.drop_last());
        let m1 = with_guid(m0, f);
        let m2 = match f.game {
            Some(g) => with_game(m1, g),
            None => m1,
        };
        match f.players {
            Some(ps) => lemma_tally(Tally { model: m2, blue_n: 0, orange_n: 0, present: seq![] }, ps@),
            None => {},
        }
    }
}

proof fn lemma_observe_all_others(member: Seq<char>, frames: Seq<StateFrame>)
    ensures
        (observe_all(spec_new(member), frames).others.len() > 0) == exists|i: int, k: int|
            #[trigger] line_at(frames, i, k) is Some && names_another(line_at(frames, i, k)->0, member),
    decreases frames.len(),
{
    if frames.len() > 0 {
        let rest = frames.drop_last();
        lemma_observe_all_others(member, rest);
        lemma_observe_all_member(member, rest);
        let n = frames.len() - 1;
        let f = frames.last();
        assert(frames[n] == f);
        let m0 = observe_all(spec_new(member), rest);
        let m1 = with_guid(m0, f);
        let m2 = match f.game {
            Some(g) => with_game(m1, g),
            None => m1,
        };
        assert(m2.others == m0.others && m2.member == member);
        assert forall|i: int, k: int| 0 <= i < n implies #[trigger] line_at(frames, i, k) == line_at(rest, i, k) by {
            assert(frames[i] == rest[i]);
        }
        let before = exists|i: int, k: int| #[trigger] line_at(rest, i, k) is Some && names_another(line_at(rest, i, k)->0, member);
        let after = exists|i: int, k: int| #[trigger] line_at(frames, i, k) is Some && names_another(line_at(frames, i, k)->0, member);
        if before {
            let (i, k) = choose|i: int, k: int| #[trigger] line_at(rest, i, k) is Some && names_another(line_at(rest, i, k)->0, member);
            assert(line_at(frames, i, k) == line_at(rest, i, k));
        }
        match f.players {
            Some(ps) => {
                let t = Tally { model: m2, blue_n: 0, orange_n: 0, present: seq![] };
                lemma_tally_others(t, ps@);
                if exists|k: int| 0 <= k < ps@.len() && names_another(#[trigger] ps@[k], member) {
                    let k = choose|k: int| 0 <= k < ps@.len() && names_another(#[trigger] ps@[k], member);
                    assert(line_at(frames, n, k) == Some(ps@[k]));
                }
                if after && !before {
                    let (i, k) = choose|i: int, k: int| #[trigger] line_at(frames, i, k) is Some && names_another(line_at(frames, i, k)->0, member);
                    if i < n {
                        assert(line_at(frames, i, k) == line_at(rest, i, k));
                    } else {
                        assert(line_at(frames, n, k) == Some(ps@[k]));
                        assert(names_another(ps@[k], member));
                    }
                }
            },
            None => {
                if after {
                    let (i, k) = choose|i: int, k: int| #[trigger] line_at(frames, i, k) is Some && names_another(line_at(frames, i, k)->0, member);
                    assert(line_at(frames, i, k) == line_at(rest, i, k));
                }
            },
        }
    }
}

/// A match summary with a key names no one but carries the other players:
/// as many as the game showed, up to seven, and at least one as soon as the
/// game sent a line for anyone but the member.
pub proof fn law_finish_carries_the_other_players(member: Seq<char>, frames: Seq<StateFrame>, duration: i64)
    ensures
        spec_finish(observe_all(spec_new(member), frames), duration) matches Ok(s) ==> (s.match_key is Some ==> {
            &&& s.others.len() <= 7
            &&& (s.others.len() > 0) == exists|i: int, k: int|
                #[trigger] line_at(frames, i, k) is Some && names_another(line_at(frames, i, k)->0, member)
        }),
{
    lemma_observe_all_others(member, frames);
    lemma_others_for_summary_len(observe_all(spec_new(member), frames).others);
}

} // verus!
