//! Local game detection: which catalogue entries a running process matches,
//! which games count as played, and whom each start and stop is reported to.
//!
//! A catalogue entry is matched either as a plain basename, compared to the
//! process name, or as a qualified path pattern, matched as a suffix of the
//! process's full path on a directory boundary. Paths are compared locally
//! and never leave the machine.
use vstd::prelude::*;
use crate::db::CachedGame;
use crate::text::{chars_of, ends_with, occurs_at, push_char, str_eq};

verus! {

// ---------------------------------------------------------------------------
// Paths and patterns

/// What `str::to_lowercase` makes of a text.
pub uninterp spec fn lowercase(s: Seq<char>) -> Seq<char>;

/// `str::to_lowercase`.
#[verifier::external_body]
fn to_lowercase(s: &str) -> (r: String)
    ensures
        r@ == lowercase(s@),
{
    s.to_lowercase()
}

/// Every `\` turned into `/`.
pub open spec fn forward_slashes(s: Seq<char>) -> Seq<char> {
    s.map_values(|c: char| if c == '\\' { '/' } else { c })
}

/// Lowercases a process executable path and unifies separators, so Windows
/// paths compare against the forward-slash patterns the catalogue ships.
pub fn normalize_path(raw: &str) -> (r: String)
    ensures
        r@ == lowercase(forward_slashes(raw@)),
{
    let cs = chars_of(raw);
    let mut s = String::new();
    let mut i: usize = 0;
    while i < cs.len()
        invariant
            i <= cs@.len(),
            cs@ == raw@,
            s@ == forward_slashes(cs@.take(i as int)),
        decreases cs@.len() - i,
    {
        let c = cs[i];
        push_char(&mut s, if c == '\\' { '/' } else { c });
        proof {
            assert(forward_slashes(cs@.take(i + 1)) =~= forward_slashes(cs@.take(i as int)).push(
                if c == '\\' { '/' } else { c },
            ));
        }
        i = i + 1;
    }
    proof {
        assert(cs@.take(cs@.len() as int) =~= cs@);
    }
    to_lowercase(s.as_str())
}

/// Whether a normalized process `path` ends with a non-empty catalogue
/// `pattern`, aligned on a directory boundary.
pub open spec fn spec_matches_pattern(path: Seq<char>, pattern: Seq<char>) -> bool {
    let head = path.len() - pattern.len();
    &&& pattern.len() > 0
    &&& ends_with(path, pattern)
    &&& (head == 0 || path[head - 1] == '/')
}

/// Whether a normalized process `path` ends with a catalogue `pattern`,
/// aligned on a directory boundary: what keeps
/// "my dragon ball gekishin squadra/game.exe" from matching the real game.
pub fn matches_pattern(path: &str, pattern: &str) -> (r: bool)
    ensures
        r == spec_matches_pattern(path@, pattern@),
{
    let p = chars_of(path);
    let q = chars_of(pattern);
    if q.len() == 0 || q.len() > p.len() {
        return false;
    }
    let head = p.len() - q.len();
    if !crate::text::matches_at(p.as_slice(), q.as_slice(), head) {
        return false;
    }
    head == 0 || p[head - 1] == '/'
}

// ---------------------------------------------------------------------------
// Keyed lists

/// The position of the first entry kept under `k`.
pub open spec fn key_pos<V>(m: Seq<(Seq<char>, V)>, k: Seq<char>) -> Option<int>
    decreases m.len(),
{
    if m.len() == 0 {
        None
    } else if m[0].0 == k {
        Some(0)
    } else {
        match key_pos(m.drop_first(), k) {
            Some(i) => Some(i + 1),
            None => None,
        }
    }
}

/// The value kept under `k`: that of the first entry with this key.
pub open spec fn lookup<V>(m: Seq<(Seq<char>, V)>, k: Seq<char>) -> Option<V> {
    match key_pos(m, k) {
        Some(i) => Some(m[i].1),
        None => None,
    }
}

pub proof fn lemma_key_pos<V>(m: Seq<(Seq<char>, V)>, k: Seq<char>)
    ensures
        key_pos(m, k) matches Some(i) ==> 0 <= i < m.len() && m[i].0 == k && forall|j: int| 0 <= j < i ==> m[j].0 != k,
        key_pos(m, k) is None ==> forall|j: int| 0 <= j < m.len() ==> m[j].0 != k,
    decreases m.len(),
{
    if m.len() > 0 && m[0].0 != k {
        lemma_key_pos(m.drop_first(), k);
        assert forall|j: int| 1 <= j < m.len() implies m[j] == m.drop_first()[j - 1] by {}
    }
}

pub proof fn lemma_key_pos_first<V>(m: Seq<(Seq<char>, V)>, k: Seq<char>, i: int)
    requires
        0 <= i < m.len(),
        m[i].0 == k,
        forall|j: int| 0 <= j < i ==> m[j].0 != k,
    ensures
        key_pos(m, k) == Some(i),
    decreases m.len(),
{
    if i > 0 {
        assert forall|j: int| 0 <= j < i - 1 implies m.drop_first()[j].0 != k by {
            assert(m.drop_first()[j] == m[j + 1]);
        }
        lemma_key_pos_first(m.drop_first(), k, i - 1);
    }
}

pub proof fn lemma_key_pos_none<V>(m: Seq<(Seq<char>, V)>, k: Seq<char>)
    requires
        forall|j: int| 0 <= j < m.len() ==> m[j].0 != k,
    ensures
        key_pos(m, k) is None,
    decreases m.len(),
{
    if m.len() > 0 {
        assert forall|j: int| 0 <= j < m.len() - 1 implies m.drop_first()[j].0 != k by {
            assert(m.drop_first()[j] == m[j + 1]);
        }
        lemma_key_pos_none(m.drop_first(), k);
    }
}

/// Pairs of strings as text.
pub open spec fn pairs_view(p: Seq<(String, String)>) -> Seq<(Seq<char>, Seq<char>)> {
    p.map_values(|e: (String, String)| (e.0@, e.1@))
}

/// Strings as text.
pub open spec fn strs(v: Seq<String>) -> Seq<Seq<char>> {
    v.map_values(|e: String| e@)
}

/// The match index as text.
pub open spec fn index_view(v: Seq<(String, Vec<(String, String)>)>) -> Seq<(Seq<char>, Seq<(Seq<char>, Seq<char>)>)> {
    v.map_values(|e: (String, Vec<(String, String)>)| (e.0@, pairs_view(e.1@)))
}

/// The patterns by basename as text.
pub open spec fn patterns_view(v: Seq<(String, Vec<String>)>) -> Seq<(Seq<char>, Seq<Seq<char>>)> {
    v.map_values(|e: (String, Vec<String>)| (e.0@, strs(e.1@)))
}

/// The position of the first entry kept under `k`.
pub(crate) fn position<V>(m: &Vec<(String, V)>, k: &str) -> (r: Option<usize>)
    ensures
        r matches Some(i) ==> i < m@.len() && m@[i as int].0@ == k@ && forall|j: int| 0 <= j < i ==> m@[j].0@ != k@,
        r is None ==> forall|j: int| 0 <= j < m@.len() ==> m@[j].0@ != k@,
{
    let mut i: usize = 0;
    while i < m.len()
        invariant
            i <= m@.len(),
            forall|j: int| 0 <= j < i ==> m@[j].0@ != k@,
        decreases m@.len() - i,
    {
        if str_eq(m[i].0.as_str(), k) {
            return Some(i);
        }
        i = i + 1;
    }
    None
}

/// Whether the strings hold this text.
fn holds(v: &Vec<String>, k: &str) -> (r: bool)
    ensures
        r == strs(v@).contains(k@),
{
    let mut i: usize = 0;
    while i < v.len()
        invariant
            i <= v@.len(),
            forall|j: int| 0 <= j < i ==> v@[j]@ != k@,
        decreases v@.len() - i,
    {
        if str_eq(v[i].as_str(), k) {
            proof {
                assert(strs(v@)[i as int] == k@);
            }
            return true;
        }
        i = i + 1;
    }
    proof {
        if strs(v@).contains(k@) {
            let j = choose|j: int| 0 <= j < strs(v@).len() && strs(v@)[j] == k@;
            assert(v@[j]@ == k@);
        }
    }
    false
}

/// Whether the pairs hold this pair.
fn holds_pair(v: &Vec<(String, String)>, a: &str, b: &str) -> (r: bool)
    ensures
        r == pairs_view(v@).contains((a@, b@)),
{
    let mut i: usize = 0;
    while i < v.len()
        invariant
            i <= v@.len(),
            forall|j: int| 0 <= j < i ==> (v@[j].0@, v@[j].1@) != (a@, b@),
        decreases v@.len() - i,
    {
        if str_eq(v[i].0.as_str(), a) && str_eq(v[i].1.as_str(), b) {
            proof {
                assert(pairs_view(v@)[i as int] == (a@, b@));
            }
            return true;
        }
        i = i + 1;
    }
    proof {
        if pairs_view(v@).contains((a@, b@)) {
            let j = choose|j: int| 0 <= j < pairs_view(v@).len() && pairs_view(v@)[j] == (a@, b@);
            assert((v@[j].0@, v@[j].1@) == (a@, b@));
        }
    }
    false
}

fn copy_pair(p: &(String, String)) -> (r: (String, String))
    ensures
        r.0@ == p.0@,
        r.1@ == p.1@,
{
    (p.0.clone(), p.1.clone())
}

// ---------------------------------------------------------------------------
// The catalogue

/// A match index: each catalogue entry with the `(server_id, slug)` pairs it
/// stands for.
pub type IndexView = Seq<(Seq<char>, Seq<(Seq<char>, Seq<char>)>)>;

/// Pattern basenames, each with the patterns that end with it.
pub type PatternsView = Seq<(Seq<char>, Seq<Seq<char>>)>;

/// The pair added under `key`: appended to its entry, or a new entry last.
pub open spec fn add_pair(idx: IndexView, key: Seq<char>, pair: (Seq<char>, Seq<char>)) -> IndexView {
    match key_pos(idx, key) {
        Some(i) => idx.update(i, (key, idx[i].1.push(pair))),
        None => idx.push((key, seq![pair])),
    }
}

/// The position of the last `/`, if any.
pub open spec fn last_slash(s: Seq<char>) -> Option<int>
    decreases s.len(),
{
    if s.len() == 0 {
        None
    } else if s.last() == '/' {
        Some(s.len() - 1)
    } else {
        last_slash(s.drop_last())
    }
}

/// A catalogue entry with a `/` is a pattern: it is listed, once, under the
/// text after its last `/`.
pub open spec fn add_pattern(pats: PatternsView, exe: Seq<char>) -> PatternsView {
    match last_slash(exe) {
        None => pats,
        Some(j) => {
            let base = exe.skip(j + 1);
            match key_pos(pats, base) {
                Some(i) => if pats[i].1.contains(exe) {
                    pats
                } else {
                    pats.update(i, (base, pats[i].1.push(exe)))
                },
                None => pats.push((base, seq![exe])),
            }
        },
    }
}

/// The display name of `slug` set to `name`.
pub open spec fn set_name(names: Seq<(Seq<char>, Seq<char>)>, slug: Seq<char>, name: Seq<char>) -> Seq<(Seq<char>, Seq<char>)> {
    match key_pos(names, slug) {
        Some(i) => names.update(i, (slug, name)),
        None => names.push((slug, name)),
    }
}

/// A cached game with the server it came from, as text: server, slug,
/// name, entries.
pub type GameRow = (Seq<char>, Seq<char>, Seq<char>, Seq<Seq<char>>);

pub open spec fn games_view(s: Seq<(String, CachedGame)>) -> Seq<GameRow> {
    s.map_values(|e: (String, CachedGame)| (e.0@, e.1.slug@, e.1.name@, strs(e.1.executable_names@)))
}

/// The index and patterns after one game's entries.
pub open spec fn load_exes(st: (IndexView, PatternsView), sid: Seq<char>, slug: Seq<char>, exes: Seq<Seq<char>>) -> (IndexView, PatternsView)
    decreases exes.len(),
{
    if exes.len() == 0 {
        st
    } else {
        let p = load_exes(st, sid, slug, exes.drop_last());
        (add_pair(p.0, exes.last(), (sid, slug)), add_pattern(p.1, exes.last()))
    }
}

/// The index, patterns and names built from every server's catalogue, in
/// order.
pub open spec fn load_games(games: Seq<GameRow>) -> (IndexView, PatternsView, Seq<(Seq<char>, Seq<char>)>)
    decreases games.len(),
{
    if games.len() == 0 {
        (seq![], seq![], seq![])
    } else {
        let p = load_games(games.drop_last());
        let g = games.last();
        let q = load_exes((p.0, p.1), g.0, g.1, g.3);
        (q.0, q.1, set_name(p.2, g.1, g.2))
    }
}

fn add_pair_to(idx: &mut Vec<(String, Vec<(String, String)>)>, key: &str, sid: &str, slug: &str)
    ensures
        index_view(final(idx)@) == add_pair(index_view(old(idx)@), key@, (sid@, slug@)),
{
    let ghost old_v = index_view(idx@);
    let pair = (sid.to_owned(), slug.to_owned());
    match position(idx, key) {
        Some(i) => {
            proof {
                assert(old_v[i as int].0 == key@);
                assert forall|j: int| 0 <= j < i implies old_v[j].0 != key@ by {
                    assert(old_v[j].0 == idx@[j].0@);
                }
                lemma_key_pos_first(old_v, key@, i as int);
            }
            let ghost before = idx@[i as int].1@;
            idx[i].1.push(pair);
            proof {
                assert(pairs_view(idx@[i as int].1@) =~= pairs_view(before).push((sid@, slug@)));
                assert(index_view(idx@) =~= old_v.update(i as int, (key@, old_v[i as int].1.push((sid@, slug@)))));
            }
        },
        None => {
            proof {
                assert forall|j: int| 0 <= j < old_v.len() implies old_v[j].0 != key@ by {
                    assert(old_v[j].0 == idx@[j].0@);
                }
                lemma_key_pos_none(old_v, key@);
            }
            let mut ps: Vec<(String, String)> = Vec::new();
            ps.push(pair);
            idx.push((key.to_owned(), ps));
            proof {
                assert(pairs_view(ps@) =~= seq![(sid@, slug@)]);
                assert(index_view(idx@) =~= old_v.push((key@, seq![(sid@, slug@)])));
            }
        },
    }
}

/// The position of the last `/`.
fn last_slash_in(s: &[char]) -> (r: Option<usize>)
    ensures
        r matches Some(j) ==> last_slash(s@) == Some(j as int) && j < s@.len(),
        r is None ==> last_slash(s@) is None,
{
    let mut n = s.len();
    proof {
        assert(s@.take(n as int) =~= s@);
    }
    while n > 0
        invariant
            n <= s@.len(),
            last_slash(s@) == last_slash(s@.take(n as int)),
        decreases n,
    {
        if s[n - 1] == '/' {
            return Some(n - 1);
        }
        proof {
            assert(s@.take(n as int).drop_last() =~= s@.take(n - 1));
        }
        n = n - 1;
    }
    None
}

fn add_pattern_to(pats: &mut Vec<(String, Vec<String>)>, exe: &str)
    ensures
        patterns_view(final(pats)@) == add_pattern(patterns_view(old(pats)@), exe@),
{
    let ghost old_v = patterns_view(pats@);
    let cs = chars_of(exe);
    match last_slash_in(cs.as_slice()) {
        None => {},
        Some(j) => {
            let mut base = String::new();
            let n = cs.len();
            crate::text::append_chars(&mut base, &cs.as_slice()[j + 1..n]);
            proof {
                assert(cs@.subrange(j + 1, cs@.len() as int) =~= exe@.skip(j + 1));
            }
            match position(pats, base.as_str()) {
                Some(i) => {
                    proof {
                        assert forall|k: int| 0 <= k < i implies old_v[k].0 != base@ by {
                            assert(old_v[k].0 == pats@[k].0@);
                        }
                        lemma_key_pos_first(old_v, base@, i as int);
                        assert(old_v[i as int].1 == strs(pats@[i as int].1@));
                    }
                    if !holds(&pats[i].1, exe) {
                        let ghost before = pats@[i as int].1@;
                        pats[i].1.push(exe.to_owned());
                        proof {
                            assert(strs(pats@[i as int].1@) =~= strs(before).push(exe@));
                            assert(patterns_view(pats@) =~= old_v.update(i as int, (base@, old_v[i as int].1.push(exe@))));
                        }
                    }
                },
                None => {
                    proof {
                        assert forall|k: int| 0 <= k < old_v.len() implies old_v[k].0 != base@ by {
                            assert(old_v[k].0 == pats@[k].0@);
                        }
                        lemma_key_pos_none(old_v, base@);
                    }
                    let mut v: Vec<String> = Vec::new();
                    v.push(exe.to_owned());
                    pats.push((base, v));
                    proof {
                        assert(strs(v@) =~= seq![exe@]);
                        assert(patterns_view(pats@) =~= old_v.push((base@, seq![exe@])));
                    }
                },
            }
        },
    }
}

pub(crate) fn set_name_in(names: &mut Vec<(String, String)>, slug: &str, name: &str)
    ensures
        pairs_view(final(names)@) == set_name(pairs_view(old(names)@), slug@, name@),
{
    let ghost old_v = pairs_view(names@);
    match position(names, slug) {
        Some(i) => {
            proof {
                assert forall|k: int| 0 <= k < i implies old_v[k].0 != slug@ by {
                    assert(old_v[k].0 == names@[k].0@);
                }
                lemma_key_pos_first(old_v, slug@, i as int);
            }
            names.set(i, (slug.to_owned(), name.to_owned()));
            proof {
                assert(pairs_view(names@) =~= old_v.update(i as int, (slug@, name@)));
            }
        },
        None => {
            proof {
                assert forall|k: int| 0 <= k < old_v.len() implies old_v[k].0 != slug@ by {
                    assert(old_v[k].0 == names@[k].0@);
                }
                lemma_key_pos_none(old_v, slug@);
            }
            names.push((slug.to_owned(), name.to_owned()));
            proof {
                assert(pairs_view(names@) =~= old_v.push((slug@, name@)));
            }
        },
    }
}

/// What `position` found is where `key_pos` looks, in any view of the same
/// keys.
pub(crate) proof fn lemma_found<V, W>(m: Seq<(String, V)>, mv: Seq<(Seq<char>, W)>, k: Seq<char>, r: Option<usize>)
    requires
        mv.len() == m.len(),
        forall|j: int| 0 <= j < m.len() ==> #[trigger] mv[j].0 == m[j].0@,
        r matches Some(i) ==> i < m.len() && m[i as int].0@ == k && forall|j: int| 0 <= j < i ==> m[j].0@ != k,
        r is None ==> forall|j: int| 0 <= j < m.len() ==> m[j].0@ != k,
    ensures
        r matches Some(i) ==> key_pos(mv, k) == Some(i as int),
        r is None ==> key_pos(mv, k) is None,
{
    match r {
        Some(i) => {
            assert(mv[i as int].0 == k);
            assert forall|j: int| 0 <= j < i implies mv[j].0 != k by {
                assert(mv[j].0 == m[j].0@);
            }
            lemma_key_pos_first(mv, k, i as int);
        },
        None => {
            assert forall|j: int| 0 <= j < mv.len() implies mv[j].0 != k by {
                assert(mv[j].0 == m[j].0@);
            }
            lemma_key_pos_none(mv, k);
        },
    }
}

/// What the scanner knows: the catalogue's index, its patterns and names,
/// and the games running, ignored and stopped by the member.
pub struct ScannerView {
    pub index: IndexView,
    pub patterns: PatternsView,
    /// slug → display name.
    pub names: Seq<(Seq<char>, Seq<char>)>,
    /// Catalogue entries currently detected as running.
    pub running: Seq<Seq<char>>,
    /// `(server_id, slug)` pairs the member has chosen to ignore.
    pub ignored: Seq<(Seq<char>, Seq<char>)>,
    /// Catalogue entries the member has stopped, until the process exits.
    pub suppressed: Seq<Seq<char>>,
}

/// State shared between the scanner, the connection tasks and the UI.
pub struct ScannerState {
    key_index: Vec<(String, Vec<(String, String)>)>,
    patterns_by_basename: Vec<(String, Vec<String>)>,
    names: Vec<(String, String)>,
    running: Vec<String>,
    ignored: Vec<(String, String)>,
    suppressed: Vec<String>,
}

impl View for ScannerState {
    type V = ScannerView;

    closed spec fn view(&self) -> ScannerView {
        ScannerView {
            index: index_view(self.key_index@),
            patterns: patterns_view(self.patterns_by_basename@),
            names: pairs_view(self.names@),
            running: strs(self.running@),
            ignored: pairs_view(self.ignored@),
            suppressed: strs(self.suppressed@),
        }
    }
}

/// The slugs of these pairs for server `sid` that are not ignored, in order.
pub open spec fn slugs_for(ps: Seq<(Seq<char>, Seq<char>)>, sid: Seq<char>, ignored: Seq<(Seq<char>, Seq<char>)>) -> Seq<Seq<char>>
    decreases ps.len(),
{
    if ps.len() == 0 {
        seq![]
    } else {
        let prev = slugs_for(ps.drop_last(), sid, ignored);
        let p = ps.last();
        if p.0 == sid && !ignored.contains(p) {
            prev.push(p.1)
        } else {
            prev
        }
    }
}

/// The slugs reported for server `sid` for these running entries: each entry
/// not stopped by the member gives its not ignored pairs for that server.
pub open spec fn running_for_spec(v: ScannerView, run: Seq<Seq<char>>, sid: Seq<char>) -> Seq<Seq<char>>
    decreases run.len(),
{
    if run.len() == 0 {
        seq![]
    } else {
        let prev = running_for_spec(v, run.drop_last(), sid);
        let exe = run.last();
        if v.suppressed.contains(exe) {
            prev
        } else {
            match lookup(v.index, exe) {
                None => prev,
                Some(ps) => prev + slugs_for(ps, sid, v.ignored),
            }
        }
    }
}

/// The slug of the first pair not ignored.
pub open spec fn first_shown(ps: Seq<(Seq<char>, Seq<char>)>, ignored: Seq<(Seq<char>, Seq<char>)>) -> Option<Seq<char>>
    decreases ps.len(),
{
    if ps.len() == 0 {
        None
    } else if !ignored.contains(ps[0]) {
        Some(ps[0].1)
    } else {
        first_shown(ps.drop_first(), ignored)
    }
}

/// A game's display name, its slug when the catalogue names none.
pub open spec fn name_of(v: ScannerView, slug: Seq<char>) -> Seq<char> {
    match lookup(v.names, slug) {
        Some(n) => n,
        None => slug,
    }
}

/// The running games for the UI, one per game: each running entry not
/// stopped shows its first pair that is not ignored, once per slug.
pub open spec fn running_games_spec(v: ScannerView, run: Seq<Seq<char>>) -> Seq<(Seq<char>, Seq<char>)>
    decreases run.len(),
{
    if run.len() == 0 {
        seq![]
    } else {
        let prev = running_games_spec(v, run.drop_last());
        let exe = run.last();
        if v.suppressed.contains(exe) {
            prev
        } else {
            match lookup(v.index, exe) {
                None => prev,
                Some(ps) => match first_shown(ps, v.ignored) {
                    None => prev,
                    Some(slug) => if prev.map_values(|e: (Seq<char>, Seq<char>)| e.0).contains(slug) {
                        prev
                    } else {
                        prev.push((slug, name_of(v, slug)))
                    },
                },
            }
        }
    }
}

/// The catalogue keys a running process matches: its name when the index
/// knows it, then each pattern listed under its name that its path, when
/// read, matches.
pub open spec fn process_keys_spec(v: ScannerView, name: Seq<char>, path: Option<Seq<char>>) -> Seq<Seq<char>> {
    let by_name: Seq<Seq<char>> = if key_pos(v.index, name) is Some { seq![name] } else { seq![] };
    let by_path = match (path, lookup(v.patterns, name)) {
        (Some(p), Some(cands)) => cands.filter(|c: Seq<char>| spec_matches_pattern(p, c)),
        _ => seq![],
    };
    by_name + by_path
}

/// Whether one of these pairs is for `slug`.
pub open spec fn has_slug(ps: Seq<(Seq<char>, Seq<char>)>, slug: Seq<char>) -> bool {
    exists|k: int| 0 <= k < ps.len() && ps[k].1 == slug
}

/// Whether one of the first `n` index entries is `e` with a pair for `slug`.
pub open spec fn marked(index: IndexView, slug: Seq<char>, n: int, e: Seq<char>) -> bool {
    exists|a: int| 0 <= a < n && index[a].0 == e && #[trigger] has_slug(index[a].1, slug)
}

impl ScannerState {
    /// A scanner that knows no catalogue yet.
    pub fn new() -> (s: Self)
        ensures
            s@ == (ScannerView {
                index: seq![],
                patterns: seq![],
                names: seq![],
                running: seq![],
                ignored: seq![],
                suppressed: seq![],
            }),
    {
        let s = ScannerState {
            key_index: Vec::new(),
            patterns_by_basename: Vec::new(),
            names: Vec::new(),
            running: Vec::new(),
            ignored: Vec::new(),
            suppressed: Vec::new(),
        };
        proof {
            assert(index_view(s.key_index@) =~= seq![]);
            assert(patterns_view(s.patterns_by_basename@) =~= seq![]);
            assert(pairs_view(s.names@) =~= seq![]);
            assert(strs(s.running@) =~= seq![]);
            assert(pairs_view(s.ignored@) =~= seq![]);
            assert(strs(s.suppressed@) =~= seq![]);
        }
        s
    }

    /// Rebuilds the matching index from every server's cached catalogue.
    pub fn load_catalog(&mut self, games: &[(String, CachedGame)])
        ensures
            (final(self)@.index, final(self)@.patterns, final(self)@.names) == load_games(games_view(games@)),
            final(self)@.running == old(self)@.running,
            final(self)@.ignored == old(self)@.ignored,
            final(self)@.suppressed == old(self)@.suppressed,
    {
        let ghost gv = games_view(games@);
        let mut index: Vec<(String, Vec<(String, String)>)> = Vec::new();
        let mut patterns: Vec<(String, Vec<String>)> = Vec::new();
        let mut names: Vec<(String, String)> = Vec::new();
        let mut i: usize = 0;
        proof {
            assert(gv.take(0) =~= seq![]);
            assert(index_view(index@) =~= seq![]);
            assert(patterns_view(patterns@) =~= seq![]);
            assert(pairs_view(names@) =~= seq![]);
        }
        while i < games.len()
            invariant
                i <= games@.len(),
                gv == games_view(games@),
                (index_view(index@), patterns_view(patterns@), pairs_view(names@)) == load_games(gv.take(i as int)),
            decreases games@.len() - i,
        {
            let sid = games[i].0.as_str();
            let g = &games[i].1;
            let ghost before = load_games(gv.take(i as int));
            proof {
                assert(gv.take(i + 1).drop_last() =~= gv.take(i as int));
                assert(gv[i as int] == (sid@, g.slug@, g.name@, strs(g.executable_names@)));
            }
            let ghost exes = strs(g.executable_names@);
            let mut j: usize = 0;
            proof {
                assert(exes.take(0) =~= seq![]);
            }
            while j < g.executable_names.len()
                invariant
                    j <= g.executable_names@.len(),
                    exes == strs(g.executable_names@),
                    (index_view(index@), patterns_view(patterns@)) == load_exes(
                        (before.0, before.1),
                        sid@,
                        g.slug@,
                        exes.take(j as int),
                    ),
                decreases g.executable_names@.len() - j,
            {
                let exe = g.executable_names[j].as_str();
                proof {
                    assert(exes.take(j + 1).drop_last() =~= exes.take(j as int));
                    assert(exes[j as int] == exe@);
                }
                add_pair_to(&mut index, exe, sid, g.slug.as_str());
                add_pattern_to(&mut patterns, exe);
                j = j + 1;
            }
            proof {
                assert(exes.take(exes.len() as int) =~= exes);
            }
            set_name_in(&mut names, g.slug.as_str(), g.name.as_str());
            i = i + 1;
        }
        proof {
            assert(gv.take(gv.len() as int) =~= gv);
        }
        self.key_index = index;
        self.patterns_by_basename = patterns;
        self.names = names;
    }

    /// Replaces the ignore set.
    pub fn reload_ignored(&mut self, ignored: &[(String, String)])
        ensures
            final(self)@ == (ScannerView { ignored: pairs_view(ignored@), ..old(self)@ }),
    {
        let mut v: Vec<(String, String)> = Vec::new();
        let mut i: usize = 0;
        while i < ignored.len()
            invariant
                i <= ignored@.len(),
                pairs_view(v@) == pairs_view(ignored@).take(i as int),
            decreases ignored@.len() - i,
        {
            let ghost before = v@;
            v.push(copy_pair(&ignored[i]));
            proof {
                assert(pairs_view(ignored@)[i as int] == (ignored@[i as int].0@, ignored@[i as int].1@));
                assert(pairs_view(v@) =~= pairs_view(before).push(pairs_view(ignored@)[i as int]));
                assert(pairs_view(v@) =~= pairs_view(ignored@).take(i + 1));
            }
            i = i + 1;
        }
        proof {
            assert(pairs_view(ignored@).take(ignored@.len() as int) =~= pairs_view(ignored@));
        }
        self.ignored = v;
    }

    /// Marks every catalogue entry that maps to `slug` as stopped by the
    /// member, until its process exits.
    pub fn suppress_slug(&mut self, slug: &str)
        ensures
            final(self)@ == (ScannerView { suppressed: final(self)@.suppressed, ..old(self)@ }),
            forall|e: Seq<char>| #[trigger] final(self)@.suppressed.contains(e) <==> old(self)@.suppressed.contains(e)
                || marked(old(self)@.index, slug@, old(self)@.index.len() as int, e),
            final(self)@.suppressed.to_set() == old(self)@.suppressed.to_set().union(slug_entries(old(self)@.index, slug@)),
    {
        let ghost v0 = self@;
        let mut i: usize = 0;
        while i < self.key_index.len()
            invariant
                i <= self.key_index@.len(),
                self@ == (ScannerView { suppressed: self@.suppressed, ..v0 }),
                forall|e: Seq<char>| #[trigger] self@.suppressed.contains(e) <==> v0.suppressed.contains(e)
                    || marked(v0.index, slug@, i as int, e),
            decreases self.key_index@.len() - i,
        {
            let mut hit = false;
            let mut k: usize = 0;
            let n = self.key_index[i].1.len();
            while k < n
                invariant
                    k <= n,
                    i < self.key_index@.len(),
                    n == self.key_index@[i as int].1@.len(),
                    hit <==> exists|b: int| 0 <= b < k && self.key_index@[i as int].1@[b].1@ == slug@,
                decreases n - k,
            {
                if str_eq(self.key_index[i].1[k].1.as_str(), slug) {
                    hit = true;
                }
                k = k + 1;
            }
            let ghost x = v0.index[i as int].0;
            proof {
                assert(x == self.key_index@[i as int].0@);
                assert(v0.index[i as int].1 == pairs_view(self.key_index@[i as int].1@));
                if hit {
                    let b = choose|b: int| 0 <= b < n && self.key_index@[i as int].1@[b].1@ == slug@;
                    assert(v0.index[i as int].1[b].1 == slug@);
                } else {
                    if has_slug(v0.index[i as int].1, slug@) {
                        let b = choose|b: int| 0 <= b < v0.index[i as int].1.len() && v0.index[i as int].1[b].1 == slug@;
                        assert(self.key_index@[i as int].1@[b].1@ == slug@);
                    }
                }
                assert(hit == has_slug(v0.index[i as int].1, slug@));
            }
            let ghost before = self@.suppressed;
            if hit {
                let exe = self.key_index[i].0.clone();
                let ghost bs = self.suppressed@;
                self.suppressed.push(exe);
                proof {
                    assert(strs(self.suppressed@) =~= strs(bs).push(x));
                }
            }
            proof {
                assert forall|e: Seq<char>| #[trigger] self@.suppressed.contains(e) <==> v0.suppressed.contains(e)
                    || marked(v0.index, slug@, i + 1, e) by {
                    if hit {
                        if e == x {
                            assert(self@.suppressed[before.len() as int] == e);
                        }
                        if self@.suppressed.contains(e) && e != x {
                            let j = choose|j: int| 0 <= j < self@.suppressed.len() && self@.suppressed[j] == e;
                            assert(before[j] == e);
                        }
                        if before.contains(e) {
                            let j = choose|j: int| 0 <= j < before.len() && before[j] == e;
                            assert(self@.suppressed[j] == e);
                        }
                    }
                    if marked(v0.index, slug@, i + 1, e) && !marked(v0.index, slug@, i as int, e) {
                        let a = choose|a: int| 0 <= a < i + 1 && v0.index[a].0 == e && #[trigger] has_slug(v0.index[a].1, slug@);
                        assert(a == i);
                    }
                    if marked(v0.index, slug@, i as int, e) {
                        let a = choose|a: int| 0 <= a < i && v0.index[a].0 == e && #[trigger] has_slug(v0.index[a].1, slug@);
                        assert(0 <= a < i + 1);
                    }
                    if hit && e == x {
                        assert(0 <= i < i + 1 && v0.index[i as int].0 == e && has_slug(v0.index[i as int].1, slug@));
                    }
                }
            }
            i = i + 1;
        }
        proof {
            assert(self@.suppressed.to_set() =~= v0.suppressed.to_set().union(slug_entries(v0.index, slug@)));
        }
    }
}

/// The catalogue entries with a pair for `slug`.
pub open spec fn slug_entries(index: IndexView, slug: Seq<char>) -> Set<Seq<char>> {
    Set::new(|e: Seq<char>| marked(index, slug, index.len() as int, e))
}

/// Whether one of the first `n` index entries holds the pair `p`.
pub open spec fn listed(index: IndexView, n: int, p: (Seq<char>, Seq<char>)) -> bool {
    exists|a: int| 0 <= a < n && #[trigger] index[a].1.contains(p)
}

/// No element is held twice.
pub open spec fn no_dups<E>(s: Seq<E>) -> bool {
    forall|i: int, j: int| 0 <= i < j < s.len() ==> s[i] != s[j]
}

impl ScannerState {
    /// All `(server_id, slug)` pairs that map to this slug, once each.
    pub fn servers_for_slug(&self, slug: &str) -> (r: Vec<(String, String)>)
        ensures
            no_dups(pairs_view(r@)),
            forall|p: (Seq<char>, Seq<char>)| #[trigger] pairs_view(r@).contains(p) <==> p.1 == slug@ && listed(
                self@.index,
                self@.index.len() as int,
                p,
            ),
    {
        let ghost v = self@;
        let mut out: Vec<(String, String)> = Vec::new();
        let mut i: usize = 0;
        while i < self.key_index.len()
            invariant
                i <= self.key_index@.len(),
                v == self@,
                no_dups(pairs_view(out@)),
                forall|p: (Seq<char>, Seq<char>)| #[trigger] pairs_view(out@).contains(p) <==> p.1 == slug@ && listed(v.index, i as int, p),
            decreases self.key_index@.len() - i,
        {
            let ghost ps = v.index[i as int].1;
            proof {
                assert(ps == pairs_view(self.key_index@[i as int].1@));
                assert(ps.take(0) =~= seq![]);
            }
            let mut k: usize = 0;
            while k < self.key_index[i].1.len()
                invariant
                    i < self.key_index@.len(),
                    k <= self.key_index@[i as int].1@.len(),
                    v == self@,
                    ps == v.index[i as int].1,
                    ps == pairs_view(self.key_index@[i as int].1@),
                    no_dups(pairs_view(out@)),
                    forall|p: (Seq<char>, Seq<char>)| #[trigger] pairs_view(out@).contains(p) <==> p.1 == slug@ && (listed(v.index, i as int, p) || ps.take(k as int).contains(p)),
                decreases self.key_index@[i as int].1@.len() - k,
            {
                let pair = &self.key_index[i].1[k];
                let ghost pv = (pair.0@, pair.1@);
                proof {
                    assert(ps[k as int] == pv);
                    assert(ps.take(k + 1) =~= ps.take(k as int).push(pv));
                }
                let ghost before = pairs_view(out@);
                if str_eq(pair.1.as_str(), slug) && !holds_pair(&out, pair.0.as_str(), pair.1.as_str()) {
                    out.push(copy_pair(pair));
                    proof {
                        assert(pairs_view(out@) =~= before.push(pv));
                        assert forall|a: int, b: int| 0 <= a < b < pairs_view(out@).len() implies pairs_view(out@)[a] != pairs_view(out@)[b] by {
                            if b == before.len() {
                                assert(before[a] == pairs_view(out@)[a]);
                            } else {
                                assert(before[a] == pairs_view(out@)[a]);
                                assert(before[b] == pairs_view(out@)[b]);
                            }
                        }
                    }
                }
                proof {
                    assert forall|p: (Seq<char>, Seq<char>)| #[trigger] pairs_view(out@).contains(p) <==> p.1 == slug@ && (listed(v.index, i as int, p) || ps.take(k + 1).contains(p)) by {
                        if ps.take(k + 1).contains(p) && !ps.take(k as int).contains(p) {
                            let j = choose|j: int| 0 <= j < k + 1 && #[trigger] ps.take(k + 1)[j] == p;
                            if j < k {
                                assert(ps.take(k as int)[j] == p);
                            }
                            assert(p == pv);
                        }
                        if ps.take(k as int).contains(p) {
                            let j = choose|j: int| 0 <= j < k && #[trigger] ps.take(k as int)[j] == p;
                            assert(ps.take(k + 1)[j] == p);
                        }
                        if p == pv {
                            assert(ps.take(k + 1)[k as int] == p);
                        }
                        if pairs_view(out@).contains(p) && !before.contains(p) {
                            let j = choose|j: int| 0 <= j < pairs_view(out@).len() && pairs_view(out@)[j] == p;
                            if j < before.len() {
                                assert(before[j] == p);
                            }
                        }
                        if before.contains(p) {
                            let j = choose|j: int| 0 <= j < before.len() && before[j] == p;
                            assert(pairs_view(out@)[j] == p);
                        }
                        if p == pv && pairs_view(out@).len() > before.len() {
                            assert(pairs_view(out@)[before.len() as int] == p);
                        }
                    }
                }
                k = k + 1;
            }
            proof {
                assert(ps.take(ps.len() as int) =~= ps);
                assert forall|p: (Seq<char>, Seq<char>)| #[trigger] pairs_view(out@).contains(p) <==> p.1 == slug@ && listed(v.index, i + 1, p) by {
                    if listed(v.index, i + 1, p) && !listed(v.index, i as int, p) {
                        let a = choose|a: int| 0 <= a < i + 1 && #[trigger] v.index[a].1.contains(p);
                        assert(a == i);
                    }
                    if listed(v.index, i as int, p) {
                        let a = choose|a: int| 0 <= a < i && #[trigger] v.index[a].1.contains(p);
                        assert(0 <= a < i + 1);
                    }
                    if ps.contains(p) {
                        assert(v.index[i as int].1.contains(p));
                    }
                }
            }
            i = i + 1;
        }
        out
    }
}

impl ScannerState {
    /// Where the index keeps this entry.
    fn entry_of(&self, exe: &str) -> (r: Option<usize>)
        ensures
            r matches Some(i) ==> key_pos(self@.index, exe@) == Some(i as int) && i < self.key_index@.len()
                && self@.index[i as int].1 == pairs_view(self.key_index@[i as int].1@),
            r is None ==> key_pos(self@.index, exe@) is None,
    {
        let r = position(&self.key_index, exe);
        proof {
            assert forall|j: int| 0 <= j < self.key_index@.len() implies #[trigger] self@.index[j].0 == self.key_index@[j].0@ by {}
            lemma_found(self.key_index@, self@.index, exe@, r);
        }
        r
    }

    /// Whether the member stopped this entry.
    fn is_suppressed(&self, exe: &str) -> (r: bool)
        ensures
            r == self@.suppressed.contains(exe@),
    {
        holds(&self.suppressed, exe)
    }

    /// Slugs of the given server's games that are currently running.
    pub fn running_for(&self, server_id: &str) -> (r: Vec<String>)
        ensures
            strs(r@) == running_for_spec(self@, self@.running, server_id@),
    {
        let ghost v = self@;
        let mut out: Vec<String> = Vec::new();
        let mut i: usize = 0;
        proof {
            assert(v.running.take(0) =~= seq![]);
            assert(strs(out@) =~= seq![]);
        }
        while i < self.running.len()
            invariant
                i <= self.running@.len(),
                v == self@,
                strs(out@) == running_for_spec(v, v.running.take(i as int), server_id@),
            decreases self.running@.len() - i,
        {
            let exe = self.running[i].as_str();
            proof {
                assert(v.running.take(i + 1).drop_last() =~= v.running.take(i as int));
                assert(v.running[i as int] == exe@);
            }
            if !self.is_suppressed(exe) {
                if let Some(e) = self.entry_of(exe) {
                    let ghost ps = v.index[e as int].1;
                    let ghost start = strs(out@);
                    let n = self.key_index[e].1.len();
                    let mut k: usize = 0;
                    proof {
                        assert(ps.take(0) =~= seq![]);
                        assert(start + slugs_for(ps.take(0), server_id@, v.ignored) =~= start);
                    }
                    while k < n
                        invariant
                            e < self.key_index@.len(),
                            n == self.key_index@[e as int].1@.len(),
                            k <= n,
                            v == self@,
                            ps == pairs_view(self.key_index@[e as int].1@),
                            strs(out@) == start + slugs_for(ps.take(k as int), server_id@, v.ignored),
                        decreases n - k,
                    {
                        let pair = &self.key_index[e].1[k];
                        proof {
                            assert(ps.take(k + 1).drop_last() =~= ps.take(k as int));
                            assert(ps[k as int] == (pair.0@, pair.1@));
                        }
                        let ghost before = strs(out@);
                        if str_eq(pair.0.as_str(), server_id) && !holds_pair(&self.ignored, pair.0.as_str(), pair.1.as_str()) {
                            out.push(pair.1.clone());
                            proof {
                                assert(strs(out@) =~= before.push(pair.1@));
                            }
                        }
                        proof {
                            assert(strs(out@) =~= start + slugs_for(ps.take(k + 1), server_id@, v.ignored));
                        }
                        k = k + 1;
                    }
                    proof {
                        assert(ps.take(n as int) =~= ps);
                    }
                }
            }
            i = i + 1;
        }
        proof {
            assert(v.running.take(v.running.len() as int) =~= v.running);
        }
        out
    }
}

/// The slugs of a list of `(slug, name)`.
pub open spec fn firsts(s: Seq<(Seq<char>, Seq<char>)>) -> Seq<Seq<char>> {
    s.map_values(|e: (Seq<char>, Seq<char>)| e.0)
}

impl ScannerState {
    /// The slug of the first pair of entry `e` that is not ignored.
    fn first_shown_of(&self, e: usize) -> (r: Option<String>)
        requires
            e < self.key_index@.len(),
        ensures
            match r {
                Some(s) => first_shown(self@.index[e as int].1, self@.ignored) == Some(s@),
                None => first_shown(self@.index[e as int].1, self@.ignored) is None,
            },
    {
        let ghost ps = self@.index[e as int].1;
        let n = self.key_index[e].1.len();
        let mut k: usize = 0;
        proof {
            assert(ps.skip(0) =~= ps);
        }
        while k < n
            invariant
                e < self.key_index@.len(),
                n == self.key_index@[e as int].1@.len(),
                k <= n,
                ps == self@.index[e as int].1,
                ps == pairs_view(self.key_index@[e as int].1@),
                first_shown(ps, self@.ignored) == first_shown(ps.skip(k as int), self@.ignored),
            decreases n - k,
        {
            let pair = &self.key_index[e].1[k];
            proof {
                assert(ps[k as int] == (pair.0@, pair.1@));
                assert(ps.skip(k as int)[0] == ps[k as int]);
                assert(ps.skip(k as int).drop_first() =~= ps.skip(k + 1));
            }
            if !holds_pair(&self.ignored, pair.0.as_str(), pair.1.as_str()) {
                return Some(pair.1.clone());
            }
            k = k + 1;
        }
        None
    }

    /// A game's display name, its slug when the catalogue names none.
    fn display_name(&self, slug: &str) -> (r: String)
        ensures
            r@ == name_of(self@, slug@),
    {
        let r = position(&self.names, slug);
        proof {
            assert forall|j: int| 0 <= j < self.names@.len() implies #[trigger] self@.names[j].0 == self.names@[j].0@ by {}
            lemma_found(self.names@, self@.names, slug@, r);
        }
        match r {
            Some(i) => self.names[i].1.clone(),
            None => slug.to_owned(),
        }
    }

    /// Currently-running games as `(slug, name)` for the UI, one per game.
    pub fn running_games(&self) -> (r: Vec<(String, String)>)
        ensures
            pairs_view(r@) == running_games_spec(self@, self@.running),
    {
        let ghost v = self@;
        let mut out: Vec<(String, String)> = Vec::new();
        let mut seen: Vec<String> = Vec::new();
        let mut i: usize = 0;
        proof {
            assert(v.running.take(0) =~= seq![]);
            assert(pairs_view(out@) =~= seq![]);
            assert(strs(seen@) =~= seq![]);
        }
        while i < self.running.len()
            invariant
                i <= self.running@.len(),
                v == self@,
                pairs_view(out@) == running_games_spec(v, v.running.take(i as int)),
                strs(seen@) == firsts(pairs_view(out@)),
            decreases self.running@.len() - i,
        {
            let exe = self.running[i].as_str();
            proof {
                assert(v.running.take(i + 1).drop_last() =~= v.running.take(i as int));
                assert(v.running[i as int] == exe@);
            }
            if !self.is_suppressed(exe) {
                if let Some(e) = self.entry_of(exe) {
                    if let Some(slug) = self.first_shown_of(e) {
                        if !holds(&seen, slug.as_str()) {
                            let name = self.display_name(slug.as_str());
                            let ghost before = pairs_view(out@);
                            let ghost bs = seen@;
                            seen.push(slug.clone());
                            out.push((slug, name));
                            proof {
                                assert(pairs_view(out@) =~= before.push((slug@, name@)));
                                assert(strs(seen@) =~= strs(bs).push(slug@));
                                assert(firsts(pairs_view(out@)) =~= firsts(before).push(slug@));
                            }
                        }
                    }
                }
            }
            i = i + 1;
        }
        proof {
            assert(v.running.take(v.running.len() as int) =~= v.running);
        }
        out
    }

    /// Catalogue keys a running process matches: its basename when the
    /// catalogue knows it, plus every qualified pattern whose suffix the
    /// process path satisfies. `path` is `None` when the executable path could
    /// not be read, and then only the basename counts.
    pub fn process_keys(&self, name: &str, path: Option<&str>) -> (r: Vec<String>)
        ensures
            strs(r@) == process_keys_spec(self@, name@, match path {
                Some(p) => Some(p@),
                None => None,
            }),
    {
        let mut keys: Vec<String> = Vec::new();
        let ghost by_name: Seq<Seq<char>> = if key_pos(self@.index, name@) is Some { seq![name@] } else { seq![] };
        if self.entry_of(name).is_some() {
            keys.push(name.to_owned());
        }
        proof {
            assert(strs(keys@) =~= by_name);
        }
        let pr = position(&self.patterns_by_basename, name);
        proof {
            assert forall|j: int| 0 <= j < self.patterns_by_basename@.len() implies #[trigger] self@.patterns[j].0
                == self.patterns_by_basename@[j].0@ by {}
            lemma_found(self.patterns_by_basename@, self@.patterns, name@, pr);
        }
        match (path, pr) {
            (Some(p), Some(b)) => {
                let ghost cands = self@.patterns[b as int].1;
                let n = self.patterns_by_basename[b].1.len();
                let mut k: usize = 0;
                proof {
                    assert(cands == strs(self.patterns_by_basename@[b as int].1@));
                    assert(cands.take(0) =~= seq![]);
                    reveal(Seq::filter);
                    assert(cands.take(0).filter(|c: Seq<char>| spec_matches_pattern(p@, c)) =~= seq![]);
                    assert(strs(keys@) =~= by_name + cands.take(0).filter(|c: Seq<char>| spec_matches_pattern(p@, c)));
                }
                while k < n
                    invariant
                        b < self.patterns_by_basename@.len(),
                        n == self.patterns_by_basename@[b as int].1@.len(),
                        k <= n,
                        cands == strs(self.patterns_by_basename@[b as int].1@),
                        strs(keys@) == by_name + cands.take(k as int).filter(|c: Seq<char>| spec_matches_pattern(p@, c)),
                    decreases n - k,
                {
                    let c = self.patterns_by_basename[b].1[k].as_str();
                    proof {
                        assert(cands[k as int] == c@);
                        assert(cands.take(k + 1).drop_last() =~= cands.take(k as int));
                        reveal(Seq::filter);
                        assert(cands.take(k + 1).last() == c@);
                    }
                    let ghost before = strs(keys@);
                    if matches_pattern(p, c) {
                        keys.push(c.to_owned());
                        proof {
                            assert(strs(keys@) =~= before.push(c@));
                        }
                    }
                    proof {
                        assert(strs(keys@) =~= by_name + cands.take(k + 1).filter(|c: Seq<char>| spec_matches_pattern(p@, c)));
                    }
                    k = k + 1;
                }
                proof {
                    assert(cands.take(n as int) =~= cands);
                }
            },
            _ => {
                proof {
                    assert(strs(keys@) =~= by_name + Seq::<Seq<char>>::empty());
                }
            },
        }
        keys
    }
}

// ---------------------------------------------------------------------------
// Which games count as played

/// How many consecutive scans of genuinely low CPU drop a game.
pub const IDLE_SCANS_TO_DROP: u32 = 3;

/// The idle counts as a map.
pub open spec fn idle_map(s: Seq<(Seq<char>, u32)>) -> Map<Seq<char>, u32> {
    Map::new(|k: Seq<char>| key_pos(s, k) is Some, |k: Seq<char>| lookup(s, k)->0)
}

/// No key is held twice.
pub open spec fn unique_keys<V>(s: Seq<(Seq<char>, V)>) -> bool {
    forall|i: int, j: int| 0 <= i < j < s.len() ==> s[i].0 != s[j].0
}

/// With unique keys, `key_pos` finds the one entry with the key.
proof fn lemma_unique_pos<V>(s: Seq<(Seq<char>, V)>, k: Seq<char>, j: int)
    requires
        unique_keys(s),
        0 <= j < s.len(),
        s[j].0 == k,
    ensures
        key_pos(s, k) == Some(j),
{
    assert forall|a: int| 0 <= a < j implies s[a].0 != k by {}
    lemma_key_pos_first(s, k, j);
}

proof fn lemma_map_entry<V>(s: Seq<(Seq<char>, V)>, k: Seq<char>)
    requires
        unique_keys(s),
    ensures
        key_pos(s, k) is Some <==> exists|j: int| 0 <= j < s.len() && s[j].0 == k,
        forall|j: int| 0 <= j < s.len() && s[j].0 == k ==> lookup(s, k) == Some(s[j].1),
{
    lemma_key_pos(s, k);
    assert forall|j: int| 0 <= j < s.len() && s[j].0 == k implies lookup(s, k) == Some(s[j].1) by {
        lemma_unique_pos(s, k, j);
    }
}

proof fn lemma_remove_entry(s: Seq<(Seq<char>, u32)>, i: int)
    requires
        unique_keys(s),
        0 <= i < s.len(),
    ensures
        unique_keys(s.remove(i)),
        idle_map(s.remove(i)) == idle_map(s).remove(s[i].0),
{
    let t = s.remove(i);
    assert forall|a: int, b: int| 0 <= a < b < t.len() implies t[a].0 != t[b].0 by {
        if a < i && b >= i {
            assert(t[b] == s[b + 1]);
        } else if a >= i {
            assert(t[a] == s[a + 1] && t[b] == s[b + 1]);
        }
    }
    assert forall|k: Seq<char>| #[trigger] idle_map(t).dom().contains(k) == idle_map(s).remove(s[i].0).dom().contains(k) && (idle_map(t).dom().contains(k) ==> idle_map(t)[k] == idle_map(s)[k]) by {
        lemma_map_entry(s, k);
        lemma_map_entry(t, k);
        if key_pos(t, k) is Some {
            let j = choose|j: int| 0 <= j < t.len() && t[j].0 == k;
            if j < i {
                assert(t[j] == s[j]);
            } else {
                assert(t[j] == s[j + 1]);
            }
        }
        if key_pos(s, k) is Some && k != s[i].0 {
            let j = choose|j: int| 0 <= j < s.len() && s[j].0 == k;
            if j < i {
                assert(t[j] == s[j]);
            } else {
                assert(j > i);
                assert(t[j - 1] == s[j]);
            }
        }
    }
    assert(idle_map(t) =~= idle_map(s).remove(s[i].0));
}

proof fn lemma_set_entry(s: Seq<(Seq<char>, u32)>, i: int, k: Seq<char>, v: u32)
    requires
        unique_keys(s),
        0 <= i < s.len(),
        s[i].0 == k,
    ensures
        unique_keys(s.update(i, (k, v))),
        idle_map(s.update(i, (k, v))) == idle_map(s).insert(k, v),
{
    let t = s.update(i, (k, v));
    assert forall|a: int, b: int| 0 <= a < b < t.len() implies t[a].0 != t[b].0 by {
        assert(t[a].0 == s[a].0 && t[b].0 == s[b].0);
    }
    assert forall|x: Seq<char>| #[trigger] idle_map(t).dom().contains(x) == idle_map(s).insert(k, v).dom().contains(x) && (idle_map(t).dom().contains(x) ==> idle_map(t)[x] == idle_map(s).insert(k, v)[x]) by {
        lemma_map_entry(s, x);
        lemma_map_entry(t, x);
        if key_pos(t, x) is Some {
            let j = choose|j: int| 0 <= j < t.len() && t[j].0 == x;
            assert(s[j].0 == x);
        }
        if key_pos(s, x) is Some {
            let j = choose|j: int| 0 <= j < s.len() && s[j].0 == x;
            assert(t[j].0 == x);
        }
        if x == k {
            assert(t[i].0 == x);
        }
    }
    assert(idle_map(t) =~= idle_map(s).insert(k, v));
}

proof fn lemma_push_entry(s: Seq<(Seq<char>, u32)>, k: Seq<char>, v: u32)
    requires
        unique_keys(s),
        key_pos(s, k) is None,
    ensures
        unique_keys(s.push((k, v))),
        idle_map(s.push((k, v))) == idle_map(s).insert(k, v),
{
    let t = s.push((k, v));
    lemma_key_pos(s, k);
    assert forall|a: int, b: int| 0 <= a < b < t.len() implies t[a].0 != t[b].0 by {
        assert(t[a] == s[a]);
    }
    assert forall|x: Seq<char>| #[trigger] idle_map(t).dom().contains(x) == idle_map(s).insert(k, v).dom().contains(x) && (idle_map(t).dom().contains(x) ==> idle_map(t)[x] == idle_map(s).insert(k, v)[x]) by {
        lemma_map_entry(s, x);
        lemma_map_entry(t, x);
        if key_pos(t, x) is Some && x != k {
            let j = choose|j: int| 0 <= j < t.len() && t[j].0 == x;
            assert(j < s.len());
            assert(s[j].0 == x);
        }
        if key_pos(s, x) is Some {
            let j = choose|j: int| 0 <= j < s.len() && s[j].0 == x;
            assert(t[j].0 == x);
        }
        if x == k {
            assert(t[s.len() as int].0 == x);
        }
    }
    assert(idle_map(t) =~= idle_map(s).insert(k, v));
}

/// Consecutive low-CPU scans per catalogue entry.
pub struct IdleCounter {
    counts: Vec<(String, u32)>,
}

impl IdleCounter {
    #[verifier::type_invariant]
    spec fn keys_unique(&self) -> bool {
        unique_keys(counts_view(self.counts@))
    }
}

/// The counts as text.
pub open spec fn counts_view(v: Seq<(String, u32)>) -> Seq<(Seq<char>, u32)> {
    v.map_values(|e: (String, u32)| (e.0@, e.1))
}

impl View for IdleCounter {
    type V = Map<Seq<char>, u32>;

    closed spec fn view(&self) -> Map<Seq<char>, u32> {
        idle_map(counts_view(self.counts@))
    }
}

impl IdleCounter {
    /// No entry counted yet.
    pub fn new() -> (c: Self)
        ensures
            c@ == Map::<Seq<char>, u32>::empty(),
    {
        let v: Vec<(String, u32)> = Vec::new();
        proof {
            assert(counts_view(v@) =~= seq![]);
            assert(idle_map(counts_view(v@)) =~= Map::<Seq<char>, u32>::empty());
        }
        IdleCounter { counts: v }
    }

    /// Whether no entry is being counted.
    pub fn is_empty(&self) -> (r: bool)
        ensures
            r == (self@.dom() =~= Set::<Seq<char>>::empty()),
    {
        proof {
            let cv = counts_view(self.counts@);
            if cv.len() > 0 {
                lemma_key_pos(cv, cv[0].0);
                assert(self@.dom().contains(cv[0].0));
            } else {
                assert forall|k: Seq<char>| !self@.dom().contains(k) by {}
            }
        }
        self.counts.len() == 0
    }

    /// The count for this entry, if any.
    pub fn count(&self, exe: &str) -> (r: Option<u32>)
        ensures
            r == (if self@.dom().contains(exe@) { Some(self@[exe@]) } else { None }),
    {
        let r = position(&self.counts, exe);
        proof {
            assert forall|j: int| 0 <= j < self.counts@.len() implies #[trigger] counts_view(self.counts@)[j].0 == self.counts@[j].0@ by {}
            lemma_found(self.counts@, counts_view(self.counts@), exe@, r);
        }
        match r {
            Some(i) => Some(self.counts[i].1),
            None => None,
        }
    }

    /// Forgets this entry.
    pub fn remove(&mut self, exe: &str)
        ensures
            final(self)@ == old(self)@.remove(exe@),
    {
        proof {
            use_type_invariant(&*self);
        }
        let ghost old_v = counts_view(self.counts@);
        let r = position(&self.counts, exe);
        proof {
            assert forall|j: int| 0 <= j < self.counts@.len() implies #[trigger] old_v[j].0 == self.counts@[j].0@ by {}
            lemma_found(self.counts@, old_v, exe@, r);
            lemma_key_pos(old_v, exe@);
        }
        match r {
            Some(i) => {
                proof {
                    lemma_remove_entry(old_v, i as int);
                }
                let mut v: Vec<(String, u32)> = Vec::new();
                proof {
                    assert(counts_view(v@) =~= seq![]);
                }
                std::mem::swap(&mut v, &mut self.counts);
                v.remove(i);
                proof {
                    assert(counts_view(v@) =~= old_v.remove(i as int));
                }
                self.counts = v;
            },
            None => {
                proof {
                    assert(idle_map(old_v) =~= idle_map(old_v).remove(exe@));
                }
            },
        }
    }
}

impl IdleCounter {
    /// Sets the count of this entry.
    pub fn set(&mut self, exe: &str, n: u32)
        ensures
            final(self)@ == old(self)@.insert(exe@, n),
    {
        proof {
            use_type_invariant(&*self);
        }
        let ghost old_v = counts_view(self.counts@);
        let r = position(&self.counts, exe);
        proof {
            assert forall|j: int| 0 <= j < self.counts@.len() implies #[trigger] old_v[j].0 == self.counts@[j].0@ by {}
            lemma_found(self.counts@, old_v, exe@, r);
        }
        let mut v: Vec<(String, u32)> = Vec::new();
        proof {
            assert(counts_view(v@) =~= seq![]);
        }
        std::mem::swap(&mut v, &mut self.counts);
        match r {
            Some(i) => {
                proof {
                    lemma_set_entry(old_v, i as int, exe@, n);
                }
                v.set(i, (exe.to_owned(), n));
                proof {
                    assert(counts_view(v@) =~= old_v.update(i as int, (exe@, n)));
                }
            },
            None => {
                proof {
                    lemma_push_entry(old_v, exe@, n);
                }
                v.push((exe.to_owned(), n));
                proof {
                    assert(counts_view(v@) =~= old_v.push((exe@, n)));
                }
            },
        }
        self.counts = v;
    }

    /// Keeps the counts of these entries only.
    pub fn retain(&mut self, keep: &Vec<String>)
        ensures
            final(self)@ == old(self)@.restrict(strs(keep@).to_set()),
    {
        proof {
            use_type_invariant(&*self);
        }
        let ghost old_v = counts_view(self.counts@);
        let ghost ks = strs(keep@).to_set();
        let mut out: Vec<(String, u32)> = Vec::new();
        let ghost mut from: Seq<int> = seq![];
        let mut i: usize = 0;
        proof {
            assert(counts_view(out@) =~= seq![]);
        }
        while i < self.counts.len()
            invariant
                i <= self.counts@.len(),
                old_v == counts_view(self.counts@),
                ks == strs(keep@).to_set(),
                unique_keys(old_v),
                from.len() == out@.len(),
                forall|j: int| 0 <= j < from.len() ==> 0 <= #[trigger] from[j] < i && old_v[from[j]] == counts_view(out@)[j]
                    && ks.contains(old_v[from[j]].0),
                forall|j: int, k: int| 0 <= j < k < from.len() ==> #[trigger] from[j] < #[trigger] from[k],
                forall|a: int| 0 <= a < i && ks.contains(old_v[a].0) ==> exists|j: int| 0 <= j < from.len() && #[trigger] from[j] == a,
            decreases self.counts@.len() - i,
        {
            let e = &self.counts[i];
            let ghost ev = old_v[i as int];
            proof {
                assert(ev == (e.0@, e.1));
            }
            let ghost before = counts_view(out@);
            let ghost fb = from;
            if holds(keep, e.0.as_str()) {
                out.push((e.0.clone(), e.1));
                proof {
                    from = from.push(i as int);
                    assert(counts_view(out@) =~= before.push(ev));
                    assert forall|a: int| 0 <= a < i + 1 && ks.contains(old_v[a].0) implies exists|j: int| 0 <= j < from.len() && #[trigger] from[j] == a by {
                        if a < i {
                            let j = choose|j: int| 0 <= j < fb.len() && #[trigger] fb[j] == a;
                            assert(from[j] == a);
                        } else {
                            assert(from[fb.len() as int] == a);
                        }
                    }
                }
            } else {
                proof {
                    assert(!strs(keep@).contains(e.0@));
                    assert forall|a: int| 0 <= a < i + 1 && ks.contains(old_v[a].0) implies exists|j: int| 0 <= j < from.len() && #[trigger] from[j] == a by {
                        assert(a < i);
                    }
                }
            }
            i = i + 1;
        }
        let ghost nv = counts_view(out@);
        proof {
            assert forall|a: int, b: int| 0 <= a < b < nv.len() implies nv[a].0 != nv[b].0 by {
                assert(from[a] < from[b]);
                assert(nv[a] == old_v[from[a]]);
                assert(nv[b] == old_v[from[b]]);
            }
            assert forall|k: Seq<char>| #[trigger] idle_map(nv).dom().contains(k) == idle_map(old_v).restrict(ks).dom().contains(k) && (idle_map(nv).dom().contains(k) ==> idle_map(nv)[k] == idle_map(old_v)[k]) by {
                lemma_map_entry(old_v, k);
                lemma_map_entry(nv, k);
                if key_pos(nv, k) is Some {
                    let j = choose|j: int| 0 <= j < nv.len() && nv[j].0 == k;
                    assert(old_v[from[j]] == nv[j]);
                }
                if key_pos(old_v, k) is Some && ks.contains(k) {
                    let a = choose|a: int| 0 <= a < old_v.len() && old_v[a].0 == k;
                    let j = choose|j: int| 0 <= j < from.len() && #[trigger] from[j] == a;
                    assert(nv[j].0 == k);
                }
            }
            assert(idle_map(nv) =~= idle_map(old_v).restrict(ks));
        }
        self.counts = out;
    }
}

/// One more scan counted, without wrapping.
pub open spec fn bumped(n: u32) -> u32 {
    if n == u32::MAX {
        n
    } else {
        (n + 1) as u32
    }
}

/// Whether a matched entry counts as played this scan, and its idle count
/// afterwards. CPU activity (or a reading of exactly zero, which anti-cheat
/// protected games give an unprivileged scanner) and a new launch count as
/// active and reset the count; otherwise the count grows, and the entry
/// stays played until it reaches `IDLE_SCANS_TO_DROP`.
pub open spec fn spec_is_active(idle: Map<Seq<char>, u32>, exe: Seq<char>, present_before: bool, cpu_active: bool) -> (bool, Map<Seq<char>, u32>) {
    if cpu_active || !present_before {
        (true, idle.remove(exe))
    } else {
        let n = bumped(if idle.dom().contains(exe) { idle[exe] } else { 0 });
        (n < IDLE_SCANS_TO_DROP, idle.insert(exe, n))
    }
}

/// Whether a matched entry counts as "playing". `cpu_active` tells whether
/// its summed CPU reading is at or above the threshold, or exactly zero.
pub fn is_active(exe: &str, present_before: bool, cpu_active: bool, idle: &mut IdleCounter) -> (r: bool)
    ensures
        (r, final(idle)@) == spec_is_active(old(idle)@, exe@, present_before, cpu_active),
{
    if cpu_active || !present_before {
        idle.remove(exe);
        return true;
    }
    let n = match idle.count(exe) {
        Some(c) => c,
        None => 0,
    };
    let m = if n == u32::MAX { n } else { n + 1 };
    idle.set(exe, m);
    m < IDLE_SCANS_TO_DROP
}

// ---------------------------------------------------------------------------
// One scan

/// A start or stop to report to one server.
#[derive(Debug, Clone)]
pub struct ScanEvent {
    pub started: bool,
    pub server_id: String,
    pub game_slug: String,
}

pub open spec fn events_view(v: Seq<ScanEvent>) -> Seq<(bool, Seq<char>, Seq<char>)> {
    v.map_values(|e: ScanEvent| (e.started, e.server_id@, e.game_slug@))
}

/// The present entries, each with whether its CPU reading counts as active.
pub open spec fn present_view(v: Seq<(String, bool)>) -> Seq<(Seq<char>, bool)> {
    v.map_values(|e: (String, bool)| (e.0@, e.1))
}

/// The entries played this scan, in the order they are present, and the
/// idle counts after weighing each: an entry is played when it counts as
/// active and the member has not stopped it.
pub open spec fn scan_active(v: ScannerView, idle: Map<Seq<char>, u32>, prev: Seq<Seq<char>>, present: Seq<(Seq<char>, bool)>) -> (Seq<Seq<char>>, Map<Seq<char>, u32>)
    decreases present.len(),
{
    if present.len() == 0 {
        (seq![], idle)
    } else {
        let p = scan_active(v, idle, prev, present.drop_last());
        let e = present.last();
        let a = spec_is_active(p.1, e.0, prev.contains(e.0), e.1);
        (if a.0 && !v.suppressed.contains(e.0) { p.0.push(e.0) } else { p.0 }, a.1)
    }
}

/// The events for these pairs, the ignored ones left out.
pub open spec fn events_of(ps: Seq<(Seq<char>, Seq<char>)>, ignored: Seq<(Seq<char>, Seq<char>)>, started: bool) -> Seq<(bool, Seq<char>, Seq<char>)>
    decreases ps.len(),
{
    if ps.len() == 0 {
        seq![]
    } else {
        let prev = events_of(ps.drop_last(), ignored, started);
        if ignored.contains(ps.last()) {
            prev
        } else {
            prev.push((started, ps.last().0, ps.last().1))
        }
    }
}

/// Each entry's start or stop, fanned out to every server that knows it.
pub open spec fn fan_out(v: ScannerView, exes: Seq<Seq<char>>, started: bool) -> Seq<(bool, Seq<char>, Seq<char>)>
    decreases exes.len(),
{
    if exes.len() == 0 {
        seq![]
    } else {
        let prev = fan_out(v, exes.drop_last(), started);
        match lookup(v.index, exes.last()) {
            None => prev,
            Some(ps) => prev + events_of(ps, v.ignored, started),
        }
    }
}

/// The keys of the present entries.
pub open spec fn present_keys(present: Seq<(Seq<char>, bool)>) -> Seq<Seq<char>> {
    present.map_values(|e: (Seq<char>, bool)| e.0)
}

/// The entries newly played: played now, not running before.
pub open spec fn started_of(eff: Seq<Seq<char>>, running: Seq<Seq<char>>) -> Seq<Seq<char>> {
    eff.filter(|e: Seq<char>| !running.contains(e))
}

/// The entries no longer played: running before, not played now.
pub open spec fn stopped_of(eff: Seq<Seq<char>>, running: Seq<Seq<char>>) -> Seq<Seq<char>> {
    running.filter(|e: Seq<char>| !eff.contains(e))
}

impl ScannerState {
    /// Whether the index knows no entry yet.
    pub fn catalog_is_empty(&self) -> (r: bool)
        ensures
            r == (self@.index.len() == 0),
    {
        self.key_index.len() == 0
    }

    /// The events for the pairs of entry `exe`, appended to `out`.
    fn push_events(&self, exe: &str, started: bool, out: &mut Vec<ScanEvent>)
        ensures
            events_view(final(out)@) == events_view(old(out)@) + match lookup(self@.index, exe@) {
                None => seq![],
                Some(ps) => events_of(ps, self@.ignored, started),
            },
    {
        let ghost start = events_view(out@);
        match self.entry_of(exe) {
            None => {
                proof {
                    assert(events_view(out@) =~= start + seq![]);
                }
            },
            Some(e) => {
                let ghost ps = self@.index[e as int].1;
                let n = self.key_index[e].1.len();
                let mut k: usize = 0;
                proof {
                    assert(ps.take(0) =~= seq![]);
                    assert(events_view(out@) =~= start + events_of(ps.take(0), self@.ignored, started));
                }
                while k < n
                    invariant
                        e < self.key_index@.len(),
                        n == self.key_index@[e as int].1@.len(),
                        k <= n,
                        ps == pairs_view(self.key_index@[e as int].1@),
                        events_view(out@) == start + events_of(ps.take(k as int), self@.ignored, started),
                    decreases n - k,
                {
                    let pair = &self.key_index[e].1[k];
                    proof {
                        assert(ps.take(k + 1).drop_last() =~= ps.take(k as int));
                        assert(ps[k as int] == (pair.0@, pair.1@));
                    }
                    let ghost before = events_view(out@);
                    if !holds_pair(&self.ignored, pair.0.as_str(), pair.1.as_str()) {
                        out.push(ScanEvent { started, server_id: pair.0.clone(), game_slug: pair.1.clone() });
                        proof {
                            assert(events_view(out@) =~= before.push((started, pair.0@, pair.1@)));
                        }
                    }
                    proof {
                        assert(events_view(out@) =~= start + events_of(ps.take(k + 1), self@.ignored, started));
                    }
                    k = k + 1;
                }
                proof {
                    assert(ps.take(n as int) =~= ps);
                }
            },
        }
    }

    /// One scan: weighs each present entry, forgets the stops and idle counts
    /// of the entries whose process exited, and reports what started and what
    /// stopped to every server that knows it, the ignored pairs left out.
    /// `prev_present` is the raw presence of the previous scan.
    pub fn scan(&mut self, idle: &mut IdleCounter, prev_present: &Vec<String>, present: &Vec<(String, bool)>) -> (events: Vec<ScanEvent>)
        ensures
            ({
                let a = scan_active(old(self)@, old(idle)@, strs(prev_present@), present_view(present@));
                let keys = present_keys(present_view(present@));
                &&& final(idle)@ == a.1.restrict(keys.to_set())
                &&& final(self)@ == (ScannerView {
                    running: a.0,
                    suppressed: old(self)@.suppressed.filter(|e: Seq<char>| keys.contains(e)),
                    ..old(self)@
                })
                &&& events_view(events@) == fan_out(old(self)@, started_of(a.0, old(self)@.running), true) + fan_out(
                    old(self)@,
                    stopped_of(a.0, old(self)@.running),
                    false,
                )
            }),
    {
        let ghost v0 = self@;
        let ghost pv = present_view(present@);
        let ghost prev = strs(prev_present@);
        let mut eff: Vec<String> = Vec::new();
        let mut keys: Vec<String> = Vec::new();
        let mut i: usize = 0;
        proof {
            assert(pv.take(0) =~= seq![]);
            assert(strs(eff@) =~= seq![]);
            assert(strs(keys@) =~= seq![]);
        }
        while i < present.len()
            invariant
                i <= present@.len(),
                v0 == self@,
                pv == present_view(present@),
                prev == strs(prev_present@),
                (strs(eff@), idle@) == scan_active(v0, old(idle)@, prev, pv.take(i as int)),
                strs(keys@) == present_keys(pv.take(i as int)),
            decreases present@.len() - i,
        {
            let e = present[i].0.as_str();
            let cpu = present[i].1;
            proof {
                assert(pv.take(i + 1).drop_last() =~= pv.take(i as int));
                assert(pv[i as int] == (e@, cpu));
            }
            let before_present = holds(prev_present, e);
            let ghost be = strs(eff@);
            let ghost bk = strs(keys@);
            let act = is_active(e, before_present, cpu, idle);
            if act && !self.is_suppressed(e) {
                eff.push(e.to_owned());
                proof {
                    assert(strs(eff@) =~= be.push(e@));
                }
            }
            keys.push(e.to_owned());
            proof {
                assert(strs(keys@) =~= bk.push(e@));
                assert(present_keys(pv.take(i + 1)) =~= present_keys(pv.take(i as int)).push(e@));
            }
            i = i + 1;
        }
        proof {
            assert(pv.take(pv.len() as int) =~= pv);
        }
        let ghost a = scan_active(v0, old(idle)@, prev, pv);
        let ghost ks = present_keys(pv);
        idle.retain(&keys);
        // Stops forgotten for the entries whose process exited.
        let mut kept: Vec<String> = Vec::new();
        let mut j: usize = 0;
        proof {
            reveal(Seq::filter);
            assert(v0.suppressed.take(0).filter(|e: Seq<char>| ks.contains(e)) =~= seq![]);
            assert(strs(kept@) =~= seq![]);
        }
        while j < self.suppressed.len()
            invariant
                j <= self.suppressed@.len(),
                v0 == self@,
                ks == strs(keys@),
                strs(kept@) == v0.suppressed.take(j as int).filter(|e: Seq<char>| ks.contains(e)),
            decreases self.suppressed@.len() - j,
        {
            let x = self.suppressed[j].as_str();
            proof {
                reveal(Seq::filter);
                assert(v0.suppressed[j as int] == x@);
                assert(v0.suppressed.take(j + 1).drop_last() =~= v0.suppressed.take(j as int));
                assert(v0.suppressed.take(j + 1).last() == x@);
            }
            let ghost bk = strs(kept@);
            if holds(&keys, x) {
                kept.push(x.to_owned());
                proof {
                    assert(strs(kept@) =~= bk.push(x@));
                }
            }
            j = j + 1;
        }
        proof {
            assert(v0.suppressed.take(v0.suppressed.len() as int) =~= v0.suppressed);
        }
        // What started, then what stopped.
        let mut events: Vec<ScanEvent> = Vec::new();
        let ghost st = started_of(a.0, v0.running);
        let mut k: usize = 0;
        proof {
            reveal(Seq::filter);
            assert(a.0.take(0).filter(|e: Seq<char>| !v0.running.contains(e)) =~= seq![]);
            assert(events_view(events@) =~= seq![]);
        }
        while k < eff.len()
            invariant
                k <= eff@.len(),
                v0 == self@,
                strs(eff@) == a.0,
                events_view(events@) == fan_out(v0, a.0.take(k as int).filter(|e: Seq<char>| !v0.running.contains(e)), true),
            decreases eff@.len() - k,
        {
            let x = eff[k].as_str();
            proof {
                reveal(Seq::filter);
                assert(a.0[k as int] == x@);
                assert(a.0.take(k + 1).drop_last() =~= a.0.take(k as int));
                assert(a.0.take(k + 1).last() == x@);
            }
            let ghost f = a.0.take(k as int).filter(|e: Seq<char>| !v0.running.contains(e));
            proof {
                reveal(Seq::filter);
                assert(f.push(x@).drop_last() =~= f);
            }
            if !holds(&self.running, x) {
                self.push_events(x, true, &mut events);
                proof {
                    assert(a.0.take(k + 1).filter(|e: Seq<char>| !v0.running.contains(e)) == f.push(x@));
                }
            } else {
                proof {
                    assert(a.0.take(k + 1).filter(|e: Seq<char>| !v0.running.contains(e)) == f);
                }
            }
            k = k + 1;
        }
        proof {
            assert(a.0.take(a.0.len() as int) =~= a.0);
        }
        let ghost first = events_view(events@);
        let mut m: usize = 0;
        proof {
            reveal(Seq::filter);
            assert(v0.running.take(0).filter(|e: Seq<char>| !a.0.contains(e)) =~= seq![]);
            assert(events_view(events@) =~= first + fan_out(v0, seq![], false));
        }
        while m < self.running.len()
            invariant
                m <= self.running@.len(),
                v0 == self@,
                strs(eff@) == a.0,
                events_view(events@) == first + fan_out(v0, v0.running.take(m as int).filter(|e: Seq<char>| !a.0.contains(e)), false),
            decreases self.running@.len() - m,
        {
            let x = self.running[m].as_str();
            proof {
                reveal(Seq::filter);
                assert(v0.running[m as int] == x@);
                assert(v0.running.take(m + 1).drop_last() =~= v0.running.take(m as int));
                assert(v0.running.take(m + 1).last() == x@);
            }
            let ghost be = events_view(events@);
            let ghost f = v0.running.take(m as int).filter(|e: Seq<char>| !a.0.contains(e));
            proof {
                reveal(Seq::filter);
                assert(f.push(x@).drop_last() =~= f);
            }
            if !holds(&eff, x) {
                self.push_events(x, false, &mut events);
                proof {
                    assert(v0.running.take(m + 1).filter(|e: Seq<char>| !a.0.contains(e)) == f.push(x@));
                    assert(events_view(events@) =~= first + fan_out(v0, v0.running.take(m + 1).filter(|e: Seq<char>| !a.0.contains(e)), false));
                }
            } else {
                proof {
                    assert(v0.running.take(m + 1).filter(|e: Seq<char>| !a.0.contains(e)) == f);
                }
            }
            m = m + 1;
        }
        proof {
            assert(v0.running.take(v0.running.len() as int) =~= v0.running);
        }
        self.running = eff;
        self.suppressed = kept;
        events
    }
}

impl ScannerState {
    /// The `(server_id, slug)` pairs the index keeps under this entry.
    pub fn pairs_of(&self, exe: &str) -> (r: Option<Vec<(String, String)>>)
        ensures
            match r {
                Some(v) => lookup(self@.index, exe@) == Some(pairs_view(v@)),
                None => lookup(self@.index, exe@) is None,
            },
    {
        match self.entry_of(exe) {
            Some(e) => {
                let n = self.key_index[e].1.len();
                let mut out: Vec<(String, String)> = Vec::new();
                let mut k: usize = 0;
                while k < n
                    invariant
                        e < self.key_index@.len(),
                        n == self.key_index@[e as int].1@.len(),
                        k <= n,
                        pairs_view(out@) == pairs_view(self.key_index@[e as int].1@).take(k as int),
                    decreases n - k,
                {
                    let ghost before = pairs_view(out@);
                    out.push(copy_pair(&self.key_index[e].1[k]));
                    proof {
                        let src = pairs_view(self.key_index@[e as int].1@);
                        assert(src[k as int] == (self.key_index@[e as int].1@[k as int].0@, self.key_index@[e as int].1@[k as int].1@));
                        assert(pairs_view(out@) =~= before.push(src[k as int]));
                        assert(src.take(k + 1) =~= src.take(k as int).push(src[k as int]));
                        assert(pairs_view(out@) =~= pairs_view(self.key_index@[e as int].1@).take(k + 1));
                    }
                    k = k + 1;
                }
                proof {
                    assert(pairs_view(self.key_index@[e as int].1@).take(n as int) =~= pairs_view(self.key_index@[e as int].1@));
                }
                Some(out)
            },
            None => None,
        }
    }

    /// The patterns listed under this basename.
    pub fn patterns_of(&self, base: &str) -> (r: Option<Vec<String>>)
        ensures
            match r {
                Some(v) => lookup(self@.patterns, base@) == Some(strs(v@)),
                None => lookup(self@.patterns, base@) is None,
            },
    {
        let r = position(&self.patterns_by_basename, base);
        proof {
            assert forall|j: int| 0 <= j < self.patterns_by_basename@.len() implies #[trigger] self@.patterns[j].0
                == self.patterns_by_basename@[j].0@ by {}
            lemma_found(self.patterns_by_basename@, self@.patterns, base@, r);
        }
        match r {
            Some(b) => {
                let n = self.patterns_by_basename[b].1.len();
                let mut out: Vec<String> = Vec::new();
                let mut k: usize = 0;
                while k < n
                    invariant
                        b < self.patterns_by_basename@.len(),
                        n == self.patterns_by_basename@[b as int].1@.len(),
                        k <= n,
                        strs(out@) == strs(self.patterns_by_basename@[b as int].1@).take(k as int),
                    decreases n - k,
                {
                    let ghost before = strs(out@);
                    out.push(self.patterns_by_basename[b].1[k].clone());
                    proof {
                        let src = strs(self.patterns_by_basename@[b as int].1@);
                        assert(strs(out@) =~= before.push(src[k as int]));
                        assert(src.take(k + 1) =~= src.take(k as int).push(src[k as int]));
                        assert(strs(out@) =~= strs(self.patterns_by_basename@[b as int].1@).take(k + 1));
                    }
                    k = k + 1;
                }
                proof {
                    assert(strs(self.patterns_by_basename@[b as int].1@).take(n as int) =~= strs(self.patterns_by_basename@[b as int].1@));
                }
                Some(out)
            },
            None => None,
        }
    }

    /// Whether the member stopped this entry.
    pub fn suppressed(&self, exe: &str) -> (r: bool)
        ensures
            r == self@.suppressed.contains(exe@),
    {
        self.is_suppressed(exe)
    }

    /// Counts this entry as running, once.
    pub fn mark_running(&mut self, exe: &str)
        ensures
            final(self)@ == (ScannerView {
                running: if old(self)@.running.contains(exe@) { old(self)@.running } else { old(self)@.running.push(exe@) },
                ..old(self)@
            }),
    {
        if !holds(&self.running, exe) {
            let ghost before = self.running@;
            self.running.push(exe.to_owned());
            proof {
                assert(strs(self.running@) =~= strs(before).push(exe@));
            }
        }
    }
}

// ---------------------------------------------------------------------------
// Laws

/// An entry dropped for low CPU, still present and still idle, stays
/// dropped on the next scan: no on-and-off flapping.
pub proof fn law_dropped_entry_stays_dropped(idle: Map<Seq<char>, u32>, exe: Seq<char>)
    requires
        !spec_is_active(idle, exe, true, false).0,
    ensures
        !spec_is_active(spec_is_active(idle, exe, true, false).1, exe, true, false).0,
{
}

/// A reading of active CPU, or a new launch, always counts as played and
/// forgets the entry's idle count.
pub proof fn law_activity_resets_idle(idle: Map<Seq<char>, u32>, exe: Seq<char>, present_before: bool, cpu_active: bool)
    requires
        cpu_active || !present_before,
    ensures
        spec_is_active(idle, exe, present_before, cpu_active).0,
        !spec_is_active(idle, exe, present_before, cpu_active).1.dom().contains(exe),
{
}

/// Low CPU drops an entry only on the third consecutive idle scan.
pub proof fn law_drop_takes_three_idle_scans(exe: Seq<char>)
    ensures
        ({
            let a = spec_is_active(Map::empty(), exe, true, false);
            let b = spec_is_active(a.1, exe, true, false);
            let c = spec_is_active(b.1, exe, true, false);
            a.0 && b.0 && !c.0
        }),
{
}

/// A path matches a pattern only on a directory boundary: the text before
/// the pattern, if any, ends with `/`.
pub proof fn law_pattern_matches_on_a_boundary(path: Seq<char>, pattern: Seq<char>)
    requires
        spec_matches_pattern(path, pattern),
    ensures
        path.len() >= pattern.len() > 0,
        path.skip(path.len() - pattern.len()) == pattern,
        path.len() == pattern.len() || path[path.len() - pattern.len() - 1] == '/',
{
    assert(path.subrange(path.len() - pattern.len(), path.len() as int) =~= path.skip(path.len() - pattern.len()));
}


/// No entry is announced both started and stopped by the same scan.
pub proof fn law_no_entry_both_starts_and_stops(eff: Seq<Seq<char>>, running: Seq<Seq<char>>, x: Seq<char>)
    ensures
        !(started_of(eff, running).contains(x) && stopped_of(eff, running).contains(x)),
{
    let sp = |e: Seq<char>| !running.contains(e);
    let tp = |e: Seq<char>| !eff.contains(e);
    if started_of(eff, running).contains(x) && stopped_of(eff, running).contains(x) {
        eff.filter_lemma(sp);
        let i = choose|i: int| 0 <= i < eff.filter(sp).len() && eff.filter(sp)[i] == x;
        assert(sp(eff.filter(sp)[i]));
        running.lemma_filter_contains_rev(tp, x);
    }
}

/// A scan that finds played exactly what was running announces nothing.
pub proof fn law_a_steady_scan_announces_nothing(v: ScannerView, eff: Seq<Seq<char>>)
    requires
        eff == v.running,
    ensures
        fan_out(v, started_of(eff, v.running), true) + fan_out(v, stopped_of(eff, v.running), false) == Seq::<
            (bool, Seq<char>, Seq<char>),
        >::empty(),
{
    let running = v.running;
    let sp = |e: Seq<char>| !running.contains(e);
    let tp = |e: Seq<char>| !eff.contains(e);
    assert(eff.all(|e: Seq<char>| !sp(e))) by {
        assert forall|i: int| 0 <= i < eff.len() implies !sp(eff[i]) by {
            assert(running.contains(eff[i]));
        }
    }
    eff.lemma_all_neg_filter_empty(sp);
    assert(running.all(|e: Seq<char>| !tp(e))) by {
        assert forall|i: int| 0 <= i < running.len() implies !tp(running[i]) by {
            assert(eff.contains(running[i]));
        }
    }
    running.lemma_all_neg_filter_empty(tp);
    assert(fan_out(v, started_of(eff, v.running), true) =~= seq![]);
    assert(fan_out(v, stopped_of(eff, v.running), false) =~= seq![]);
}

/// The game a running entry stands for in the list of running games: none
/// when the member stopped it or the catalogue does not know it, else the
/// slug of its first pair that is not ignored.
pub open spec fn shown_slug(v: ScannerView, exe: Seq<char>) -> Option<Seq<char>> {
    if v.suppressed.contains(exe) {
        None
    } else {
        match lookup(v.index, exe) {
            None => None,
            Some(ps) => first_shown(ps, v.ignored),
        }
    }
}

/// `ScannerState::running_games` never lists a slug twice, gives each game
/// its display name, and lists exactly the games that some running entry
/// stands for: one entry shared by two servers gives one line.
pub proof fn law_running_games_one_line_per_game(v: ScannerView, run: Seq<Seq<char>>)
    ensures
        no_dups(firsts(running_games_spec(v, run))),
        forall|k: int|
            0 <= k < running_games_spec(v, run).len() ==> (#[trigger] running_games_spec(v, run)[k]).1
                == name_of(v, running_games_spec(v, run)[k].0),
        forall|slug: Seq<char>|
            #[trigger] firsts(running_games_spec(v, run)).contains(slug) <==> exists|j: int|
                0 <= j < run.len() && shown_slug(v, run[j]) == Some(slug),
    decreases run.len(),
{
    let r = running_games_spec(v, run);
    if run.len() == 0 {
        assert(firsts(r) =~= seq![]);
    } else {
        let rest = run.drop_last();
        law_running_games_one_line_per_game(v, rest);
        let prev = running_games_spec(v, rest);
        let exe = run.last();
        assert(firsts(prev) =~= prev.map_values(|e: (Seq<char>, Seq<char>)| e.0));
        let sh = shown_slug(v, exe);
        let grows = sh is Some && !firsts(prev).contains(sh->0);
        if grows {
            let x = (sh->0, name_of(v, sh->0));
            assert(r == prev.push(x));
            assert(firsts(r) =~= firsts(prev).push(sh->0));
            assert forall|i: int, j: int| 0 <= i < j < firsts(r).len() implies firsts(r)[i] != firsts(r)[j] by {
                if j == firsts(r).len() - 1 {
                    assert(firsts(prev).contains(firsts(prev)[i]));
                }
            }
        } else {
            assert(r == prev);
        }
        assert forall|slug: Seq<char>|
            #[trigger] firsts(r).contains(slug) <==> exists|j: int| 0 <= j < run.len() && shown_slug(v, run[j]) == Some(slug) by {
            if firsts(r).contains(slug) {
                if firsts(prev).contains(slug) {
                    let j = choose|j: int| 0 <= j < rest.len() && shown_slug(v, rest[j]) == Some(slug);
                    assert(run[j] == rest[j]);
                } else {
                    assert(grows && slug == sh->0);
                    assert(run[run.len() - 1] == exe);
                }
            }
            if exists|j: int| 0 <= j < run.len() && shown_slug(v, run[j]) == Some(slug) {
                let j = choose|j: int| 0 <= j < run.len() && shown_slug(v, run[j]) == Some(slug);
                if j < run.len() - 1 {
                    assert(rest[j] == run[j]);
                    assert(firsts(prev).contains(slug));
                    if grows {
                        let i = choose|i: int| 0 <= i < firsts(prev).len() && firsts(prev)[i] == slug;
                        assert(firsts(r)[i] == slug);
                    }
                } else {
                    if !grows {
                        assert(firsts(prev).contains(slug));
                    } else {
                        assert(firsts(r)[firsts(r).len() - 1] == slug);
                    }
                }
            }
        }
    }
}

/// Whether a running entry reports `slug` for server `sid`: the member has not
/// stopped it, and the catalogue pairs it with `(sid, slug)`, not ignored.
pub open spec fn reports(v: ScannerView, exe: Seq<char>, sid: Seq<char>, slug: Seq<char>) -> bool {
    &&& !v.suppressed.contains(exe)
    &&& match lookup(v.index, exe) {
        Some(ps) => ps.contains((sid, slug)) && !v.ignored.contains((sid, slug)),
        None => false,
    }
}

proof fn lemma_slugs_for(ps: Seq<(Seq<char>, Seq<char>)>, sid: Seq<char>, ignored: Seq<(Seq<char>, Seq<char>)>, slug: Seq<char>)
    ensures
        slugs_for(ps, sid, ignored).contains(slug) <==> ps.contains((sid, slug)) && !ignored.contains((sid, slug)),
    decreases ps.len(),
{
    if ps.len() > 0 {
        let rest = ps.drop_last();
        lemma_slugs_for(rest, sid, ignored, slug);
        let prev = slugs_for(rest, sid, ignored);
        let p = ps.last();
        if ps.contains((sid, slug)) {
            let k = choose|k: int| 0 <= k < ps.len() && ps[k] == (sid, slug);
            if k < ps.len() - 1 {
                assert(rest[k] == ps[k]);
            }
        }
        if rest.contains((sid, slug)) {
            let k = choose|k: int| 0 <= k < rest.len() && rest[k] == (sid, slug);
            assert(ps[k] == rest[k]);
        }
        if p.0 == sid && !ignored.contains(p) {
            let now = prev.push(p.1);
            if prev.contains(slug) {
                let k = choose|k: int| 0 <= k < prev.len() && prev[k] == slug;
                assert(now[k] == slug);
            }
            if now.contains(slug) && !prev.contains(slug) {
                let k = choose|k: int| 0 <= k < now.len() && now[k] == slug;
                assert(k == prev.len());
                assert(ps[ps.len() - 1] == p);
            }
            if p.1 == slug {
                assert(now[prev.len() as int] == slug);
            }
        }
    }
}

/// `ScannerState::running_for(sid)` holds exactly the slugs that some
/// running entry reports for that server: a game running under one entry shared by two servers is reported to
/// each server under its own slug, and an ignored pair to neither.
pub proof fn law_running_for_reports_each_servers_slugs(v: ScannerView, run: Seq<Seq<char>>, sid: Seq<char>, slug: Seq<char>)
    ensures
        running_for_spec(v, run, sid).contains(slug) <==> exists|j: int| 0 <= j < run.len() && #[trigger] reports(v, run[j], sid, slug),
    decreases run.len(),
{
    if run.len() > 0 {
        let rest = run.drop_last();
        law_running_for_reports_each_servers_slugs(v, rest, sid, slug);
        let prev = running_for_spec(v, rest, sid);
        let exe = run.last();
        let r = running_for_spec(v, run, sid);
        let add: Seq<Seq<char>> = if v.suppressed.contains(exe) {
            seq![]
        } else {
            match lookup(v.index, exe) {
                None => seq![],
                Some(ps) => slugs_for(ps, sid, v.ignored),
            }
        };
        assert(r =~= prev + add);
        match lookup(v.index, exe) {
            Some(ps) => lemma_slugs_for(ps, sid, v.ignored, slug),
            None => {},
        }
        assert(add.contains(slug) <==> reports(v, exe, sid, slug));
        if r.contains(slug) {
            let k = choose|k: int| 0 <= k < r.len() && r[k] == slug;
            if k < prev.len() {
                assert(prev[k] == slug);
                let j = choose|j: int| 0 <= j < rest.len() && #[trigger] reports(v, rest[j], sid, slug);
                assert(run[j] == rest[j]);
            } else {
                assert(add[k - prev.len()] == slug);
                assert(reports(v, run[run.len() - 1], sid, slug));
            }
        }
        if exists|j: int| 0 <= j < run.len() && #[trigger] reports(v, run[j], sid, slug) {
            let j = choose|j: int| 0 <= j < run.len() && #[trigger] reports(v, run[j], sid, slug);
            if j < run.len() - 1 {
                assert(rest[j] == run[j]);
                assert(reports(v, rest[j], sid, slug));
                let k = choose|k: int| 0 <= k < prev.len() && prev[k] == slug;
                assert(r[k] == slug);
            } else {
                assert(add.contains(slug));
                let k = choose|k: int| 0 <= k < add.len() && add[k] == slug;
                assert(r[prev.len() + k] == slug);
            }
        }
    }
}

/// What a keyed list holds under `k` after `key` was set to `v` in place, or
/// appended when it was not there.
proof fn lemma_lookup_after_put<V>(m: Seq<(Seq<char>, V)>, key: Seq<char>, v: V, k: Seq<char>)
    ensures
        lookup(
            match key_pos(m, key) {
                Some(i) => m.update(i, (key, v)),
                None => m.push((key, v)),
            },
            k,
        ) == if k == key {
            Some(v)
        } else {
            lookup(m, k)
        },
{
    lemma_key_pos(m, key);
    match key_pos(m, key) {
        Some(i) => {
            let m2 = m.update(i, (key, v));
            if k == key {
                assert forall|j: int| 0 <= j < i implies m2[j].0 != key by {
                    assert(m2[j] == m[j]);
                }
                lemma_key_pos_first(m2, key, i);
            } else {
                lemma_key_pos(m, k);
                match key_pos(m, k) {
                    Some(p) => {
                        assert(p != i);
                        assert forall|j: int| 0 <= j < p implies m2[j].0 != k by {
                            if j != i {
                                assert(m2[j] == m[j]);
                            }
                        }
                        assert(m2[p] == m[p]);
                        lemma_key_pos_first(m2, k, p);
                    },
                    None => {
                        assert forall|j: int| 0 <= j < m2.len() implies m2[j].0 != k by {
                            if j != i {
                                assert(m2[j] == m[j]);
                            }
                        }
                        lemma_key_pos_none(m2, k);
                    },
                }
            }
        },
        None => {
            let m2 = m.push((key, v));
            if k == key {
                assert forall|j: int| 0 <= j < m.len() implies m2[j].0 != key by {
                    assert(m2[j] == m[j]);
                }
                lemma_key_pos_first(m2, key, m.len() as int);
            } else {
                lemma_key_pos(m, k);
                match key_pos(m, k) {
                    Some(p) => {
                        assert forall|j: int| 0 <= j < p implies m2[j].0 != k by {
                            assert(m2[j] == m[j]);
                        }
                        assert(m2[p] == m[p]);
                        lemma_key_pos_first(m2, k, p);
                    },
                    None => {
                        assert forall|j: int| 0 <= j < m2.len() implies m2[j].0 != k by {
                            if j < m.len() {
                                assert(m2[j] == m[j]);
                            }
                        }
                        lemma_key_pos_none(m2, k);
                    },
                }
            }
        },
    }
}

/// A non-empty list as a found value; an empty one as nothing found.
pub open spec fn found_if_any<E>(s: Seq<E>) -> Option<Seq<E>> {
    if s.len() > 0 {
        Some(s)
    } else {
        None
    }
}

/// The pair `(sid, slug)` once for each time `k` is among these entries.
pub open spec fn pairs_in(sid: Seq<char>, slug: Seq<char>, exes: Seq<Seq<char>>, k: Seq<char>) -> Seq<(Seq<char>, Seq<char>)>
    decreases exes.len(),
{
    if exes.len() == 0 {
        seq![]
    } else {
        let p = pairs_in(sid, slug, exes.drop_last(), k);
        if exes.last() == k {
            p.push((sid, slug))
        } else {
            p
        }
    }
}

/// Every `(server, slug)` pair whose game lists the entry `k`, in the order
/// of the games.
pub open spec fn catalogue_pairs(games: Seq<GameRow>, k: Seq<char>) -> Seq<(Seq<char>, Seq<char>)>
    decreases games.len(),
{
    if games.len() == 0 {
        seq![]
    } else {
        let g = games.last();
        catalogue_pairs(games.drop_last(), k) + pairs_in(g.0, g.1, g.3, k)
    }
}

/// The name of the last game with this slug, if any.
pub open spec fn last_name(games: Seq<GameRow>, slug: Seq<char>) -> Option<Seq<char>>
    decreases games.len(),
{
    if games.len() == 0 {
        None
    } else if games.last().1 == slug {
        Some(games.last().2)
    } else {
        last_name(games.drop_last(), slug)
    }
}

proof fn lemma_index_after_exes(st: (IndexView, PatternsView), sid: Seq<char>, slug: Seq<char>, exes: Seq<Seq<char>>, k: Seq<char>, e: Seq<(Seq<char>, Seq<char>)>)
    requires
        lookup(st.0, k) == found_if_any(e),
    ensures
        lookup(load_exes(st, sid, slug, exes).0, k) == found_if_any(e + pairs_in(sid, slug, exes, k)),
    decreases exes.len(),
{
    if exes.len() == 0 {
        assert(e + seq![] =~= e);
    } else {
        let rest = exes.drop_last();
        lemma_index_after_exes(st, sid, slug, rest, k, e);
        let idx = load_exes(st, sid, slug, rest).0;
        let before = e + pairs_in(sid, slug, rest, k);
        let key = exes.last();
        let grown = match key_pos(idx, key) {
            Some(i) => idx[i].1.push((sid, slug)),
            None => seq![(sid, slug)],
        };
        assert(add_pair(idx, key, (sid, slug)) == match key_pos(idx, key) {
            Some(i) => idx.update(i, (key, grown)),
            None => idx.push((key, grown)),
        });
        lemma_lookup_after_put(idx, key, grown, k);
        if key == k {
            assert(e + pairs_in(sid, slug, exes, k) =~= before.push((sid, slug)));
            if before.len() == 0 {
                assert(grown =~= before.push((sid, slug)));
            }
        } else {
            assert(pairs_in(sid, slug, exes, k) == pairs_in(sid, slug, rest, k));
        }
    }
}

/// `ScannerState::load_catalog` replaces whatever was known before with
/// what the games list: under each entry, every `(server, slug)` pair of a game that
/// lists it, in the games' order; an entry no game lists is not kept; and
/// the name of a slug is that of the last game with this slug.
pub proof fn law_load_catalog_lists_every_pair(games: Seq<GameRow>, k: Seq<char>)
    ensures
        lookup(load_games(games).0, k) == found_if_any(catalogue_pairs(games, k)),
        lookup(load_games(games).2, k) == last_name(games, k),
    decreases games.len(),
{
    if games.len() > 0 {
        let rest = games.drop_last();
        law_load_catalog_lists_every_pair(rest, k);
        let p = load_games(rest);
        let g = games.last();
        lemma_index_after_exes((p.0, p.1), g.0, g.1, g.3, k, catalogue_pairs(rest, k));
        let put = match key_pos(p.2, g.1) {
            Some(i) => p.2.update(i, (g.1, g.2)),
            None => p.2.push((g.1, g.2)),
        };
        assert(set_name(p.2, g.1, g.2) == put);
        lemma_lookup_after_put(p.2, g.1, g.2, k);
    } else {
        lemma_key_pos_none(Seq::<(Seq<char>, Seq<(Seq<char>, Seq<char>)>)>::empty(), k);
        lemma_key_pos_none(Seq::<(Seq<char>, Seq<char>)>::empty(), k);
    }
}

/// The text after the last `/` of a catalogue entry that has one.
pub open spec fn base_of(x: Seq<char>) -> Option<Seq<char>> {
    match last_slash(x) {
        Some(j) => Some(x.skip(j + 1)),
        None => None,
    }
}

/// Whether some game lists the entry `x`.
pub open spec fn catalogue_lists(games: Seq<GameRow>, x: Seq<char>) -> bool {
    exists|i: int| 0 <= i < games.len() && #[trigger] games[i].3.contains(x)
}

/// Every entry of these games, game after game.
pub open spec fn all_entries(games: Seq<GameRow>) -> Seq<Seq<char>>
    decreases games.len(),
{
    if games.len() == 0 {
        seq![]
    } else {
        all_entries(games.drop_last()) + games.last().3
    }
}

/// Under the basename `b`, the patterns hold each entry of `seen` ending in
/// `/b` once, and nothing else.
spec fn patterns_hold(pats: PatternsView, seen: Seq<Seq<char>>, b: Seq<char>) -> bool {
    match lookup(pats, b) {
        Some(l) => no_dups(l) && forall|x: Seq<char>| #[trigger] l.contains(x) <==> seen.contains(x) && base_of(x) == Some(b),
        None => forall|x: Seq<char>| #[trigger] seen.contains(x) ==> base_of(x) != Some(b),
    }
}

proof fn lemma_push_contains(s: Seq<Seq<char>>, e: Seq<char>, x: Seq<char>)
    ensures
        s.push(e).contains(x) <==> s.contains(x) || x == e,
{
    if s.contains(x) {
        let p = choose|p: int| 0 <= p < s.len() && s[p] == x;
        assert(s.push(e)[p] == x);
    }
    if s.push(e).contains(x) && x != e {
        let p = choose|p: int| 0 <= p < s.push(e).len() && s.push(e)[p] == x;
        assert(s[p] == x);
    }
    if x == e {
        assert(s.push(e)[s.len() as int] == x);
    }
}

proof fn lemma_patterns_after_one(pats: PatternsView, seen: Seq<Seq<char>>, exe: Seq<char>, b: Seq<char>)
    requires
        patterns_hold(pats, seen, b),
    ensures
        patterns_hold(add_pattern(pats, exe), seen.push(exe), b),
{
    let now = seen.push(exe);
    assert forall|x: Seq<char>| #[trigger] now.contains(x) <==> seen.contains(x) || x == exe by {
        lemma_push_contains(seen, exe, x);
    }
    match last_slash(exe) {
        None => {
            assert(base_of(exe) is None);
        },
        Some(j) => {
            let base = exe.skip(j + 1);
            lemma_key_pos(pats, base);
            let newl = match key_pos(pats, base) {
                Some(i) => if pats[i].1.contains(exe) {
                    pats[i].1
                } else {
                    pats[i].1.push(exe)
                },
                None => seq![exe],
            };
            match key_pos(pats, base) {
                Some(i) => if pats[i].1.contains(exe) {
                    assert(pats.update(i, (base, newl)) =~= pats);
                },
                None => {},
            }
            assert(add_pattern(pats, exe) == match key_pos(pats, base) {
                Some(i) => pats.update(i, (base, newl)),
                None => pats.push((base, newl)),
            });
            lemma_lookup_after_put(pats, base, newl, b);
            if b == base {
                match key_pos(pats, base) {
                    Some(i) => {
                        let l = pats[i].1;
                        if !l.contains(exe) {
                            assert forall|p: int, q: int| 0 <= p < q < newl.len() implies newl[p] != newl[q] by {
                                if q == l.len() {
                                    assert(l.contains(l[p]));
                                }
                            }
                            assert forall|x: Seq<char>| #[trigger] newl.contains(x) <==> now.contains(x) && base_of(x) == Some(b) by {
                                lemma_push_contains(l, exe, x);
                            }
                        }
                    },
                    None => {
                        assert forall|x: Seq<char>| #[trigger] newl.contains(x) <==> now.contains(x) && base_of(x) == Some(b) by {
                            lemma_push_contains(Seq::<Seq<char>>::empty(), exe, x);
                            assert(Seq::<Seq<char>>::empty().push(exe) =~= newl);
                        }
                    },
                }
            }
        },
    }
}

proof fn lemma_patterns_after_exes(st: (IndexView, PatternsView), sid: Seq<char>, slug: Seq<char>, exes: Seq<Seq<char>>, seen: Seq<Seq<char>>, b: Seq<char>)
    requires
        patterns_hold(st.1, seen, b),
    ensures
        patterns_hold(load_exes(st, sid, slug, exes).1, seen + exes, b),
    decreases exes.len(),
{
    if exes.len() == 0 {
        assert(seen + exes =~= seen);
    } else {
        let rest = exes.drop_last();
        lemma_patterns_after_exes(st, sid, slug, rest, seen, b);
        lemma_patterns_after_one(load_exes(st, sid, slug, rest).1, seen + rest, exes.last(), b);
        assert((seen + rest).push(exes.last()) =~= seen + exes);
    }
}

proof fn lemma_patterns_after_games(games: Seq<GameRow>, b: Seq<char>)
    ensures
        patterns_hold(load_games(games).1, all_entries(games), b),
    decreases games.len(),
{
    if games.len() == 0 {
        lemma_key_pos_none(Seq::<(Seq<char>, Seq<Seq<char>>)>::empty(), b);
    } else {
        let rest = games.drop_last();
        lemma_patterns_after_games(rest, b);
        let p = load_games(rest);
        let g = games.last();
        lemma_patterns_after_exes((p.0, p.1), g.0, g.1, g.3, all_entries(rest), b);
    }
}

proof fn lemma_all_entries(games: Seq<GameRow>, x: Seq<char>)
    ensures
        all_entries(games).contains(x) <==> catalogue_lists(games, x),
    decreases games.len(),
{
    if games.len() > 0 {
        let rest = games.drop_last();
        let g = games.last();
        lemma_all_entries(rest, x);
        let a = all_entries(rest);
        let all = all_entries(games);
        if all.contains(x) {
            let p = choose|p: int| 0 <= p < all.len() && all[p] == x;
            if p < a.len() {
                assert(a[p] == x);
                let i = choose|i: int| 0 <= i < rest.len() && #[trigger] rest[i].3.contains(x);
                assert(games[i] == rest[i]);
            } else {
                assert(g.3[p - a.len()] == x);
                assert(games[games.len() - 1].3.contains(x));
            }
        }
        if catalogue_lists(games, x) {
            let i = choose|i: int| 0 <= i < games.len() && #[trigger] games[i].3.contains(x);
            if i < games.len() - 1 {
                assert(rest[i] == games[i]);
                let p = choose|p: int| 0 <= p < a.len() && a[p] == x;
                assert(all[p] == x);
            } else {
                let p = choose|p: int| 0 <= p < g.3.len() && g.3[p] == x;
                assert(all[a.len() + p] == x);
            }
        }
    }
}

/// After `ScannerState::load_catalog`, the patterns kept under a basename
/// are the entries of the games that end in `/` and that basename, each
/// once; a basename no such entry ends with has no patterns.
pub proof fn law_load_catalog_lists_each_pattern_once(games: Seq<GameRow>, b: Seq<char>)
    ensures
        match lookup(load_games(games).1, b) {
            Some(l) => no_dups(l) && forall|x: Seq<char>|
                #[trigger] l.contains(x) <==> catalogue_lists(games, x) && base_of(x) == Some(b),
            None => forall|x: Seq<char>| #[trigger] catalogue_lists(games, x) ==> base_of(x) != Some(b),
        },
{
    lemma_patterns_after_games(games, b);
    let seen = all_entries(games);
    match lookup(load_games(games).1, b) {
        Some(l) => {
            assert forall|x: Seq<char>| #[trigger] l.contains(x) <==> catalogue_lists(games, x) && base_of(x) == Some(b) by {
                lemma_all_entries(games, x);
                assert(l.contains(x) <==> seen.contains(x) && base_of(x) == Some(b));
            }
        },
        None => {
            assert forall|x: Seq<char>| #[trigger] catalogue_lists(games, x) implies base_of(x) != Some(b) by {
                lemma_all_entries(games, x);
                assert(seen.contains(x) ==> base_of(x) != Some(b));
            }
        },
    }
}

proof fn lemma_add_pair_keeps_keys_unique(idx: IndexView, key: Seq<char>, pair: (Seq<char>, Seq<char>))
    requires
        unique_keys(idx),
    ensures
        unique_keys(add_pair(idx, key, pair)),
{
    lemma_key_pos(idx, key);
    let n = add_pair(idx, key, pair);
    match key_pos(idx, key) {
        Some(i) => {
            assert forall|a: int, b: int| 0 <= a < b < n.len() implies n[a].0 != n[b].0 by {
                assert(n[a].0 == idx[a].0);
                assert(n[b].0 == idx[b].0);
            }
        },
        None => {
            assert forall|a: int, b: int| 0 <= a < b < n.len() implies n[a].0 != n[b].0 by {
                assert(n[a] == idx[a]);
            }
        },
    }
}

proof fn lemma_load_exes_keeps_keys_unique(st: (IndexView, PatternsView), sid: Seq<char>, slug: Seq<char>, exes: Seq<Seq<char>>)
    requires
        unique_keys(st.0),
    ensures
        unique_keys(load_exes(st, sid, slug, exes).0),
    decreases exes.len(),
{
    if exes.len() > 0 {
        lemma_load_exes_keeps_keys_unique(st, sid, slug, exes.drop_last());
        lemma_add_pair_keeps_keys_unique(load_exes(st, sid, slug, exes.drop_last()).0, exes.last(), (sid, slug));
    }
}

/// `ScannerState::load_catalog` keeps each catalogue entry once in its
/// index, whatever the games list.
pub proof fn law_load_catalog_index_holds_each_entry_once(games: Seq<GameRow>)
    ensures
        unique_keys(load_games(games).0),
    decreases games.len(),
{
    if games.len() > 0 {
        law_load_catalog_index_holds_each_entry_once(games.drop_last());
        let p = load_games(games.drop_last());
        let g = games.last();
        lemma_load_exes_keeps_keys_unique((p.0, p.1), g.0, g.1, g.3);
    }
}

/// `ScannerState::suppress_slug` adds to the stopped entries exactly the
/// entries whose pairs hold `slug` (what `slug_entries` collects), on an
/// index that keeps each entry once, as `load_catalog` builds it.
pub proof fn law_suppress_slug_adds_the_slugs_entries(index: IndexView, slug: Seq<char>, e: Seq<char>)
    requires
        unique_keys(index),
    ensures
        slug_entries(index, slug).contains(e) <==> (lookup(index, e) matches Some(ps) && has_slug(ps, slug)),
{
    lemma_key_pos(index, e);
    if slug_entries(index, slug).contains(e) {
        let a = choose|a: int| 0 <= a < index.len() && index[a].0 == e && #[trigger] has_slug(index[a].1, slug);
        lemma_unique_pos(index, e, a);
    }
    if lookup(index, e) matches Some(ps) && has_slug(ps, slug) {
        let a = key_pos(index, e)->0;
        assert(index[a].0 == e && has_slug(index[a].1, slug));
    }
}

/// How many times the pair `p` is among these pairs.
pub open spec fn pair_count(ps: Seq<(Seq<char>, Seq<char>)>, p: (Seq<char>, Seq<char>)) -> nat
    decreases ps.len(),
{
    if ps.len() == 0 {
        0
    } else {
        pair_count(ps.drop_last(), p) + if ps.last() == p {
            1nat
        } else {
            0nat
        }
    }
}

/// How many times a running entry reports `slug` to server `sid`: none when
/// the member stopped it, the catalogue does not know it, or the pair is
/// ignored; else once per `(sid, slug)` pair under it.
pub open spec fn reports_count(v: ScannerView, exe: Seq<char>, sid: Seq<char>, slug: Seq<char>) -> nat {
    if v.suppressed.contains(exe) || v.ignored.contains((sid, slug)) {
        0
    } else {
        match lookup(v.index, exe) {
            Some(ps) => pair_count(ps, (sid, slug)),
            None => 0,
        }
    }
}

/// The reports of `slug` to `sid` over these running entries.
pub open spec fn reports_total(v: ScannerView, run: Seq<Seq<char>>, sid: Seq<char>, slug: Seq<char>) -> nat
    decreases run.len(),
{
    if run.len() == 0 {
        0
    } else {
        reports_total(v, run.drop_last(), sid, slug) + reports_count(v, run.last(), sid, slug)
    }
}

proof fn lemma_slugs_for_count(ps: Seq<(Seq<char>, Seq<char>)>, sid: Seq<char>, ignored: Seq<(Seq<char>, Seq<char>)>, slug: Seq<char>)
    ensures
        slugs_for(ps, sid, ignored).to_multiset().count(slug) == if ignored.contains((sid, slug)) {
            0
        } else {
            pair_count(ps, (sid, slug))
        },
    decreases ps.len(),
{
    broadcast use vstd::seq_lib::group_to_multiset_ensures, vstd::multiset::group_multiset_axioms;
    if ps.len() == 0 {
        assert(slugs_for(ps, sid, ignored) =~= Seq::<Seq<char>>::empty());
    } else {
        lemma_slugs_for_count(ps.drop_last(), sid, ignored, slug);
    }
}

/// `ScannerState::running_for(sid)`, as a multiset, holds each slug as many
/// times as the running entries not stopped by the member hold the pair
/// `(sid, slug)`, none when that pair is ignored.
pub proof fn law_running_for_as_a_multiset(v: ScannerView, run: Seq<Seq<char>>, sid: Seq<char>, slug: Seq<char>)
    ensures
        running_for_spec(v, run, sid).to_multiset().count(slug) == reports_total(v, run, sid, slug),
    decreases run.len(),
{
    broadcast use vstd::seq_lib::group_to_multiset_ensures, vstd::multiset::group_multiset_axioms;
    if run.len() == 0 {
        assert(running_for_spec(v, run, sid) =~= Seq::<Seq<char>>::empty());
    } else {
        let rest = run.drop_last();
        law_running_for_as_a_multiset(v, rest, sid, slug);
        let prev = running_for_spec(v, rest, sid);
        let exe = run.last();
        if !v.suppressed.contains(exe) {
            match lookup(v.index, exe) {
                Some(ps) => {
                    lemma_slugs_for_count(ps, sid, v.ignored, slug);
                    vstd::seq_lib::lemma_multiset_commutative(prev, slugs_for(ps, sid, v.ignored));
                },
                None => {},
            }
        }
    }
}

} // verus!
