//! Text as the library sees it: a string is its sequence of characters.
//!
//! The helpers here state, over `Seq<char>`, what the standard library's
//! string operations do (trimming, lines, splitting, searching, parsing
//! integers), and implement them on character slices.
use vstd::prelude::*;

verus! {

// ---------------------------------------------------------------------------
// Strings and character vectors

/// Appends one character to a string, through `String::push`.
#[verifier::external_body]
pub(crate) fn push_char(s: &mut String, c: char)
    ensures
        final(s)@ == old(s)@.push(c),
{
    s.push(c)
}

/// The characters of a string slice, in order.
pub fn chars_of(s: &str) -> (r: Vec<char>)
    ensures
        r@ == s@,
{
    let mut out: Vec<char> = Vec::new();
    for c in it: s.chars()
        invariant
            it.seq() == s@,
            out@ == it.seq().take(it.index() as int),
    {
        out.push(c);
    }
    out
}

/// A string holding exactly these characters.
pub fn string_of(cs: &[char]) -> (r: String)
    ensures
        r@ == cs@,
{
    let mut out = String::new();
    append_chars(&mut out, cs);
    out
}

/// Appends these characters to a string.
pub fn append_chars(out: &mut String, cs: &[char])
    ensures
        final(out)@ == old(out)@ + cs@,
{
    let ghost start = out@;
    let mut i: usize = 0;
    while i < cs.len()
        invariant
            i <= cs@.len(),
            out@ == start + cs@.take(i as int),
        decreases cs@.len() - i,
    {
        push_char(out, cs[i]);
        proof {
            assert(cs@.take(i as int).push(cs@[i as int]) =~= cs@.take(i + 1));
        }
        i = i + 1;
    }
    proof {
        assert(cs@.take(cs@.len() as int) =~= cs@);
    }
}

/// Whether two character slices hold the same characters.
pub fn chars_eq(a: &[char], b: &[char]) -> (r: bool)
    ensures
        r == (a@ == b@),
{
    if a.len() != b.len() {
        return false;
    }
    let mut i: usize = 0;
    while i < a.len()
        invariant
            a@.len() == b@.len(),
            i <= a@.len(),
            forall|k: int| 0 <= k < i ==> a@[k] == b@[k],
        decreases a@.len() - i,
    {
        if a[i] != b[i] {
            return false;
        }
        i = i + 1;
    }
    proof {
        assert(a@ =~= b@);
    }
    true
}

/// Whether two strings hold the same characters.
pub fn str_eq(a: &str, b: &str) -> (r: bool)
    ensures
        r == (a@ == b@),
{
    let x = chars_of(a);
    let y = chars_of(b);
    chars_eq(x.as_slice(), y.as_slice())
}

// ---------------------------------------------------------------------------
// Whitespace and trimming

/// Unicode `White_Space`, the property `char::is_whitespace` tests.
pub open spec fn is_ws(c: char) -> bool {
    ||| ('\t' <= c && c <= '\r')
    ||| c == ' '
    ||| c == '\u{85}'
    ||| c == '\u{A0}'
    ||| c == '\u{1680}'
    ||| ('\u{2000}' <= c && c <= '\u{200A}')
    ||| c == '\u{2028}'
    ||| c == '\u{2029}'
    ||| c == '\u{202F}'
    ||| c == '\u{205F}'
    ||| c == '\u{3000}'
}

pub fn is_whitespace(c: char) -> (b: bool)
    ensures
        b == is_ws(c),
{
    ('\t' <= c && c <= '\r') || c == ' ' || c == '\u{85}' || c == '\u{A0}' || c == '\u{1680}' || (
    '\u{2000}' <= c && c <= '\u{200A}') || c == '\u{2028}' || c == '\u{2029}' || c == '\u{202F}'
        || c == '\u{205F}' || c == '\u{3000}'
}

/// The text without its leading whitespace.
pub open spec fn trim_start(s: Seq<char>) -> Seq<char>
    decreases s.len(),
{
    if s.len() > 0 && is_ws(s[0]) {
        trim_start(s.drop_first())
    } else {
        s
    }
}

/// The text without its trailing whitespace.
pub open spec fn trim_end(s: Seq<char>) -> Seq<char>
    decreases s.len(),
{
    if s.len() > 0 && is_ws(s.last()) {
        trim_end(s.drop_last())
    } else {
        s
    }
}

/// `str::trim`: the text without leading and trailing whitespace.
pub open spec fn trim(s: Seq<char>) -> Seq<char> {
    trim_end(trim_start(s))
}

proof fn lemma_trim_start_skip(s: Seq<char>, a: int)
    requires
        0 <= a <= s.len(),
        forall|k: int| 0 <= k < a ==> is_ws(s[k]),
    ensures
        trim_start(s) == trim_start(s.subrange(a, s.len() as int)),
    decreases a,
{
    if a > 0 {
        assert(s.drop_first() =~= s.subrange(1, s.len() as int));
        lemma_trim_start_skip(s.drop_first(), a - 1);
        assert(s.drop_first().subrange(a - 1, s.drop_first().len() as int) =~= s.subrange(
            a,
            s.len() as int,
        ));
    } else {
        assert(s =~= s.subrange(0, s.len() as int));
    }
}

proof fn lemma_trim_end_cut(s: Seq<char>, b: int)
    requires
        0 <= b <= s.len(),
        forall|k: int| b <= k < s.len() ==> is_ws(s[k]),
    ensures
        trim_end(s) == trim_end(s.subrange(0, b)),
    decreases s.len() - b,
{
    if b < s.len() {
        lemma_trim_end_cut(s.drop_last(), b);
        assert(s.drop_last().subrange(0, b) =~= s.subrange(0, b));
    } else {
        assert(s =~= s.subrange(0, b));
    }
}

/// The bounds of the trimmed part of `s[lo..hi]`.
pub fn trim_bounds(s: &[char], lo: usize, hi: usize) -> (r: (usize, usize))
    requires
        lo <= hi <= s@.len(),
    ensures
        lo <= r.0 <= r.1 <= hi,
        s@.subrange(r.0 as int, r.1 as int) == trim(s@.subrange(lo as int, hi as int)),
{
    let ghost t = s@.subrange(lo as int, hi as int);
    let mut a = lo;
    while a < hi && is_whitespace(s[a])
        invariant
            lo <= a <= hi <= s@.len(),
            forall|k: int| lo <= k < a ==> is_ws(s@[k]),
        decreases hi - a,
    {
        a = a + 1;
    }
    proof {
        lemma_trim_start_skip(t, a - lo);
        assert(t.subrange(a - lo, t.len() as int) =~= s@.subrange(a as int, hi as int));
    }
    let mut b = hi;
    while b > a && is_whitespace(s[b - 1])
        invariant
            lo <= a <= b <= hi <= s@.len(),
            forall|k: int| b <= k < hi ==> is_ws(s@[k]),
        decreases b - a,
    {
        b = b - 1;
    }
    proof {
        let u = s@.subrange(a as int, hi as int);
        lemma_trim_end_cut(u, b - a);
        assert(u.subrange(0, b - a) =~= s@.subrange(a as int, b as int));
        if a < b {
            assert(!is_ws(s@[a as int]));
        } else {
            assert(trim_start(t) == u);
        }
        let w = s@.subrange(a as int, b as int);
        if w.len() > 0 {
            assert(!is_ws(w.last()));
        }
    }
    (a, b)
}

/// `str::trim`, as characters.
pub fn trimmed(s: &[char]) -> (r: Vec<char>)
    ensures
        r@ == trim(s@),
{
    let (a, b) = trim_bounds(s, 0, s.len());
    proof {
        assert(s@.subrange(0, s@.len() as int) =~= s@);
    }
    slice_to_vec(&s[a..b])
}

/// A vector holding a copy of the slice.
pub fn slice_to_vec(s: &[char]) -> (r: Vec<char>)
    ensures
        r@ == s@,
{
    let mut out: Vec<char> = Vec::new();
    let mut i: usize = 0;
    while i < s.len()
        invariant
            i <= s@.len(),
            out@ == s@.take(i as int),
        decreases s@.len() - i,
    {
        out.push(s[i]);
        proof {
            assert(s@.take(i as int).push(s@[i as int]) =~= s@.take(i + 1));
        }
        i = i + 1;
    }
    proof {
        assert(s@.take(s@.len() as int) =~= s@);
    }
    out
}

// ---------------------------------------------------------------------------
// ASCII case

/// A character's code with ASCII upper case folded to lower case.
pub open spec fn fold(c: char) -> u32 {
    if 65 <= (c as u32) && (c as u32) <= 90 {
        ((c as u32) + 32) as u32
    } else {
        c as u32
    }
}

/// `eq_ignore_ascii_case`: the same text once ASCII letters are lowercased.
pub open spec fn eq_ignore_ascii_case(a: Seq<char>, b: Seq<char>) -> bool {
    a.len() == b.len() && forall|k: int| 0 <= k < a.len() ==> fold(a[k]) == fold(b[k])
}

pub fn fold_char(c: char) -> (r: u32)
    ensures
        r == fold(c),
{
    let u = c as u32;
    if 65 <= u && u <= 90 {
        u + 32
    } else {
        u
    }
}

pub fn chars_eq_ignore_ascii_case(a: &[char], b: &[char]) -> (r: bool)
    ensures
        r == eq_ignore_ascii_case(a@, b@),
{
    if a.len() != b.len() {
        return false;
    }
    let mut i: usize = 0;
    while i < a.len()
        invariant
            a@.len() == b@.len(),
            i <= a@.len(),
            forall|k: int| 0 <= k < i ==> fold(a@[k]) == fold(b@[k]),
        decreases a@.len() - i,
    {
        if fold_char(a[i]) != fold_char(b[i]) {
            return false;
        }
        i = i + 1;
    }
    true
}

// ---------------------------------------------------------------------------
// Searching

/// Whether `p` occurs in `s` at position `i`.
pub open spec fn occurs_at(s: Seq<char>, p: Seq<char>, i: int) -> bool {
    0 <= i && i + p.len() <= s.len() && s.subrange(i, i + p.len()) == p
}

/// The first position at or after `from` where `p` occurs, if any.
pub open spec fn find_from(s: Seq<char>, p: Seq<char>, from: int) -> Option<int>
    decreases s.len() + 1 - from,
{
    if from < 0 || from + p.len() > s.len() {
        None
    } else if occurs_at(s, p, from) {
        Some(from)
    } else {
        find_from(s, p, from + 1)
    }
}

/// `str::contains`.
pub open spec fn contains(s: Seq<char>, p: Seq<char>) -> bool {
    find_from(s, p, 0) is Some
}

/// `str::starts_with`.
pub open spec fn starts_with(s: Seq<char>, p: Seq<char>) -> bool {
    occurs_at(s, p, 0)
}

/// `str::ends_with`.
pub open spec fn ends_with(s: Seq<char>, p: Seq<char>) -> bool {
    occurs_at(s, p, s.len() - p.len())
}

pub proof fn lemma_find_from_bounds(s: Seq<char>, p: Seq<char>, from: int)
    requires
        0 <= from,
    ensures
        find_from(s, p, from) matches Some(i) ==> from <= i && occurs_at(s, p, i) && forall|k: int|
            from <= k < i ==> !occurs_at(s, p, k),
        find_from(s, p, from) is None ==> forall|k: int| from <= k ==> !occurs_at(s, p, k),
    decreases s.len() + 1 - from,
{
    if from + p.len() <= s.len() && !occurs_at(s, p, from) {
        lemma_find_from_bounds(s, p, from + 1);
    }
}

pub proof fn lemma_find_from_is_first(s: Seq<char>, p: Seq<char>, from: int, i: int)
    requires
        0 <= from <= i,
        occurs_at(s, p, i),
        forall|k: int| from <= k < i ==> !occurs_at(s, p, k),
    ensures
        find_from(s, p, from) == Some(i),
    decreases i - from,
{
    if from < i {
        lemma_find_from_is_first(s, p, from + 1, i);
    }
}

/// Whether `p` occurs in `s` at `i`.
pub fn matches_at(s: &[char], p: &[char], i: usize) -> (r: bool)
    ensures
        r == occurs_at(s@, p@, i as int),
{
    if i > s.len() || p.len() > s.len() - i {
        return false;
    }
    let mut k: usize = 0;
    while k < p.len()
        invariant
            i + p@.len() <= s@.len(),
            s@.len() <= usize::MAX,
            k <= p@.len(),
            forall|j: int| 0 <= j < k ==> s@[i + j] == p@[j],
        decreases p@.len() - k,
    {
        if s[i + k] != p[k] {
            proof {
                assert(s@.subrange(i as int, i + p@.len())[k as int] != p@[k as int]);
            }
            return false;
        }
        k = k + 1;
    }
    proof {
        assert(s@.subrange(i as int, i + p@.len()) =~= p@);
    }
    true
}

/// The first position at or after `from` where `p` occurs.
pub fn find(s: &[char], p: &[char], from: usize) -> (r: Option<usize>)
    ensures
        r matches Some(i) ==> find_from(s@, p@, from as int) == Some(i as int),
        r is None ==> find_from(s@, p@, from as int) is None,
{
    let mut i = from;
    while i <= s.len() && p.len() <= s.len() - i
        invariant
            from <= i,
            find_from(s@, p@, from as int) == find_from(s@, p@, i as int),
        decreases s@.len() + 1 - i,
    {
        if matches_at(s, p, i) {
            return Some(i);
        }
        if i == s.len() {
            proof {
                assert(find_from(s@, p@, i + 1) is None);
            }
            return None;
        }
        i = i + 1;
    }
    None
}

/// The first position at or after `from` holding `c`.
pub fn find_char(s: &[char], c: char, from: usize) -> (r: Option<usize>)
    ensures
        r matches Some(i) ==> find_from(s@, seq![c], from as int) == Some(i as int) && from <= i < s@.len() && s@[i as int] == c,
        r is None ==> find_from(s@, seq![c], from as int) is None,
{
    let one: [char; 1] = [c];
    proof {
        assert(one@ =~= seq![c]);
    }
    let r = find(s, &one, from);
    proof {
        lemma_find_from_bounds(s@, seq![c], from as int);
        if let Some(i) = r {
            assert(s@.subrange(i as int, i + 1)[0] == s@[i as int]);
        }
    }
    r
}

/// `str::contains`, on characters.
pub fn contains_chars(s: &[char], p: &[char]) -> (r: bool)
    ensures
        r == contains(s@, p@),
{
    find(s, p, 0).is_some()
}

// ---------------------------------------------------------------------------
// Lines

/// The position of the first `\n` at or after `from`, or the length.
pub open spec fn next_nl(s: Seq<char>, from: int) -> int
    decreases s.len() - from,
{
    if from < 0 || from >= s.len() {
        s.len() as int
    } else if s[from] == '\n' {
        from
    } else {
        next_nl(s, from + 1)
    }
}

pub proof fn lemma_next_nl(s: Seq<char>, from: int)
    requires
        0 <= from <= s.len(),
    ensures
        from <= next_nl(s, from) <= s.len(),
        next_nl(s, from) < s.len() ==> s[next_nl(s, from)] == '\n',
        forall|k: int| from <= k < next_nl(s, from) ==> s[k] != '\n',
    decreases s.len() - from,
{
    if from < s.len() && s[from] != '\n' {
        lemma_next_nl(s, from + 1);
    }
}

/// A piece without one trailing `\r`.
pub open spec fn strip_cr(t: Seq<char>) -> Seq<char> {
    if t.len() > 0 && t.last() == '\r' {
        t.drop_last()
    } else {
        t
    }
}

/// The line that starts at `from`, as `str::lines` yields it: up to the
/// next `\n`, without it and without one `\r` before it.
pub open spec fn line_at(s: Seq<char>, from: int) -> Seq<char> {
    let j = next_nl(s, from);
    if j < s.len() {
        strip_cr(s.subrange(from, j))
    } else {
        s.subrange(from, s.len() as int)
    }
}

/// The lines from position `from` on.
pub open spec fn lines_from(s: Seq<char>, from: int) -> Seq<Seq<char>>
    decreases s.len() - from,
{
    let j = next_nl(s, from);
    if from < 0 || from >= s.len() || j < from {
        seq![]
    } else if j >= s.len() {
        seq![line_at(s, from)]
    } else {
        seq![line_at(s, from)] + lines_from(s, j + 1)
    }
}

/// `str::lines`: the text cut at each `\n`, a final empty piece dropped, and
/// one `\r` dropped before each `\n`.
pub open spec fn lines(s: Seq<char>) -> Seq<Seq<char>> {
    lines_from(s, 0)
}

/// The position of the first `\n` at or after `from`, or the length.
pub fn next_newline(s: &[char], from: usize) -> (j: usize)
    requires
        from <= s@.len(),
    ensures
        j == next_nl(s@, from as int),
{
    let mut j = from;
    while j < s.len() && s[j] != '\n'
        invariant
            from <= j <= s@.len(),
            next_nl(s@, from as int) == next_nl(s@, j as int),
        decreases s@.len() - j,
    {
        j = j + 1;
    }
    j
}

/// Where the line starting at `from` ends, its `\n` included: just past the
/// next `\n`, or the end of the text.
pub open spec fn line_end(s: Seq<char>, from: int) -> int {
    if next_nl(s, from) < s.len() {
        next_nl(s, from) + 1
    } else {
        s.len() as int
    }
}

/// The bounds of the line that starts at `from`, and where the next one
/// starts.
pub fn line_bounds(s: &[char], from: usize) -> (r: (usize, usize, usize))
    requires
        from < s@.len(),
    ensures
        from <= r.0 <= r.1 <= s@.len(),
        r.2 == line_end(s@, from as int),
        r.0 == from,
        s@.subrange(r.0 as int, r.1 as int) == line_at(s@, from as int),
        from < r.2 <= s@.len(),
        lines_from(s@, from as int) == seq![line_at(s@, from as int)] + lines_from(s@, r.2 as int),
{
    let j = next_newline(s, from);
    proof {
        lemma_next_nl(s@, from as int);
    }
    let mut end = j;
    if j < s.len() && j > from && s[j - 1] == '\r' {
        end = j - 1;
    }
    proof {
        let t = s@.subrange(from as int, j as int);
        if j < s@.len() {
            if t.len() > 0 && t.last() == '\r' {
                assert(t.drop_last() =~= s@.subrange(from as int, end as int));
            }
        }
    }
    let next = if j < s.len() {
        j + 1
    } else {
        j
    };
    proof {
        if j >= s@.len() {
            assert(lines_from(s@, next as int) =~= seq![]);
            assert(seq![line_at(s@, from as int)] + seq![] =~= seq![line_at(s@, from as int)]);
        }
    }
    (from, end, next)
}

pub proof fn lemma_any_cons(x: Seq<char>, t: Seq<Seq<char>>, p: spec_fn(Seq<char>) -> bool)
    ensures
        (seq![x] + t).any(p) == (p(x) || t.any(p)),
{
    let u = seq![x] + t;
    if t.any(p) {
        let k = choose|k: int| 0 <= k < t.len() && p(t[k]);
        assert(u[k + 1] == t[k]);
    }
    if u.any(p) {
        let k = choose|k: int| 0 <= k < u.len() && p(u[k]);
        if k > 0 {
            assert(u[k] == t[k - 1]);
        }
    }
    assert(u[0] == x);
}

/// Whether some line of `s` satisfies `p`.
pub(crate) fn any_line(s: &[char], Ghost(p): Ghost<spec_fn(Seq<char>) -> bool>, test: impl Fn(&[char]) -> bool) -> (r: bool)
    requires
        forall|l: &[char]| #[trigger] test.requires((l,)),
        forall|l: &[char], b: bool| test.ensures((l,), b) ==> b == p(l@),
    ensures
        r == lines(s@).any(p),
{
    let mut pos: usize = 0;
    while pos < s.len()
        invariant
            pos <= s@.len(),
            forall|l: &[char]| #[trigger] test.requires((l,)),
            forall|l: &[char], b: bool| test.ensures((l,), b) ==> b == p(l@),
            lines(s@).any(p) == lines_from(s@, pos as int).any(p),
        decreases s@.len() - pos,
    {
        let (a, b, next) = line_bounds(s, pos);
        proof {
            lemma_any_cons(line_at(s@, pos as int), lines_from(s@, next as int), p);
        }
        if test(&s[a..b]) {
            return true;
        }
        pos = next;
    }
    proof {
        assert(lines_from(s@, pos as int) =~= seq![]);
    }
    false
}

// ---------------------------------------------------------------------------
// Splitting

/// `str::split('\n')`: the pieces between the `\n`s, from `from` on. There
/// is always one more piece than there are `\n`s.
pub open spec fn split_nl_from(s: Seq<char>, from: int) -> Seq<Seq<char>>
    decreases s.len() - from,
{
    let j = next_nl(s, from);
    if from < 0 || from > s.len() || j < from {
        seq![]
    } else if j >= s.len() {
        seq![s.subrange(from, s.len() as int)]
    } else {
        seq![s.subrange(from, j)] + split_nl_from(s, j + 1)
    }
}

/// `str::split('\n')`.
pub open spec fn split_nl(s: Seq<char>) -> Seq<Seq<char>> {
    split_nl_from(s, 0)
}

/// `trim_end_matches('\r')`: every trailing `\r` removed.
pub open spec fn trim_end_cr(t: Seq<char>) -> Seq<char>
    decreases t.len(),
{
    if t.len() > 0 && t.last() == '\r' {
        trim_end_cr(t.drop_last())
    } else {
        t
    }
}

/// The pieces joined with `sep` between them.
pub open spec fn join(ps: Seq<Seq<char>>, sep: Seq<char>) -> Seq<char>
    decreases ps.len(),
{
    if ps.len() == 0 {
        seq![]
    } else if ps.len() == 1 {
        ps[0]
    } else {
        join(ps.drop_last(), sep) + sep + ps.last()
    }
}

/// The range cuts the text `t` out of `s`.
pub open spec fn range_holds(s: Seq<char>, r: (usize, usize), t: Seq<char>) -> bool {
    r.0 <= r.1 && r.1 <= s.len() && s.subrange(r.0 as int, r.1 as int) == t
}

/// The `\n`-separated pieces of `s`, each without its trailing `\r`s: what
/// `s.split('\n').map(|l| l.trim_end_matches('\r'))` yields.
pub open spec fn pieces(s: Seq<char>) -> Seq<Seq<char>> {
    split_nl(s).map_values(|p: Seq<char>| trim_end_cr(p))
}

/// Each range of `rs` cuts out of `s` the matching text of `ts`.
pub open spec fn ranges_hold(s: Seq<char>, rs: Seq<(usize, usize)>, ps: Seq<Seq<char>>) -> bool {
    &&& rs.len() == ps.len()
    &&& forall|k: int|
        0 <= k < rs.len() ==> range_holds(s, #[trigger] rs[k], ps[k])
}

pub proof fn lemma_ranges_push(
    s: Seq<char>,
    rs: Seq<(usize, usize)>,
    ps: Seq<Seq<char>>,
    r: (usize, usize),
    p: Seq<char>,
)
    requires
        ranges_hold(s, rs, ps),
        r.0 <= r.1 <= s.len(),
        s.subrange(r.0 as int, r.1 as int) == p,
    ensures
        ranges_hold(s, rs.push(r), ps.push(p)),
{
    let rs2 = rs.push(r);
    let ps2 = ps.push(p);
    assert forall|k: int| 0 <= k < rs2.len() implies range_holds(s, #[trigger] rs2[k], ps2[k]) by {
        if k < rs.len() {
            assert(rs2[k] == rs[k]);
            assert(ps2[k] == ps[k]);
        } else {
            assert(rs2[k] == r);
            assert(ps2[k] == p);
        }
    }
}

pub proof fn lemma_ranges_subrange(s: Seq<char>, rs: Seq<(usize, usize)>, ts: Seq<Seq<char>>, a: int, b: int)
    requires
        ranges_hold(s, rs, ts),
        0 <= a <= b <= rs.len(),
    ensures
        ranges_hold(s, rs.subrange(a, b), ts.subrange(a, b)),
{
    assert forall|k: int| 0 <= k < b - a implies range_holds(s, #[trigger] rs.subrange(a, b)[k], ts.subrange(a, b)[k]) by {
        assert(rs.subrange(a, b)[k] == rs[a + k]);
        assert(ts.subrange(a, b)[k] == ts[a + k]);
    }
}

/// The ranges of the `\n`-separated pieces of `s`, each without its
/// trailing `\r`s.
pub fn split_nl_ranges(s: &[char]) -> (r: Vec<(usize, usize)>)
    ensures
        ranges_hold(s@, r@, pieces(s@)),
{
    let mut out: Vec<(usize, usize)> = Vec::new();
    let mut pos: usize = 0;
    let ghost mut done: Seq<Seq<char>> = seq![];
    loop
        invariant
            pos <= s@.len(),
            split_nl(s@) == done + split_nl_from(s@, pos as int),
            ranges_hold(s@, out@, done.map_values(|p: Seq<char>| trim_end_cr(p))),
        decreases s@.len() - pos,
    {
        let j = next_newline(s, pos);
        proof {
            lemma_next_nl(s@, pos as int);
        }
        let mut e = j;
        while e > pos && s[e - 1] == '\r'
            invariant
                pos <= e <= j <= s@.len(),
                trim_end_cr(s@.subrange(pos as int, j as int)) == trim_end_cr(
                    s@.subrange(pos as int, e as int),
                ),
            decreases e,
        {
            proof {
                assert(s@.subrange(pos as int, e as int).drop_last() =~= s@.subrange(
                    pos as int,
                    e - 1,
                ));
            }
            e = e - 1;
        }
        proof {
            let t = s@.subrange(pos as int, e as int);
            if t.len() > 0 {
                assert(t.last() == s@[e - 1]);
            }
            assert(trim_end_cr(t) == t);
        }
        let ghost old_out = out@;
        out.push((pos, e));
        proof {
            let piece = s@.subrange(pos as int, j as int);
            if j >= s@.len() {
                assert(split_nl_from(s@, pos as int) =~= seq![piece]);
            }
            assert(done.push(piece) + (if j >= s@.len() {
                seq![]
            } else {
                split_nl_from(s@, j + 1)
            }) =~= done + split_nl_from(s@, pos as int));
            let f = |p: Seq<char>| trim_end_cr(p);
            lemma_ranges_push(s@, old_out, done.map_values(f), (pos, e), trim_end_cr(piece));
            assert(out@ == old_out.push((pos, e)));
            assert(done.push(piece).map_values(f) =~= done.map_values(f).push(trim_end_cr(piece)));
            done = done.push(piece);
        }
        if j >= s.len() {
            proof {
                assert(split_nl(s@) =~= done);
            }
            return out;
        }
        pos = j + 1;
    }
}

/// `str::split_once(c)` for a single character: the text before the first
/// `c` and the text after it.
pub open spec fn split_once_char(s: Seq<char>, c: char) -> Option<(Seq<char>, Seq<char>)> {
    match find_from(s, seq![c], 0) {
        None => None,
        Some(i) => Some((s.subrange(0, i), s.subrange(i + 1, s.len() as int))),
    }
}

// ---------------------------------------------------------------------------
// Integers

pub open spec fn is_digit(c: char) -> bool {
    '0' <= c && c <= '9'
}

/// The value of a run of decimal digits.
pub open spec fn digits_value(s: Seq<char>) -> nat
    decreases s.len(),
{
    if s.len() == 0 {
        0
    } else {
        digits_value(s.drop_last()) * 10 + ((s.last() as u32) - ('0' as u32)) as nat
    }
}

pub open spec fn all_digits(s: Seq<char>) -> bool {
    forall|k: int| 0 <= k < s.len() ==> is_digit(#[trigger] s[k])
}

/// What `str::parse` gives for an unsigned integer type whose largest value
/// is `max`: an optional `+`, then at least one decimal digit and nothing
/// else, the value not above `max`.
pub open spec fn parse_unsigned(s: Seq<char>, max: nat) -> Option<nat> {
    let d = if s.len() > 0 && s[0] == '+' {
        s.drop_first()
    } else {
        s
    };
    if d.len() > 0 && all_digits(d) && digits_value(d) <= max {
        Some(digits_value(d))
    } else {
        None
    }
}

/// What `str::parse::<i64>` gives: an optional sign, then at least one
/// decimal digit and nothing else, the value within `i64`.
pub open spec fn parse_i64_spec(s: Seq<char>) -> Option<int> {
    if s.len() > 0 && s[0] == '-' {
        let d = s.drop_first();
        if d.len() > 0 && all_digits(d) && digits_value(d) <= 0x8000_0000_0000_0000 {
            Some(-(digits_value(d) as int))
        } else {
            None
        }
    } else {
        match parse_unsigned(s, 0x7fff_ffff_ffff_ffff) {
            Some(v) => Some(v as int),
            None => None,
        }
    }
}

proof fn lemma_digits_prefix_le(s: Seq<char>, j: int)
    requires
        0 <= j <= s.len(),
        all_digits(s),
    ensures
        digits_value(s.take(j)) <= digits_value(s),
    decreases s.len() - j,
{
    if j < s.len() {
        lemma_digits_prefix_le(s, j + 1);
        assert(s.take(j + 1).drop_last() =~= s.take(j));
        assert(is_digit(s[j]));
    } else {
        assert(s.take(j) =~= s);
    }
}

/// The value of a run of decimal digits, if it is one and fits in `u64`.
fn parse_digits(s: &[char]) -> (r: Option<u64>)
    ensures
        r matches Some(v) ==> s@.len() > 0 && all_digits(s@) && v == digits_value(s@),
        r is None ==> !(s@.len() > 0 && all_digits(s@) && digits_value(s@) <= u64::MAX),
{
    if s.len() == 0 {
        return None;
    }
    let mut v: u64 = 0;
    let mut i: usize = 0;
    while i < s.len()
        invariant
            i <= s@.len(),
            all_digits(s@.take(i as int)),
            v == digits_value(s@.take(i as int)),
        decreases s@.len() - i,
    {
        let c = s[i];
        if !('0' <= c && c <= '9') {
            proof {
                assert(!is_digit(s@[i as int]));
            }
            return None;
        }
        let d = (c as u32 - '0' as u32) as u64;
        proof {
            assert(s@.take(i + 1).drop_last() =~= s@.take(i as int));
        }
        if v > (u64::MAX - d) / 10 {
            proof {
                if all_digits(s@) {
                    lemma_digits_prefix_le(s@, i + 1);
                }
                assert(digits_value(s@.take(i + 1)) == v * 10 + d);
                assert(v * 10 + d > u64::MAX) by (nonlinear_arith)
                    requires
                        v > (u64::MAX - d) / 10,
                        d <= 9,
                ;
            }
            return None;
        }
        proof {
            assert(v * 10 + d <= u64::MAX) by (nonlinear_arith)
                requires
                    v <= (u64::MAX - d) / 10,
                    d <= 9,
            ;
        }
        v = v * 10 + d;
        i = i + 1;
    }
    proof {
        assert(s@.take(s@.len() as int) =~= s@);
    }
    Some(v)
}

/// `str::parse::<u64>`.
pub fn parse_u64(s: &[char]) -> (r: Option<u64>)
    ensures
        r matches Some(v) ==> parse_unsigned(s@, u64::MAX as nat) == Some(v as nat),
        r is None ==> parse_unsigned(s@, u64::MAX as nat) is None,
{
    if s.len() > 0 && s[0] == '+' {
        proof {
            assert(s@.drop_first() =~= s@.subrange(1, s@.len() as int));
        }
        parse_digits(&s[1..s.len()])
    } else {
        parse_digits(s)
    }
}

/// `str::parse::<u32>`.
pub fn parse_u32(s: &[char]) -> (r: Option<u32>)
    ensures
        r matches Some(v) ==> parse_unsigned(s@, u32::MAX as nat) == Some(v as nat),
        r is None ==> parse_unsigned(s@, u32::MAX as nat) is None,
{
    match parse_u64(s) {
        Some(v) => {
            if v <= u32::MAX as u64 {
                Some(v as u32)
            } else {
                None
            }
        },
        None => None,
    }
}

/// `str::parse::<i64>`.
pub fn parse_i64(s: &[char]) -> (r: Option<i64>)
    ensures
        r matches Some(v) ==> parse_i64_spec(s@) == Some(v as int),
        r is None ==> parse_i64_spec(s@) is None,
{
    if s.len() > 0 && s[0] == '-' {
        proof {
            assert(s@.drop_first() =~= s@.subrange(1, s@.len() as int));
        }
        match parse_digits(&s[1..s.len()]) {
            Some(v) => {
                if v <= 0x7fff_ffff_ffff_ffffu64 {
                    Some(-(v as i64))
                } else if v == 0x8000_0000_0000_0000u64 {
                    Some(i64::MIN)
                } else {
                    None
                }
            },
            None => None,
        }
    } else {
        match parse_u64(s) {
            Some(v) => {
                if v <= 0x7fff_ffff_ffff_ffffu64 {
                    Some(v as i64)
                } else {
                    None
                }
            },
            None => None,
        }
    }
}

// ---------------------------------------------------------------------------
// Pieces of a line

/// `s.split(key).nth(1)` for a non-empty `key`: the text between its first
/// and its second occurrence, or after the first when there is no second.
pub open spec fn split_second(s: Seq<char>, key: Seq<char>) -> Option<Seq<char>> {
    match find_from(s, key, 0) {
        None => None,
        Some(i) => {
            let a = i + key.len();
            match find_from(s, key, a) {
                None => Some(s.subrange(a, s.len() as int)),
                Some(j) => Some(s.subrange(a, j)),
            }
        },
    }
}

/// Where `s.split(key).nth(1)` lies in `s`.
pub fn split_second_at(s: &[char], key: &[char]) -> (r: Option<(usize, usize)>)
    requires
        key@.len() > 0,
    ensures
        r matches Some(p) ==> p.0 <= p.1 <= s@.len() && split_second(s@, key@) == Some(s@.subrange(p.0 as int, p.1 as int)),
        r is None ==> split_second(s@, key@) is None,
{
    match find(s, key, 0) {
        None => None,
        Some(i) => {
            proof {
                lemma_find_from_bounds(s@, key@, 0);
            }
            let n = s.len();
            assert(i + key@.len() <= n);
            let a = i + key.len();
            match find(s, key, a) {
                None => Some((a, s.len())),
                Some(j) => {
                    proof {
                        lemma_find_from_bounds(s@, key@, a as int);
                    }
                    Some((a, j))
                },
            }
        },
    }
}

/// `s.split_once(pat)`: the text before the first `pat` and the text after.
pub open spec fn split_once_str(s: Seq<char>, pat: Seq<char>) -> Option<(Seq<char>, Seq<char>)> {
    match find_from(s, pat, 0) {
        None => None,
        Some(i) => Some((s.subrange(0, i), s.subrange(i + pat.len(), s.len() as int))),
    }
}

/// The position of the first whitespace at or after `from`, or the length.
pub open spec fn ws_at(s: Seq<char>, from: int) -> int
    decreases s.len() - from,
{
    if from < 0 || from >= s.len() {
        s.len() as int
    } else if is_ws(s[from]) {
        from
    } else {
        ws_at(s, from + 1)
    }
}

/// `s.split_whitespace().next()`: the first run of characters that are not
/// whitespace.
pub open spec fn first_word(s: Seq<char>) -> Option<Seq<char>> {
    let t = trim_start(s);
    if t.len() == 0 {
        None
    } else {
        Some(t.take(ws_at(t, 0)))
    }
}

/// The first whitespace at or after `from`.
pub fn next_ws(s: &[char], from: usize) -> (r: usize)
    requires
        from <= s@.len(),
    ensures
        r == ws_at(s@, from as int),
        from <= r <= s@.len(),
{
    let mut i = from;
    while i < s.len()
        invariant
            from <= i <= s@.len(),
            ws_at(s@, from as int) == ws_at(s@, i as int),
        decreases s@.len() - i,
    {
        if is_whitespace(s[i]) {
            return i;
        }
        i = i + 1;
    }
    i
}

/// `s.split_whitespace().next()`.
pub fn first_word_of(s: &[char]) -> (r: Option<Vec<char>>)
    ensures
        match r {
            Some(w) => first_word(s@) == Some(w@),
            None => first_word(s@) is None,
        },
{
    let mut a: usize = 0;
    while a < s.len() && is_whitespace(s[a])
        invariant
            a <= s@.len(),
            forall|k: int| 0 <= k < a ==> is_ws(s@[k]),
        decreases s@.len() - a,
    {
        a = a + 1;
    }
    proof {
        lemma_trim_start_skip(s@, a as int);
        let u = s@.subrange(a as int, s@.len() as int);
        if u.len() > 0 {
            assert(!is_ws(u[0]));
        }
        assert(trim_start(s@) == u);
    }
    if a == s.len() {
        return None;
    }
    let n = s.len();
    let t = &s[a..n];
    let b = next_ws(t, 0);
    proof {
        assert(t@.subrange(0, b as int) =~= t@.take(b as int));
    }
    Some(slice_to_vec(&t[0..b]))
}

/// The line that starts right after a `\n` (or at `from`) is among the lines
/// from `from` on.
pub proof fn lemma_line_start_in_lines(s: Seq<char>, from: int, p: int)
    requires
        0 <= from <= p < s.len(),
        p == from || s[p - 1] == '\n',
    ensures
        lines_from(s, from).contains(line_at(s, p)),
    decreases p - from,
{
    lemma_next_nl(s, from);
    let j = next_nl(s, from);
    if p == from {
        assert(lines_from(s, from)[0] == line_at(s, from));
    } else {
        assert(j <= p - 1);
        lemma_line_start_in_lines(s, j + 1, p);
        let rest = lines_from(s, j + 1);
        let k = choose|k: int| 0 <= k < rest.len() && rest[k] == line_at(s, p);
        assert(lines_from(s, from) == seq![line_at(s, from)] + rest);
        assert(lines_from(s, from)[k + 1] == line_at(s, p));
    }
}


// ---------------------------------------------------------------------------
// Lines of texts put together

/// No `\n` in the text.
pub open spec fn no_nl(x: Seq<char>) -> bool {
    forall|k: int| 0 <= k < x.len() ==> x[k] != '\n'
}

/// Past a prefix, the next `\n` is the one of the rest, shifted.
pub proof fn lemma_next_nl_shift(p: Seq<char>, y: Seq<char>, f: int)
    requires
        0 <= f <= y.len(),
    ensures
        next_nl(p + y, p.len() + f) == p.len() + next_nl(y, f),
    decreases y.len() - f,
{
    let s = p + y;
    if f < y.len() {
        assert(s[p.len() + f] == y[f]);
        if y[f] != '\n' {
            lemma_next_nl_shift(p, y, f + 1);
        }
    }
}

/// Past a prefix, the lines are those of the rest.
pub proof fn lemma_lines_shift(p: Seq<char>, y: Seq<char>, f: int)
    requires
        0 <= f <= y.len(),
    ensures
        lines_from(p + y, p.len() + f) == lines_from(y, f),
    decreases y.len() - f,
{
    let s = p + y;
    let from = p.len() + f;
    lemma_next_nl_shift(p, y, f);
    lemma_next_nl(y, f);
    let j = next_nl(y, f);
    if f < y.len() {
        assert(s.subrange(from, p.len() + j) =~= y.subrange(f, j));
        assert(s.subrange(from, s.len() as int) =~= y.subrange(f, y.len() as int));
        assert(line_at(s, from) == line_at(y, f));
        if j < y.len() {
            lemma_lines_shift(p, y, j + 1);
        }
    }
}

/// The first `\n` from `from` on is at `e` when none comes before it.
pub proof fn lemma_next_nl_at(s: Seq<char>, from: int, e: int)
    requires
        0 <= from <= e < s.len(),
        s[e] == '\n',
        forall|k: int| from <= k < e ==> s[k] != '\n',
    ensures
        next_nl(s, from) == e,
    decreases e - from,
{
    if from < e {
        lemma_next_nl_at(s, from + 1, e);
    }
}

/// A line, its `\n`, then more text: that line first, then the lines of the
/// rest.
pub proof fn lemma_lines_cons(x: Seq<char>, y: Seq<char>)
    requires
        no_nl(x),
    ensures
        lines(x + seq!['\n'] + y) == seq![strip_cr(x)] + lines(y),
{
    let p = x + seq!['\n'];
    let s = p + y;
    assert(s[x.len() as int] == '\n');
    assert forall|k: int| 0 <= k < x.len() implies s[k] != '\n' by {
        assert(s[k] == x[k]);
    }
    lemma_next_nl_at(s, 0, x.len() as int);
    assert(s.subrange(0, x.len() as int) =~= x);
    lemma_lines_shift(p, y, 0);
    assert(lines_from(s, 0) == seq![line_at(s, 0)] + lines_from(s, x.len() as int + 1));
}

/// No `\r` in the text.
pub open spec fn no_cr(x: Seq<char>) -> bool {
    forall|k: int| 0 <= k < x.len() ==> x[k] != '\r'
}

/// Past a prefix, the pieces are those of the rest.
pub proof fn lemma_split_shift(p: Seq<char>, y: Seq<char>, f: int)
    requires
        0 <= f <= y.len(),
    ensures
        split_nl_from(p + y, p.len() + f) == split_nl_from(y, f),
    decreases y.len() - f,
{
    let s = p + y;
    let from = p.len() + f;
    lemma_next_nl_shift(p, y, f);
    lemma_next_nl(y, f);
    let j = next_nl(y, f);
    assert(s.subrange(from, p.len() + j) =~= y.subrange(f, j));
    assert(s.subrange(from, s.len() as int) =~= y.subrange(f, y.len() as int));
    if j < y.len() {
        lemma_split_shift(p, y, j + 1);
    }
}

/// Before the `\n` that ends `x`, the next `\n` of `x + \n + y` is that of
/// `x`.
pub proof fn lemma_next_nl_prefix(x: Seq<char>, y: Seq<char>, from: int)
    requires
        0 <= from <= x.len(),
    ensures
        next_nl(x + seq!['\n'] + y, from) == next_nl(x, from),
    decreases x.len() - from,
{
    let s = x + seq!['\n'] + y;
    if from < x.len() {
        assert(s[from] == x[from]);
        if x[from] != '\n' {
            lemma_next_nl_prefix(x, y, from + 1);
        }
    } else {
        assert(s[from] == '\n');
    }
}

/// Splitting `x`, a `\n`, then `y`: the pieces of `x`, then those of `y`.
pub proof fn lemma_split_concat(x: Seq<char>, y: Seq<char>, from: int)
    requires
        0 <= from <= x.len(),
    ensures
        split_nl_from(x + seq!['\n'] + y, from) == split_nl_from(x, from) + split_nl(y),
    decreases x.len() - from,
{
    let p = x + seq!['\n'];
    let s = p + y;
    lemma_next_nl_prefix(x, y, from);
    lemma_next_nl(x, from);
    let j = next_nl(x, from);
    assert(s.subrange(from, j) =~= x.subrange(from, j));
    if j < x.len() {
        lemma_split_concat(x, y, j + 1);
        assert(split_nl_from(s, from) == seq![x.subrange(from, j)] + split_nl_from(s, j + 1));
        assert(split_nl_from(x, from) == seq![x.subrange(from, j)] + split_nl_from(x, j + 1));
        assert(split_nl_from(s, from) =~= split_nl_from(x, from) + split_nl(y));
    } else {
        lemma_split_shift(p, y, 0);
        assert(split_nl_from(s, from) == seq![x.subrange(from, j)] + split_nl_from(s, x.len() as int + 1));
        assert(split_nl_from(x, from) == seq![x.subrange(from, x.len() as int)]);
    }
}

/// A text without `\n` is a single piece.
pub proof fn lemma_split_single(x: Seq<char>)
    requires
        no_nl(x),
    ensures
        split_nl(x) == seq![x],
{
    lemma_next_nl(x, 0);
    assert(x.subrange(0, x.len() as int) =~= x);
}

/// There is always a piece.
pub proof fn lemma_split_nonempty(s: Seq<char>, from: int)
    requires
        0 <= from <= s.len(),
    ensures
        split_nl_from(s, from).len() > 0,
{
    lemma_next_nl(s, from);
}

/// No piece of a text without `\r` holds one.
pub proof fn lemma_split_no_cr(s: Seq<char>, from: int)
    requires
        0 <= from <= s.len(),
        no_cr(s),
    ensures
        forall|k: int| 0 <= k < split_nl_from(s, from).len() ==> no_cr(#[trigger] split_nl_from(s, from)[k]),
    decreases s.len() - from,
{
    lemma_next_nl(s, from);
    let j = next_nl(s, from);
    let first = s.subrange(from, if j < s.len() { j } else { s.len() as int });
    assert(no_cr(first)) by {
        assert forall|i: int| 0 <= i < first.len() implies first[i] != '\r' by {
            assert(first[i] == s[from + i]);
        }
    }
    if j < s.len() {
        lemma_split_no_cr(s, j + 1);
        let rest = split_nl_from(s, j + 1);
        assert(split_nl_from(s, from) == seq![first] + rest);
        assert forall|k: int| 0 <= k < split_nl_from(s, from).len() implies no_cr(
            #[trigger] split_nl_from(s, from)[k],
        ) by {
            if k > 0 {
                assert(split_nl_from(s, from)[k] == rest[k - 1]);
            }
        }
    } else {
        assert(split_nl_from(s, from) == seq![first]);
    }
}

/// Without `\r`, the pieces are exactly what `split('\n')` gives.
pub proof fn lemma_pieces_no_cr(s: Seq<char>)
    requires
        no_cr(s),
    ensures
        pieces(s) == split_nl(s),
{
    lemma_split_no_cr(s, 0);
    let sp = split_nl(s);
    assert forall|k: int| 0 <= k < sp.len() implies trim_end_cr(sp[k]) == sp[k] by {
        assert(no_cr(sp[k]));
        if sp[k].len() > 0 {
            assert(sp[k].last() != '\r');
        }
    }
    assert(pieces(s) =~= sp);
}

/// Without `\r`, every piece that starts a line is one of the lines, or is
/// the empty piece after a final `\n`.
pub proof fn lemma_pieces_are_lines(s: Seq<char>, from: int)
    requires
        0 <= from <= s.len(),
        from == 0 || s[from - 1] == '\n',
        no_cr(s),
    ensures
        forall|k: int|
            0 <= k < split_nl_from(s, from).len() ==> (#[trigger] split_nl_from(s, from)[k]).len() == 0
                || lines(s).contains(split_nl_from(s, from)[k]),
    decreases s.len() - from,
{
    lemma_next_nl(s, from);
    let j = next_nl(s, from);
    let first = s.subrange(from, if j < s.len() { j } else { s.len() as int });
    if from < s.len() {
        lemma_line_start_in_lines(s, 0, from);
        if j < s.len() && first.len() > 0 {
            assert(first.last() == s[j - 1]);
        }
        assert(line_at(s, from) == first);
    }
    if j < s.len() {
        lemma_pieces_are_lines(s, j + 1);
        let rest = split_nl_from(s, j + 1);
        assert(split_nl_from(s, from) == seq![first] + rest);
        assert forall|k: int| 0 <= k < split_nl_from(s, from).len() implies (
        #[trigger] split_nl_from(s, from)[k]).len() == 0 || lines(s).contains(split_nl_from(s, from)[k]) by {
            if k > 0 {
                assert(split_nl_from(s, from)[k] == rest[k - 1]);
            }
        }
    } else {
        assert(split_nl_from(s, from) == seq![first]);
    }
}

/// Joining `a` to more pieces puts the separator after `a`.
pub proof fn lemma_join_cons(a: Seq<char>, rest: Seq<Seq<char>>, sep: Seq<char>)
    requires
        rest.len() > 0,
    ensures
        join(seq![a] + rest, sep) == a + sep + join(rest, sep),
    decreases rest.len(),
{
    let all = seq![a] + rest;
    if rest.len() == 1 {
        assert(all.drop_last() =~= seq![a]);
        assert(all.last() == rest[0]);
        assert(join(all, sep) == join(seq![a], sep) + sep + rest[0]);
        assert(join(rest, sep) == rest[0]);
    } else {
        assert(all.drop_last() =~= seq![a] + rest.drop_last());
        lemma_join_cons(a, rest.drop_last(), sep);
        assert(all.last() == rest.last());
        let m = join(rest.drop_last(), sep);
        assert(join(all, sep) == a + sep + m + sep + rest.last());
        assert(join(rest, sep) == m + sep + rest.last());
        assert(a + sep + m + sep + rest.last() =~= a + sep + (m + sep + rest.last()));
    }
}

/// Joining the pieces again with `\n` gives the text back.
pub proof fn lemma_join_split(s: Seq<char>, from: int)
    requires
        0 <= from <= s.len(),
    ensures
        join(split_nl_from(s, from), seq!['\n']) == s.subrange(from, s.len() as int),
    decreases s.len() - from,
{
    lemma_next_nl(s, from);
    let j = next_nl(s, from);
    if j < s.len() {
        lemma_join_split(s, j + 1);
        lemma_split_nonempty(s, j + 1);
        let rest = split_nl_from(s, j + 1);
        assert(split_nl_from(s, from) == seq![s.subrange(from, j)] + rest);
        lemma_join_cons(s.subrange(from, j), rest, seq!['\n']);
        assert(s.subrange(from, s.len() as int) =~= s.subrange(from, j) + seq!['\n'] + s.subrange(
            j + 1,
            s.len() as int,
        ));
    }
}


// ---------------------------------------------------------------------------
// Integers as text

/// The digit character for `d`, below ten.
pub open spec fn digit_char(d: nat) -> char {
    if d == 0 {
        '0'
    } else if d == 1 {
        '1'
    } else if d == 2 {
        '2'
    } else if d == 3 {
        '3'
    } else if d == 4 {
        '4'
    } else if d == 5 {
        '5'
    } else if d == 6 {
        '6'
    } else if d == 7 {
        '7'
    } else if d == 8 {
        '8'
    } else {
        '9'
    }
}

/// The decimal digits of `n`, most significant first, without leading zeros.
pub open spec fn decimal(n: nat) -> Seq<char>
    decreases n,
{
    if n < 10 {
        seq![digit_char(n)]
    } else {
        decimal(n / 10).push(digit_char(n % 10))
    }
}

/// An integer as `to_string` writes it: a `-` before a negative one.
pub open spec fn int_text(n: int) -> Seq<char> {
    if n < 0 {
        seq!['-'] + decimal((-n) as nat)
    } else {
        decimal(n as nat)
    }
}

fn digit_of(d: u64) -> (c: char)
    requires
        d < 10,
    ensures
        c == digit_char(d as nat),
{
    if d == 0 {
        '0'
    } else if d == 1 {
        '1'
    } else if d == 2 {
        '2'
    } else if d == 3 {
        '3'
    } else if d == 4 {
        '4'
    } else if d == 5 {
        '5'
    } else if d == 6 {
        '6'
    } else if d == 7 {
        '7'
    } else if d == 8 {
        '8'
    } else {
        '9'
    }
}

fn decimal_of(n: u64) -> (r: Vec<char>)
    ensures
        r@ == decimal(n as nat),
    decreases n,
{
    if n < 10 {
        let mut v: Vec<char> = Vec::new();
        v.push(digit_of(n));
        proof {
            assert(v@ =~= seq![digit_char(n as nat)]);
        }
        v
    } else {
        let mut v = decimal_of(n / 10);
        v.push(digit_of(n % 10));
        v
    }
}

/// Appends an integer as `to_string` writes it.
pub fn push_int_text(out: &mut String, n: i64)
    ensures
        final(out)@ == old(out)@ + int_text(n as int),
{
    if n < 0 {
        push_char(out, '-');
        let m: u64 = if n == i64::MIN {
            9223372036854775808u64
        } else {
            (-n) as u64
        };
        let ds = decimal_of(m);
        append_chars(out, ds.as_slice());
        proof {
            assert(out@ =~= old(out)@ + int_text(n as int));
        }
    } else {
        let ds = decimal_of(n as u64);
        append_chars(out, ds.as_slice());
    }
}

} // verus!
