//! Whether the client is up to date: reading a release tag, comparing it with
//! the running version, and how long an answer stays fresh.
use vstd::prelude::*;
use crate::text::{
    all_digits, chars_of, digits_value, find_char, find_from, is_ws, lemma_find_from_bounds, lemma_find_from_is_first, occurs_at,
    parse_u64, parse_unsigned, split_once_char, trim, trim_end, trim_start, trimmed,
};

verus! {

/// Where the releases are listed.
pub const RELEASES_URL: &'static str = "https://github.com/knightsofeternity/kfire-client/releases";

/// How long a successful check stays fresh, in seconds: six hours.
pub const TTL_OK_SECS: u64 = 21600;

/// How long a failed check stays fresh, in seconds: half an hour.
pub const TTL_ERR_SECS: u64 = 1800;

/// The tag without one leading `v` or `V`.
pub open spec fn strip_v(s: Seq<char>) -> Seq<char> {
    if s.len() > 0 && (s[0] == 'v' || s[0] == 'V') {
        s.drop_first()
    } else {
        s
    }
}

/// The position of the first `-` or `+` at or after `from`, or the length.
pub open spec fn suffix_at(s: Seq<char>, from: int) -> int
    decreases s.len() - from,
{
    if from < 0 || from >= s.len() {
        s.len() as int
    } else if s[from] == '-' || s[from] == '+' {
        from
    } else {
        suffix_at(s, from + 1)
    }
}

/// The release line, without a pre-release (`-beta`) or build (`+meta`)
/// suffix.
pub open spec fn core_of(s: Seq<char>) -> Seq<char> {
    s.take(suffix_at(s, 0))
}

/// The text up to the first `.`, all of it when there is none.
pub open spec fn first_piece(s: Seq<char>) -> Seq<char> {
    match split_once_char(s, '.') {
        Some((a, _)) => a,
        None => s,
    }
}

/// The text after the first `.`, if there is one.
pub open spec fn after_dot(s: Seq<char>) -> Option<Seq<char>> {
    match split_once_char(s, '.') {
        Some((_, b)) => Some(b),
        None => None,
    }
}

/// A version number: a missing piece reads as `0`, a present one must parse
/// as a `u64`.
pub open spec fn piece_value(p: Option<Seq<char>>) -> Option<nat> {
    match p {
        None => Some(0),
        Some(t) => parse_unsigned(t, u64::MAX as nat),
    }
}

/// `(major, minor, patch)` of a tag like `v0.3.2`, `0.3.2` or `v0.4.0-beta.1`:
/// surrounding spaces and one leading `v` dropped, the suffix dropped, then
/// the first three `.`-separated pieces, the first required.
pub open spec fn spec_parse_semver(s: Seq<char>) -> Option<(u64, u64, u64)> {
    let c = core_of(strip_v(trim(s)));
    let r1 = after_dot(c);
    let p1 = match r1 {
        Some(t) => Some(first_piece(t)),
        None => None,
    };
    let p2 = match r1 {
        Some(t) => match after_dot(t) {
            Some(u) => Some(first_piece(u)),
            None => None,
        },
        None => None,
    };
    match (parse_unsigned(first_piece(c), u64::MAX as nat), piece_value(p1), piece_value(p2)) {
        (Some(a), Some(b), Some(d)) => Some((a as u64, b as u64, d as u64)),
        _ => None,
    }
}

/// Tuples compared in order, the way `(u64, u64, u64)` compares.
pub open spec fn version_gt(l: (u64, u64, u64), c: (u64, u64, u64)) -> bool {
    l.0 > c.0 || (l.0 == c.0 && (l.1 > c.1 || (l.1 == c.1 && l.2 > c.2)))
}

/// Whether `latest` names a strictly newer release than `current`; anything
/// that does not parse is not newer.
pub open spec fn spec_is_newer(latest: Seq<char>, current: Seq<char>) -> bool {
    match (spec_parse_semver(latest), spec_parse_semver(current)) {
        (Some(l), Some(c)) => version_gt(l, c),
        _ => false,
    }
}

/// Where the first `.` is, with what `first_piece` and `after_dot` give.
fn dot_in(t: &[char]) -> (r: Option<usize>)
    ensures
        r matches Some(i) ==> i < t@.len() && first_piece(t@) == t@.subrange(0, i as int) && after_dot(t@)
            == Some(t@.subrange(i + 1, t@.len() as int)),
        r is None ==> first_piece(t@) == t@ && after_dot(t@) is None,
{
    let r = find_char(t, '.', 0);
    r
}

/// The position of the first `-` or `+`, or the length.
fn suffix_start(s: &[char]) -> (r: usize)
    ensures
        r == suffix_at(s@, 0),
        r <= s@.len(),
{
    let mut i: usize = 0;
    while i < s.len()
        invariant
            i <= s@.len(),
            suffix_at(s@, 0) == suffix_at(s@, i as int),
        decreases s@.len() - i,
    {
        if s[i] == '-' || s[i] == '+' {
            return i;
        }
        i = i + 1;
    }
    i
}

/// A version number as `piece_value` reads it.
fn value_of(p: Option<&[char]>) -> (r: Option<u64>)
    ensures
        r matches Some(v) ==> piece_value(
            match p {
                Some(t) => Some(t@),
                None => None,
            },
        ) == Some(v as nat),
        r is None ==> piece_value(
            match p {
                Some(t) => Some(t@),
                None => None,
            },
        ) is None,
{
    match p {
        None => Some(0),
        Some(t) => parse_u64(t),
    }
}

/// Parse a tag like `v0.3.2`, `0.3.2` or `v0.4.0-beta.1` into (major, minor,
/// patch). Pre-release and build suffixes are dropped.
pub fn parse_semver(s: &str) -> (r: Option<(u64, u64, u64)>)
    ensures
        r == spec_parse_semver(s@),
{
    let t = trimmed(chars_of(s).as_slice());
    let st: &[char] = if t.len() > 0 && (t[0] == 'v' || t[0] == 'V') {
        proof {
            assert(t@.subrange(1, t@.len() as int) =~= t@.drop_first());
        }
        &t.as_slice()[1..t.len()]
    } else {
        t.as_slice()
    };
    let cut = suffix_start(st);
    let c = &st[0..cut];
    proof {
        assert(c@ =~= core_of(strip_v(trim(s@))));
    }
    let (p0, p1, p2): (&[char], Option<&[char]>, Option<&[char]>) = match dot_in(c) {
        None => (c, None, None),
        Some(i) => {
            let cl = c.len();
            let r1 = &c[i + 1..cl];
            match dot_in(r1) {
                None => (&c[0..i], Some(r1), None),
                Some(j) => {
                    let rl = r1.len();
                    let r2 = &r1[j + 1..rl];
                    let q2: &[char] = match dot_in(r2) {
                        None => r2,
                        Some(k) => &r2[0..k],
                    };
                    (&c[0..i], Some(&r1[0..j]), Some(q2))
                },
            }
        },
    };
    let major = parse_u64(p0);
    let minor = value_of(p1);
    let patch = value_of(p2);
    match (major, minor, patch) {
        (Some(a), Some(b), Some(d)) => Some((a, b, d)),
        _ => None,
    }
}

/// True when `latest` is a strictly newer release than `current`.
/// Unparseable input is treated conservatively as "not newer".
pub fn is_newer(latest: &str, current: &str) -> (r: bool)
    ensures
        r == spec_is_newer(latest@, current@),
{
    match (parse_semver(latest), parse_semver(current)) {
        (Some(l), Some(c)) => l.0 > c.0 || (l.0 == c.0 && (l.1 > c.1 || (l.1 == c.1 && l.2 > c.2))),
        _ => false,
    }
}

/// Sent to the UI. `latest` and `update_available` are best effort: when
/// the check could not run, `latest` is `None` and only the version shows.
#[derive(Debug, Clone)]
pub struct UpdateInfo {
    pub current: String,
    pub latest: Option<String>,
    pub update_available: bool,
    pub releases_url: String,
}

/// The answer to give once the latest tag was fetched, or could not be: an
/// update is available only when a fetched tag is strictly newer.
pub fn update_info(current: String, latest: Option<String>) -> (r: UpdateInfo)
    ensures
        r.current@ == current@,
        r.latest == latest,
        r.update_available == match latest {
            Some(t) => spec_is_newer(t@, current@),
            None => false,
        },
        r.releases_url@ == RELEASES_URL@,
{
    let update_available = match &latest {
        Some(t) => is_newer(t.as_str(), current.as_str()),
        None => false,
    };
    UpdateInfo { current, latest, update_available, releases_url: RELEASES_URL.to_owned() }
}

/// Whether an answer stored this many seconds ago is still fresh: six hours
/// for a successful check, half an hour for a failed one.
pub fn is_fresh(ok: bool, elapsed_secs: u64) -> (r: bool)
    ensures
        r == (elapsed_secs < if ok { TTL_OK_SECS } else { TTL_ERR_SECS }),
{
    let ttl = if ok { TTL_OK_SECS } else { TTL_ERR_SECS };
    elapsed_secs < ttl
}

// ---------------------------------------------------------------------------
// Laws

/// "Newer" is a strict order on tags: no tag is newer than itself, two tags
/// are never each newer than the other, and newer than newer is newer.
pub proof fn law_is_newer_is_a_strict_order(a: Seq<char>, b: Seq<char>, c: Seq<char>)
    ensures
        !spec_is_newer(a, a),
        spec_is_newer(a, b) ==> !spec_is_newer(b, a),
        spec_is_newer(a, b) && spec_is_newer(b, c) ==> spec_is_newer(a, c),
{
}

/// A tag that does not parse is never newer, and nothing is newer than it.
pub proof fn law_garbage_is_never_newer(a: Seq<char>, b: Seq<char>)
    requires
        spec_parse_semver(a) is None,
    ensures
        !spec_is_newer(a, b),
        !spec_is_newer(b, a),
{
}

/// Between two tags that both read as versions, the newer is the one with
/// the greater major number; with the same major, the greater minor; with
/// both the same, the greater patch: a patch release is newer in any major
/// line. Of two different versions one is always newer, and a version is
/// never newer than itself.
pub proof fn law_is_newer_compares_major_minor_then_patch(a: Seq<char>, b: Seq<char>, l: (u64, u64, u64), c: (u64, u64, u64))
    requires
        spec_parse_semver(a) == Some(l),
        spec_parse_semver(b) == Some(c),
    ensures
        l.0 > c.0 ==> spec_is_newer(a, b),
        l.0 == c.0 && l.1 > c.1 ==> spec_is_newer(a, b),
        l.0 == c.0 && l.1 == c.1 && l.2 > c.2 ==> spec_is_newer(a, b),
        l == c ==> !spec_is_newer(a, b),
        l != c ==> spec_is_newer(a, b) || spec_is_newer(b, a),
        !(spec_is_newer(a, b) && spec_is_newer(b, a)),
{
}

/// A run of digits, each a `u64`-sized number.
pub open spec fn is_number(t: Seq<char>) -> bool {
    t.len() > 0 && all_digits(t) && digits_value(t) <= u64::MAX
}

proof fn lemma_find_none(s: Seq<char>, c: char, from: int)
    requires
        0 <= from,
        forall|k: int| from <= k < s.len() ==> s[k] != c,
    ensures
        find_from(s, seq![c], from) is None,
    decreases s.len() + 1 - from,
{
    if from + 1 <= s.len() {
        assert(!occurs_at(s, seq![c], from)) by {
            assert(s.subrange(from, from + 1)[0] == s[from]);
        }
        lemma_find_none(s, c, from + 1);
    }
}

/// Splitting `x . y` at its first `.`, when `x` holds none.
proof fn lemma_split_at_dot(x: Seq<char>, y: Seq<char>)
    requires
        forall|k: int| 0 <= k < x.len() ==> x[k] != '.',
    ensures
        split_once_char(x + seq!['.'] + y, '.') == Some((x, y)),
{
    let s = x + seq!['.'] + y;
    assert(s.subrange(x.len() as int, x.len() + 1int) =~= seq!['.']);
    assert forall|k: int| 0 <= k < x.len() implies !occurs_at(s, seq!['.'], k) by {
        assert(s.subrange(k, k + 1)[0] == x[k]);
    }
    lemma_find_from_is_first(s, seq!['.'], 0, x.len() as int);
    assert(s.subrange(0, x.len() as int) =~= x);
    assert(s.subrange(x.len() + 1int, s.len() as int) =~= y);
}

proof fn lemma_suffix_at(s: Seq<char>, from: int, e: int)
    requires
        0 <= from <= e <= s.len(),
        forall|k: int| from <= k < e ==> s[k] != '-' && s[k] != '+',
        e == s.len() || s[e] == '-' || s[e] == '+',
    ensures
        suffix_at(s, from) == e,
    decreases e - from,
{
    if from < e {
        lemma_suffix_at(s, from + 1, e);
    }
}

proof fn lemma_number_piece(t: Seq<char>)
    requires
        is_number(t),
    ensures
        parse_unsigned(t, u64::MAX as nat) == Some(digits_value(t)),
        split_once_char(t, '.') is None,
        forall|k: int| 0 <= k < t.len() ==> t[k] != '.' && t[k] != '-' && t[k] != '+' && !is_ws(#[trigger] t[k]),
{
    assert forall|k: int| 0 <= k < t.len() implies t[k] != '.' && t[k] != '-' && t[k] != '+' && !is_ws(#[trigger] t[k]) by {
        assert(crate::text::is_digit(t[k]));
    }
    assert(crate::text::is_digit(t[0]));
    lemma_find_none(t, '.', 0);
}

/// `parse_semver` reads a tag `major.minor.patch`, with or without a leading
/// `v`, followed or not by a pre-release (`-…`) or build (`+…`) suffix, as
/// its three numbers: the suffix plays no part.
pub proof fn law_parse_semver_reads_the_three_numbers(v: bool, a: Seq<char>, b: Seq<char>, c: Seq<char>, suffix: Seq<char>)
    requires
        is_number(a),
        is_number(b),
        is_number(c),
        suffix.len() == 0 || ((suffix[0] == '-' || suffix[0] == '+') && !is_ws(suffix.last())),
    ensures
        spec_parse_semver((if v { seq!['v'] } else { seq![] }) + a + seq!['.'] + b + seq!['.'] + c + suffix) == Some(
            (digits_value(a) as u64, digits_value(b) as u64, digits_value(c) as u64),
        ),
{
    lemma_number_piece(a);
    lemma_number_piece(b);
    lemma_number_piece(c);
    let pre: Seq<char> = if v { seq!['v'] } else { seq![] };
    let bc = b + seq!['.'] + c;
    let core = a + seq!['.'] + bc;
    let rest = core + suffix;
    let s = pre + rest;
    assert(pre + a + seq!['.'] + b + seq!['.'] + c + suffix =~= s);
    assert(core.len() > 0);
    assert forall|k: int| 0 <= k < core.len() implies core[k] != '-' && core[k] != '+' by {
        if k < a.len() {
            assert(core[k] == a[k]);
        } else if k > a.len() && k < a.len() + 1 + b.len() {
            assert(core[k] == b[k - a.len() - 1]);
        } else if k > a.len() + b.len() + 1 {
            assert(core[k] == c[k - a.len() - b.len() - 2]);
        }
    }
    // no surrounding space
    assert(!is_ws(s[0])) by {
        if v {
            assert(s[0] == 'v');
        } else {
            assert(s[0] == a[0]);
        }
    }
    assert(trim_start(s) == s);
    assert(!is_ws(s.last())) by {
        if suffix.len() == 0 {
            assert(s.last() == c.last());
            assert(!is_ws(c[c.len() - 1]));
        } else {
            assert(s.last() == suffix.last());
        }
    }
    assert(trim_end(s) == s);
    assert(trim(s) == s);
    // the `v`
    if v {
        assert(s.drop_first() =~= rest);
    } else {
        assert(s =~= rest);
        assert(rest[0] == a[0]);
    }
    assert(strip_v(s) == rest);
    // the suffix
    assert forall|k: int| 0 <= k < core.len() implies rest[k] != '-' && rest[k] != '+' by {
        assert(rest[k] == core[k]);
    }
    if suffix.len() > 0 {
        assert(rest[core.len() as int] == suffix[0]);
    }
    lemma_suffix_at(rest, 0, core.len() as int);
    assert(rest.take(core.len() as int) =~= core);
    assert(core_of(rest) == core);
    // the pieces
    lemma_split_at_dot(a, bc);
    lemma_split_at_dot(b, c);
    assert(first_piece(core) == a);
    assert(after_dot(core) == Some(bc));
    assert(first_piece(bc) == b);
    assert(after_dot(bc) == Some(c));
    assert(first_piece(c) == c);
}

/// A tag with fewer than three numbers reads its missing minor and patch as
/// `0`: `v1` is `1.0.0` and `v1.2` is `1.2.0`, so `v1.2` and `1.2.0` are
/// the same release and neither is newer than the other.
pub proof fn law_parse_semver_reads_missing_pieces_as_zero(v: bool, a: Seq<char>, b: Seq<char>)
    requires
        is_number(a),
        is_number(b),
    ensures
        spec_parse_semver((if v { seq!['v'] } else { seq![] }) + a) == Some((digits_value(a) as u64, 0u64, 0u64)),
        spec_parse_semver((if v { seq!['v'] } else { seq![] }) + a + seq!['.'] + b) == Some(
            (digits_value(a) as u64, digits_value(b) as u64, 0u64),
        ),
{
    lemma_number_piece(a);
    lemma_number_piece(b);
    let pre: Seq<char> = if v { seq!['v'] } else { seq![] };
    // `a` alone
    let s1 = pre + a;
    assert(!is_ws(s1[0])) by {
        if v {
            assert(s1[0] == 'v');
        } else {
            assert(s1[0] == a[0]);
        }
    }
    assert(s1.last() == a[a.len() - 1]);
    assert(trim_start(s1) == s1);
    assert(trim_end(s1) == s1);
    if v {
        assert(s1.drop_first() =~= a);
    } else {
        assert(s1 =~= a);
    }
    assert(strip_v(s1) == a);
    lemma_suffix_at(a, 0, a.len() as int);
    assert(a.take(a.len() as int) =~= a);
    assert(first_piece(a) == a);
    assert(after_dot(a) is None);
    // `a.b`
    let ab = a + seq!['.'] + b;
    let s2 = pre + ab;
    assert(pre + a + seq!['.'] + b =~= s2);
    assert(!is_ws(s2[0])) by {
        if v {
            assert(s2[0] == 'v');
        } else {
            assert(s2[0] == a[0]);
        }
    }
    assert(s2.last() == b[b.len() - 1]);
    assert(trim_start(s2) == s2);
    assert(trim_end(s2) == s2);
    if v {
        assert(s2.drop_first() =~= ab);
    } else {
        assert(s2 =~= ab);
        assert(ab[0] == a[0]);
    }
    assert(strip_v(s2) == ab);
    assert forall|k: int| 0 <= k < ab.len() implies ab[k] != '-' && ab[k] != '+' by {
        if k < a.len() {
            assert(ab[k] == a[k]);
        } else if k > a.len() {
            assert(ab[k] == b[k - a.len() - 1]);
        }
    }
    lemma_suffix_at(ab, 0, ab.len() as int);
    assert(ab.take(ab.len() as int) =~= ab);
    lemma_split_at_dot(a, b);
    assert(first_piece(b) == b);
    assert(after_dot(b) is None);
}

} // verus!
