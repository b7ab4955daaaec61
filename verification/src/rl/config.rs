//! The file that makes Rocket League open its stats socket.
//!
//! It is only written once the member has agreed, and taking the tracking away
//! takes it away too. Only what this client wrote is ever taken back.
use vstd::prelude::*;
use crate::text::{
    lemma_line_start_in_lines, next_nl, trim_end, trim_start, fold,
    append_chars, contains_chars, lemma_ranges_push, lemma_ranges_subrange,
    chars_eq, contains, join, pieces, range_holds, ranges_hold, split_nl_ranges,
    any_line, chars_eq_ignore_ascii_case, chars_of, eq_ignore_ascii_case, find, lemma_find_from_bounds,
    line_at, line_bounds, lines, lines_from, parse_u32, parse_unsigned, split_once_char, trim,
    trim_bounds, find_from, lemma_find_from_is_first, lemma_join_split, lemma_pieces_are_lines,
    lemma_pieces_no_cr, lemma_split_concat, lemma_split_nonempty, lemma_split_single, no_cr, no_nl,
    occurs_at, split_nl, split_nl_from,
};

verus! {

/// The default port of the stats socket.
pub const DEFAULT_PORT: u16 = 49123;

/// The section the game reads to decide whether to export its stats, asking
/// for the minimum send rate.
pub const STATS_BLOCK: &'static str = "\n[TAGame.MatchStatsExporter_TA]\nPort=49123\nPacketSendRate=30\n";

/// The section's name, lowercased, for a case-insensitive comparison.
pub open spec fn section_name() -> Seq<char> {
    "[tagame.matchstatsexporter_ta]"@
}

/// A line that names the stats section, whatever its case and spacing.
pub open spec fn is_section_line(l: Seq<char>) -> bool {
    eq_ignore_ascii_case(trim(l), section_name())
}

/// Whether the file already asks for the export: some line names the section.
pub open spec fn spec_has_stats_section(contents: Seq<char>) -> bool {
    lines(contents).any(|l: Seq<char>| is_section_line(l))
}

/// The characters of the section's name.
fn section_chars() -> (r: Vec<char>)
    ensures
        r@ == section_name(),
{
    chars_of("[tagame.matchstatsexporter_ta]")
}

/// Whether the file already asks for the export, ours or another tracker's.
pub fn has_stats_section(contents: &str) -> (b: bool)
    ensures
        b == spec_has_stats_section(contents@),
{
    let c = chars_of(contents);
    let sec = section_chars();
    let test = |l: &[char]| -> (b: bool)
        ensures
            b == is_section_line(l@),
        {
            let (a, e) = trim_bounds(l, 0, l.len());
            proof {
                assert(l@.subrange(0, l@.len() as int) =~= l@);
            }
            chars_eq_ignore_ascii_case(&l[a..e], sec.as_slice())
        };
    any_line(c.as_slice(), Ghost(|l: Seq<char>| is_section_line(l)), test)
}

/// The contents with our section added, or unchanged if there is one already.
pub open spec fn spec_with_stats_block(contents: Seq<char>) -> Seq<char> {
    if spec_has_stats_section(contents) {
        contents
    } else {
        contents + STATS_BLOCK@
    }
}

/// The contents with our section added, or unchanged if there is one already:
/// a second section would not be merged by the game, so an existing one,
/// most likely another tracker's, is left strictly alone.
pub fn with_stats_block(contents: &str) -> (r: String)
    ensures
        r@ == spec_with_stats_block(contents@),
{
    let mut out = contents.to_owned();
    if has_stats_section(contents) {
        return out;
    }
    out.append(STATS_BLOCK);
    out
}

// ---------------------------------------------------------------------------
// Taking our section back

/// The trimmed line sets `key` (compared ignoring ASCII case) to exactly
/// `value`.
pub open spec fn sets(l: Seq<char>, key: Seq<char>, value: Seq<char>) -> bool {
    match split_once_char(trim(l), '=') {
        None => false,
        Some((k, v)) => eq_ignore_ascii_case(trim(k), key) && trim(v) == value,
    }
}

pub open spec fn is_port_setting(l: Seq<char>) -> bool {
    sets(l, "port"@, "49123"@)
}

pub open spec fn is_rate_setting(l: Seq<char>) -> bool {
    sets(l, "packetsendrate"@, "30"@)
}

/// A section body is ours when its settings are exactly the ones this client
/// writes: nothing but blank lines and our two settings, both present.
pub open spec fn spec_is_ours(body: Seq<Seq<char>>) -> bool {
    &&& body.all(|l: Seq<char>| trim(l).len() == 0 || is_port_setting(l) || is_rate_setting(l))
    &&& body.any(|l: Seq<char>| is_port_setting(l))
    &&& body.any(|l: Seq<char>| is_rate_setting(l))
}

/// A line that opens a section.
pub open spec fn opens_section(l: Seq<char>) -> bool {
    trim(l).len() > 0 && trim(l)[0] == '['
}

/// The first index at or after `from` whose element satisfies `p`.
pub open spec fn first_index(ps: Seq<Seq<char>>, from: int, p: spec_fn(Seq<char>) -> bool) -> Option<int>
    decreases ps.len() - from,
{
    if from < 0 || from >= ps.len() {
        None
    } else if p(ps[from]) {
        Some(from)
    } else {
        first_index(ps, from + 1, p)
    }
}

/// The pieces without their trailing blank ones.
pub open spec fn drop_blank_tail(ps: Seq<Seq<char>>) -> Seq<Seq<char>>
    decreases ps.len(),
{
    if ps.len() > 0 && trim(ps.last()).len() == 0 {
        drop_blank_tail(ps.drop_last())
    } else {
        ps
    }
}

/// The line ending the file uses: CRLF as soon as it holds one.
pub open spec fn eol_of(c: Seq<char>) -> Seq<char> {
    if contains(c, "\r\n"@) {
        "\r\n"@
    } else {
        "\n"@
    }
}

/// The contents without the stats section, provided that section is ours.
///
/// The section runs from the line naming it to the next line opening a
/// section, or to the end. It goes, with the blank lines it leaves at the
/// end; the rest is joined again with the file's own line ending.
pub open spec fn spec_without_stats_block(c: Seq<char>) -> Seq<char> {
    let ps = pieces(c);
    match first_index(ps, 0, |l: Seq<char>| is_section_line(l)) {
        None => c,
        Some(start) => {
            let end = match first_index(ps, start + 1, |l: Seq<char>| opens_section(l)) {
                Some(e) => e,
                None => ps.len() as int,
            };
            if !spec_is_ours(ps.subrange(start + 1, end)) {
                c
            } else {
                let kept = drop_blank_tail(ps.subrange(0, start) + ps.subrange(end, ps.len() as int));
                if kept.len() == 0 {
                    seq![]
                } else {
                    join(kept, eol_of(c)) + eol_of(c)
                }
            }
        },
    }
}

/// Whether the trimmed line sets `key` to exactly `value`.
fn line_sets(l: &[char], key: &[char], value: &[char]) -> (r: bool)
    ensures
        r == sets(l@, key@, value@),
{
    let (a, e) = trim_bounds(l, 0, l.len());
    proof {
        assert(l@.subrange(0, l@.len() as int) =~= l@);
    }
    let t = &l[a..e];
    let eq: [char; 1] = ['='];
    proof {
        assert(eq@ =~= seq!['=']);
    }
    match find(t, &eq, 0) {
        None => false,
        Some(i) => {
            proof {
                lemma_find_from_bounds(t@, seq!['='], 0);
            }
            let (ka, ke) = trim_bounds(t, 0, i);
            let (va, ve) = trim_bounds(t, i + 1, t.len());
            chars_eq_ignore_ascii_case(&t[ka..ke], key) && chars_eq(&t[va..ve], value)
        },
    }
}

/// Whether this section's settings are exactly the ones we write.
fn is_ours(s: &[char], body: &[(usize, usize)], Ghost(ts): Ghost<Seq<Seq<char>>>) -> (r: bool)
    requires
        ranges_hold(s@, body@, ts),
    ensures
        r == spec_is_ours(ts),
{
    let port_key = chars_of("port");
    let port_val = chars_of("49123");
    let rate_key = chars_of("packetsendrate");
    let rate_val = chars_of("30");
    let mut port = false;
    let mut rate = false;
    let mut i: usize = 0;
    while i < body.len()
        invariant
            ranges_hold(s@, body@, ts),
            i <= body@.len(),
            port_key@ == "port"@,
            port_val@ == "49123"@,
            rate_key@ == "packetsendrate"@,
            rate_val@ == "30"@,
            forall|k: int|
                0 <= k < i ==> trim(#[trigger] ts[k]).len() == 0 || is_port_setting(ts[k])
                    || is_rate_setting(ts[k]),
            port == ts.take(i as int).any(|l: Seq<char>| is_port_setting(l)),
            rate == ts.take(i as int).any(|l: Seq<char>| is_rate_setting(l)),
        decreases body@.len() - i,
    {
        let (a, b) = body[i];
        proof {
            assert(range_holds(s@, body@[i as int], ts[i as int]));
        }
        let l = &s[a..b];
        let (ta, te) = trim_bounds(l, 0, l.len());
        proof {
            assert(l@.subrange(0, l@.len() as int) =~= l@);
        }
        let is_port = line_sets(l, port_key.as_slice(), port_val.as_slice());
        let is_rate = line_sets(l, rate_key.as_slice(), rate_val.as_slice());
        if ta != te && !is_port && !is_rate {
            proof {
                let ap = |l: Seq<char>| trim(l).len() == 0 || is_port_setting(l) || is_rate_setting(l);
                assert(l@ == ts[i as int]);
                assert(!ap(ts[i as int]));
                assert(!ts.all(ap));
            }
            return false;
        }
        if is_port {
            port = true;
        }
        if is_rate {
            rate = true;
        }
        proof {
            let t2 = ts.take(i + 1);
            assert(t2.drop_last() =~= ts.take(i as int));
            let pp = |l: Seq<char>| is_port_setting(l);
            let rp = |l: Seq<char>| is_rate_setting(l);
            if t2.any(pp) {
                let k = choose|k: int| 0 <= k < t2.len() && pp(t2[k]);
                if k < i {
                    assert(ts.take(i as int)[k] == t2[k]);
                }
            }
            if ts.take(i as int).any(pp) {
                let k = choose|k: int| 0 <= k < i && pp(ts.take(i as int)[k]);
                assert(t2[k] == ts.take(i as int)[k]);
            }
            if t2.any(rp) {
                let k = choose|k: int| 0 <= k < t2.len() && rp(t2[k]);
                if k < i {
                    assert(ts.take(i as int)[k] == t2[k]);
                }
            }
            if ts.take(i as int).any(rp) {
                let k = choose|k: int| 0 <= k < i && rp(ts.take(i as int)[k]);
                assert(t2[k] == ts.take(i as int)[k]);
            }
            if is_port {
                assert(pp(t2[i as int]));
            }
            if is_rate {
                assert(rp(t2[i as int]));
            }
        }
        i = i + 1;
    }
    proof {
        assert(ts.take(i as int) =~= ts);
    }
    port && rate
}

/// Whether the text in `c[r]` is blank once trimmed.
fn is_blank(c: &[char], r: (usize, usize), Ghost(t): Ghost<Seq<char>>) -> (b: bool)
    requires
        range_holds(c@, r, t),
    ensures
        b == (trim(t).len() == 0),
{
    let (a, e) = trim_bounds(c, r.0, r.1);
    a == e
}

/// Whether the text in `c[r]` names the stats section.
fn names_section(c: &[char], r: (usize, usize), sec: &[char], Ghost(t): Ghost<Seq<char>>) -> (b: bool)
    requires
        range_holds(c@, r, t),
        sec@ == section_name(),
    ensures
        b == is_section_line(t),
{
    let (a, e) = trim_bounds(c, r.0, r.1);
    chars_eq_ignore_ascii_case(&c[a..e], sec)
}

/// Whether the text in `c[r]` opens a section.
fn opens_a_section(c: &[char], r: (usize, usize), Ghost(t): Ghost<Seq<char>>) -> (b: bool)
    requires
        range_holds(c@, r, t),
    ensures
        b == opens_section(t),
{
    let (a, e) = trim_bounds(c, r.0, r.1);
    a < e && c[a] == '['
}

/// The contents without the section, provided that section is ours.
///
/// The removal works line by line, so a file that came back from an editor
/// in CRLF loses our section too, and keeps its own line endings. Only a
/// section whose settings are exactly ours is taken back: another tracker's
/// configuration is never broken.
#[verifier::loop_isolation(false)]
pub fn without_stats_block(contents: &str) -> (r: String)
    ensures
        r@ == spec_without_stats_block(contents@),
{
    let c = chars_of(contents);
    let crlf = chars_of("\r\n");
    let eol: Vec<char> = if contains_chars(c.as_slice(), crlf.as_slice()) {
        chars_of("\r\n")
    } else {
        chars_of("\n")
    };
    let ranges = split_nl_ranges(c.as_slice());
    let ghost ps = pieces(c@);
    let ghost is_sec = |l: Seq<char>| is_section_line(l);
    let ghost opens = |l: Seq<char>| opens_section(l);
    let sec = section_chars();
    let n = ranges.len();

    let mut start: usize = 0;
    while start < n
        invariant
            n == ranges@.len(),
            ranges_hold(c@, ranges@, ps),
            sec@ == section_name(),
            start <= n,
            first_index(ps, 0, is_sec) == first_index(ps, start as int, is_sec),
        decreases n - start,
    {
        if names_section(c.as_slice(), ranges[start], sec.as_slice(), Ghost(ps[start as int])) {
            break;
        }
        proof {
            assert(ps.len() == n);
            assert(!is_sec(ps[start as int]));
            assert(first_index(ps, start as int, is_sec) == first_index(ps, start + 1, is_sec));
        }
        start = start + 1;
    }
    if start == n {
        return contents.to_owned();
    }
    let mut end: usize = start + 1;
    while end < n
        invariant
            n == ranges@.len(),
            ranges_hold(c@, ranges@, ps),
            start < end <= n,
            first_index(ps, start + 1, opens) == first_index(ps, end as int, opens),
        decreases n - end,
    {
        if opens_a_section(c.as_slice(), ranges[end], Ghost(ps[end as int])) {
            break;
        }
        proof {
            assert(ps.len() == n);
            assert(!opens(ps[end as int]));
            assert(first_index(ps, end as int, opens) == first_index(ps, end + 1, opens));
        }
        end = end + 1;
    }
    proof {
        lemma_ranges_subrange(c@, ranges@, ps, start + 1, end as int);
    }
    if !is_ours(c.as_slice(), &ranges.as_slice()[start + 1..end], Ghost(ps.subrange(start + 1, end as int))) {
        return contents.to_owned();
    }

    let ghost full = ps.subrange(0, start as int) + ps.subrange(end as int, n as int);
    let mut kept: Vec<(usize, usize)> = Vec::new();
    let ghost mut kts: Seq<Seq<char>> = seq![];
    let mut k: usize = 0;
    while k < n
        invariant
            n == ranges@.len(),
            ranges_hold(c@, ranges@, ps),
            start < end <= n,
            k <= n,
            ranges_hold(c@, kept@, kts),
            kts == (if k <= start {
                ps.subrange(0, k as int)
            } else if k <= end {
                ps.subrange(0, start as int)
            } else {
                ps.subrange(0, start as int) + ps.subrange(end as int, k as int)
            }),
        decreases n - k,
    {
        if k < start || k >= end {
            proof {
                assert(range_holds(c@, ranges@[k as int], ps[k as int]));
                lemma_ranges_push(c@, kept@, kts, ranges@[k as int], ps[k as int]);
                if k < start {
                    assert(ps.subrange(0, k as int).push(ps[k as int]) =~= ps.subrange(0, k + 1));
                } else if k == end {
                    assert(ps.subrange(0, start as int).push(ps[k as int]) =~= ps.subrange(0, start as int)
                        + ps.subrange(end as int, k + 1));
                } else {
                    assert((ps.subrange(0, start as int) + ps.subrange(end as int, k as int)).push(ps[k as int])
                        =~= ps.subrange(0, start as int) + ps.subrange(end as int, k + 1));
                }
                kts = kts.push(ps[k as int]);
            }
            kept.push(ranges[k]);
        } else {
            proof {
                if k + 1 > end {
                    assert(ps.subrange(end as int, k + 1) =~= seq![]);
                    assert(ps.subrange(0, start as int) + seq![] =~= ps.subrange(0, start as int));
                }
            }
        }
        k = k + 1;
    }
    proof {
        if n <= end {
            assert(ps.subrange(end as int, n as int) =~= seq![]);
            assert(ps.subrange(0, start as int) + seq![] =~= ps.subrange(0, start as int));
        }
        assert(kts == full);
    }

    while kept.len() > 0 && is_blank(c.as_slice(), kept[kept.len() - 1], Ghost(kts.last()))
        invariant
            ranges_hold(c@, kept@, kts),
            drop_blank_tail(full) == drop_blank_tail(kts),
        decreases kept@.len(),
    {
        proof {
            assert(range_holds(c@, kept@[kept@.len() - 1], kts[kts.len() - 1]));
            lemma_ranges_subrange(c@, kept@, kts, 0, kept@.len() - 1);
            assert(kept@.subrange(0, kept@.len() - 1) =~= kept@.drop_last());
            assert(kts.subrange(0, kts.len() - 1) =~= kts.drop_last());
            kts = kts.drop_last();
        }
        kept.pop();
    }
    proof {
        if kts.len() > 0 {
            assert(range_holds(c@, kept@[kept@.len() - 1], kts[kts.len() - 1]));
        }
        assert(drop_blank_tail(kts) == kts);
    }
    if kept.len() == 0 {
        return String::new();
    }
    let mut out = String::new();
    let mut i: usize = 0;
    while i < kept.len()
        invariant
            ranges_hold(c@, kept@, kts),
            i <= kept@.len(),
            i == 0 ==> out@ == Seq::<char>::empty(),
            i > 0 ==> out@ == join(kts.take(i as int), eol@),
        decreases kept@.len() - i,
    {
        if i > 0 {
            append_chars(&mut out, eol.as_slice());
        }
        let (a, b) = kept[i];
        proof {
            assert(range_holds(c@, kept@[i as int], kts[i as int]));
        }
        append_chars(&mut out, &c.as_slice()[a..b]);
        proof {
            let t1 = kts.take(i + 1);
            if i == 0 {
                assert(t1.len() == 1);
                assert(join(t1, eol@) == t1[0]);
            } else {
                assert(t1.drop_last() =~= kts.take(i as int));
                assert(t1.last() == kts[i as int]);
            }
        }
        i = i + 1;
    }
    append_chars(&mut out, eol.as_slice());
    proof {
        assert(kts.take(kts.len() as int) =~= kts);
    }
    out
}

// ---------------------------------------------------------------------------
// The port

/// The port a line sets, if it sets one within the user ports.
pub open spec fn line_port(l: Seq<char>) -> Option<u16> {
    match split_once_char(trim(l), '=') {
        None => None,
        Some((k, v)) => if eq_ignore_ascii_case(trim(k), "port"@) {
            match parse_unsigned(trim(v), u32::MAX as nat) {
                Some(p) => if 1024 <= p && p <= 65535 {
                    Some(p as u16)
                } else {
                    None
                },
                None => None,
            }
        } else {
            None
        },
    }
}

/// The port the first line setting one sets, else the default.
pub open spec fn port_of_lines(ls: Seq<Seq<char>>) -> u16
    decreases ls.len(),
{
    if ls.len() == 0 {
        DEFAULT_PORT
    } else {
        match line_port(ls[0]) {
            Some(p) => p,
            None => port_of_lines(ls.drop_first()),
        }
    }
}

/// The port the line sets, if it sets one within the user ports.
fn port_of_line(l: &[char], key: &[char]) -> (r: Option<u16>)
    requires
        key@ == "port"@,
    ensures
        r == line_port(l@),
{
    let (a, e) = trim_bounds(l, 0, l.len());
    proof {
        assert(l@.subrange(0, l@.len() as int) =~= l@);
    }
    let t = &l[a..e];
    let eq: [char; 1] = ['='];
    proof {
        assert(eq@ =~= seq!['=']);
    }
    match find(t, &eq, 0) {
        None => None,
        Some(i) => {
            proof {
                lemma_find_from_bounds(t@, seq!['='], 0);
            }
            let (ka, ke) = trim_bounds(t, 0, i);
            if !chars_eq_ignore_ascii_case(&t[ka..ke], key) {
                return None;
            }
            let (va, ve) = trim_bounds(t, i + 1, t.len());
            match parse_u32(&t[va..ve]) {
                Some(p) => {
                    if 1024 <= p && p <= 65535 {
                        Some(p as u16)
                    } else {
                        None
                    }
                },
                None => None,
            }
        },
    }
}

/// The port the game will listen on, according to the file: when the stats
/// section is there, the first port its own lines set (else the default);
/// otherwise the first port any line sets (else the default).
pub open spec fn spec_port_in(c: Seq<char>) -> u16 {
    let ls = lines(c);
    match first_index(ls, 0, |l: Seq<char>| is_section_line(l)) {
        Some(s) => port_of_lines(
            ls.subrange(
                s + 1,
                match first_index(ls, s + 1, |l: Seq<char>| opens_section(l)) {
                    Some(e) => e,
                    None => ls.len() as int,
                },
            ),
        ),
        None => port_of_lines(ls),
    }
}

/// The ranges of the lines of `c`, as `str::lines` cuts them.
fn line_ranges(c: &[char]) -> (r: Vec<(usize, usize)>)
    ensures
        ranges_hold(c@, r@, lines(c@)),
{
    let mut out: Vec<(usize, usize)> = Vec::new();
    let ghost mut done: Seq<Seq<char>> = seq![];
    let mut pos: usize = 0;
    while pos < c.len()
        invariant
            pos <= c@.len(),
            ranges_hold(c@, out@, done),
            lines(c@) == done + lines_from(c@, pos as int),
        decreases c@.len() - pos,
    {
        let (a, b, next) = line_bounds(c, pos);
        proof {
            lemma_ranges_push(c@, out@, done, (a, b), line_at(c@, pos as int));
            assert(done + lines_from(c@, pos as int) =~= done.push(line_at(c@, pos as int)) + lines_from(
                c@,
                next as int,
            ));
            done = done.push(line_at(c@, pos as int));
        }
        out.push((a, b));
        pos = next;
    }
    proof {
        assert(lines_from(c@, pos as int) =~= seq![]);
        assert(done + seq![] =~= done);
    }
    out
}

/// The first port the lines `lo..hi` set, else the default.
fn port_of_range(c: &[char], rs: &[(usize, usize)], key: &[char], lo: usize, hi: usize, Ghost(ls): Ghost<Seq<Seq<char>>>) -> (p: u16)
    requires
        ranges_hold(c@, rs@, ls),
        key@ == "port"@,
        lo <= hi <= rs@.len(),
    ensures
        p == port_of_lines(ls.subrange(lo as int, hi as int)),
{
    let mut i: usize = lo;
    while i < hi
        invariant
            ranges_hold(c@, rs@, ls),
            key@ == "port"@,
            lo <= i <= hi <= rs@.len(),
            port_of_lines(ls.subrange(lo as int, hi as int)) == port_of_lines(ls.subrange(i as int, hi as int)),
        decreases hi - i,
    {
        let (a, b) = rs[i];
        proof {
            assert(range_holds(c@, rs@[i as int], ls[i as int]));
            let t = ls.subrange(i as int, hi as int);
            assert(t[0] == ls[i as int]);
            assert(t.drop_first() =~= ls.subrange(i + 1, hi as int));
        }
        if let Some(p) = port_of_line(&c[a..b], key) {
            return p;
        }
        i = i + 1;
    }
    proof {
        assert(ls.subrange(i as int, hi as int) =~= seq![]);
    }
    DEFAULT_PORT
}

/// The port the game will listen on, according to the file.
///
/// If a section is already there, it is its port that counts: that is the one
/// the game will open. A value that cannot be read, or one outside the user
/// ports, falls back to the default.
#[verifier::loop_isolation(false)]
pub fn port_in(contents: &str) -> (p: u16)
    ensures
        p == spec_port_in(contents@),
{
    let c = chars_of(contents);
    let key = chars_of("port");
    let ranges = line_ranges(c.as_slice());
    let ghost ls = lines(c@);
    let ghost is_sec = |l: Seq<char>| is_section_line(l);
    let ghost opens = |l: Seq<char>| opens_section(l);
    let sec = section_chars();
    let n = ranges.len();
    let mut start: usize = 0;
    while start < n
        invariant
            n == ranges@.len(),
            ranges_hold(c@, ranges@, ls),
            sec@ == section_name(),
            start <= n,
            first_index(ls, 0, is_sec) == first_index(ls, start as int, is_sec),
        decreases n - start,
    {
        if names_section(c.as_slice(), ranges[start], sec.as_slice(), Ghost(ls[start as int])) {
            break;
        }
        proof {
            assert(!is_sec(ls[start as int]));
            assert(first_index(ls, start as int, is_sec) == first_index(ls, start + 1, is_sec));
        }
        start = start + 1;
    }
    if start == n {
        proof {
            assert(first_index(ls, n as int, is_sec) is None);
            assert(ls.subrange(0, n as int) =~= ls);
        }
        return port_of_range(c.as_slice(), ranges.as_slice(), key.as_slice(), 0, n, Ghost(ls));
    }
    proof {
        assert(first_index(ls, start as int, is_sec) == Some(start as int));
    }
    let mut end: usize = start + 1;
    while end < n
        invariant
            n == ranges@.len(),
            ranges_hold(c@, ranges@, ls),
            start < end <= n,
            first_index(ls, start + 1, opens) == first_index(ls, end as int, opens),
        decreases n - end,
    {
        if opens_a_section(c.as_slice(), ranges[end], Ghost(ls[end as int])) {
            break;
        }
        proof {
            assert(!opens(ls[end as int]));
            assert(first_index(ls, end as int, opens) == first_index(ls, end + 1, opens));
        }
        end = end + 1;
    }
    proof {
        if end == n {
            assert(first_index(ls, n as int, opens) is None);
        } else {
            assert(first_index(ls, end as int, opens) == Some(end as int));
        }
    }
    port_of_range(c.as_slice(), ranges.as_slice(), key.as_slice(), start + 1, end, Ghost(ls))
}

// ---------------------------------------------------------------------------
// Laws

/// Once our section is added, the file asks for the export.
pub proof fn law_with_stats_block_enables(contents: Seq<char>)
    ensures
        spec_has_stats_section(spec_with_stats_block(contents)),
{
    if !spec_has_stats_section(contents) {
        let s = contents + STATS_BLOCK@;
        let p: int = contents.len() as int + 1;
        let name = "[TAGame.MatchStatsExporter_TA]"@;
        reveal_strlit("\n[TAGame.MatchStatsExporter_TA]\nPort=49123\nPacketSendRate=30\n");
        reveal_strlit("[TAGame.MatchStatsExporter_TA]");
        reveal_strlit("[tagame.matchstatsexporter_ta]");
        assert(s[p - 1] == '\n');
        assert(next_nl(s, p) == p + 30) by {
            reveal_with_fuel(next_nl, 31);
        }
        assert(s.subrange(p, p + 30) =~= name);
        assert(line_at(s, p) == name);
        assert(trim_start(name) == name);
        assert(trim_end(name) == name);
        assert forall|k: int| 0 <= k < 30 implies fold(#[trigger] name[k]) == fold(section_name()[k]) by {
            assert(0 <= k < 30);
        }
        assert(is_section_line(name));
        lemma_line_start_in_lines(s, 0, p);
        let k = choose|k: int| 0 <= k < lines(s).len() && lines(s)[k] == line_at(s, p);
        let pr = |l: Seq<char>| is_section_line(l);
        assert(pr(lines(s)[k]));
        assert(lines(s).any(pr));
    }
}

/// Adding our section twice is adding it once.
pub proof fn law_with_stats_block_is_idempotent(contents: Seq<char>)
    ensures
        spec_with_stats_block(spec_with_stats_block(contents)) == spec_with_stats_block(contents),
{
    law_with_stats_block_enables(contents);
}


/// The first index found is the first that satisfies the test.
proof fn lemma_first_index_found(ps: Seq<Seq<char>>, from: int, i: int, p: spec_fn(Seq<char>) -> bool)
    requires
        0 <= from <= i < ps.len(),
        p(ps[i]),
        forall|k: int| from <= k < i ==> !p(#[trigger] ps[k]),
    ensures
        first_index(ps, from, p) == Some(i),
    decreases i - from,
{
    if from < i {
        lemma_first_index_found(ps, from + 1, i, p);
    }
}

/// No index is found when none satisfies the test.
proof fn lemma_first_index_none(ps: Seq<Seq<char>>, from: int, p: spec_fn(Seq<char>) -> bool)
    requires
        0 <= from,
        forall|k: int| from <= k < ps.len() ==> !p(#[trigger] ps[k]),
    ensures
        first_index(ps, from, p) is None,
    decreases ps.len() - from,
{
    if from < ps.len() {
        lemma_first_index_none(ps, from + 1, p);
    }
}

/// What the lines of our block say: the section's name, then our two
/// settings, neither of which opens a section.
proof fn lemma_our_lines()
    ensures
        is_section_line("[TAGame.MatchStatsExporter_TA]"@),
        is_port_setting("Port=49123"@),
        is_rate_setting("PacketSendRate=30"@),
        !opens_section("Port=49123"@),
        !opens_section("PacketSendRate=30"@),
        no_nl("[TAGame.MatchStatsExporter_TA]"@),
        no_nl("Port=49123"@),
        no_nl("PacketSendRate=30"@),
{
    let name = "[TAGame.MatchStatsExporter_TA]"@;
    let port = "Port=49123"@;
    let rate = "PacketSendRate=30"@;
    reveal_strlit("[TAGame.MatchStatsExporter_TA]");
    reveal_strlit("[tagame.matchstatsexporter_ta]");
    reveal_strlit("Port=49123");
    reveal_strlit("PacketSendRate=30");
    reveal_strlit("port");
    reveal_strlit("49123");
    reveal_strlit("packetsendrate");
    reveal_strlit("30");
    assert(trim_start(name) == name);
    assert(trim_end(name) == name);
    assert forall|k: int| 0 <= k < 30 implies fold(#[trigger] name[k]) == fold(section_name()[k]) by {
        assert(0 <= k < 30);
    }
    assert forall|k: int| 0 <= k < name.len() implies name[k] != '\n' by {
        assert(0 <= k < 30);
    }
    assert forall|k: int| 0 <= k < port.len() implies port[k] != '\n' by {
        assert(0 <= k < 10);
    }
    assert forall|k: int| 0 <= k < rate.len() implies rate[k] != '\n' by {
        assert(0 <= k < 17);
    }
    assert(trim_start(port) == port);
    assert(trim_end(port) == port);
    assert(trim_start(rate) == rate);
    assert(trim_end(rate) == rate);
    let eq = seq!['='];
    assert forall|k: int| 0 <= k < 4 implies !occurs_at(port, eq, k) by {
        assert(port.subrange(k, k + 1)[0] == port[k]);
    }
    assert(port.subrange(4, 5) =~= eq);
    lemma_find_from_is_first(port, eq, 0, 4);
    let pk = port.subrange(0, 4);
    let pv = port.subrange(5, 10);
    assert(pk =~= seq!['P', 'o', 'r', 't']);
    assert(pv =~= "49123"@);
    assert(trim_start(pk) == pk);
    assert(trim_end(pk) == pk);
    assert(trim_start(pv) == pv);
    assert(trim_end(pv) == pv);
    assert forall|k: int| 0 <= k < 4 implies fold(#[trigger] pk[k]) == fold("port"@[k]) by {
        assert(0 <= k < 4);
    }
    assert forall|k: int| 0 <= k < 14 implies !occurs_at(rate, eq, k) by {
        assert(rate.subrange(k, k + 1)[0] == rate[k]);
        assert(0 <= k < 14);
    }
    assert(rate.subrange(14, 15) =~= eq);
    lemma_find_from_is_first(rate, eq, 0, 14);
    let rk = rate.subrange(0, 14);
    let rv = rate.subrange(15, 17);
    assert(rv =~= "30"@);
    assert(trim_start(rk) == rk);
    assert(trim_end(rk) == rk);
    assert(trim_start(rv) == rv);
    assert(trim_end(rv) == rv);
    assert forall|k: int| 0 <= k < 14 implies fold(#[trigger] rk[k]) == fold("packetsendrate"@[k]) by {
        assert(rk[k] == rate[k]);
        assert(0 <= k < 14);
    }
}

/// The lines of a file without its trailing blank ones, joined again with
/// `\n` and ended by one: what is left of it once a section at its end is
/// taken out.
pub open spec fn spec_tidied(c: Seq<char>) -> Seq<char> {
    let kept = drop_blank_tail(split_nl(c));
    if kept.len() == 0 {
        seq![]
    } else {
        join(kept, seq!['\n']) + seq!['\n']
    }
}

/// A file without `\r` keeps `\n` as its line ending.
proof fn lemma_eol_without_cr(s: Seq<char>)
    requires
        no_cr(s),
    ensures
        eol_of(s) == seq!['\n'],
{
    reveal_strlit("\r\n");
    reveal_strlit("\n");
    assert("\n"@ =~= seq!['\n']);
    assert("\r\n"@.len() == 2 && "\r\n"@[0] == '\r');
    lemma_find_from_bounds(s, "\r\n"@, 0);
    if contains(s, "\r\n"@) {
        let i = find_from(s, "\r\n"@, 0)->0;
        assert(occurs_at(s, "\r\n"@, i));
        assert(s.subrange(i, i + 2)[0] == s[i]);
        assert(s[i] != '\r');
    }
}

/// The file with our block added, as pieces: the file's own, then the
/// section's name, our two settings, and the empty piece after the last
/// `\n`. It holds no `\r` when the file held none.
proof fn lemma_pieces_with_block(c: Seq<char>)
    requires
        no_cr(c),
    ensures
        no_cr(c + STATS_BLOCK@),
        pieces(c + STATS_BLOCK@) == split_nl(c) + seq![
            "[TAGame.MatchStatsExporter_TA]"@,
            "Port=49123"@,
            "PacketSendRate=30"@,
            Seq::<char>::empty(),
        ],
{
    let name = "[TAGame.MatchStatsExporter_TA]"@;
    let port = "Port=49123"@;
    let rate = "PacketSendRate=30"@;
    reveal_strlit("\n[TAGame.MatchStatsExporter_TA]\nPort=49123\nPacketSendRate=30\n");
    reveal_strlit("[TAGame.MatchStatsExporter_TA]");
    reveal_strlit("Port=49123");
    reveal_strlit("PacketSendRate=30");
    lemma_our_lines();
    let e = Seq::<char>::empty();
    let t3 = rate + seq!['\n'] + e;
    let t2 = port + seq!['\n'] + t3;
    let t1 = name + seq!['\n'] + t2;
    let b = STATS_BLOCK@;
    assert(b =~= seq!['\n'] + t1);
    let s = c + b;
    assert(s =~= c + seq!['\n'] + t1);
    lemma_split_single(name);
    lemma_split_single(port);
    lemma_split_single(rate);
    lemma_split_single(e);
    lemma_split_concat(rate, e, 0);
    lemma_split_concat(port, t3, 0);
    lemma_split_concat(name, t2, 0);
    lemma_split_concat(c, t1, 0);
    assert(split_nl(s) =~= split_nl(c) + seq![name, port, rate, e]);
    assert forall|k: int| 0 <= k < b.len() implies b[k] != '\r' by {
        assert(0 <= k < 61);
    }
    assert forall|k: int| 0 <= k < s.len() implies s[k] != '\r' by {
        if k < c.len() {
            assert(s[k] == c[k]);
        } else {
            assert(s[k] == b[k - c.len()]);
        }
    }
    lemma_pieces_no_cr(s);
}

/// Taking the tracking away takes back exactly what turning it on wrote:
/// on a file that asked for no export and holds no `\r`, adding our section
/// then removing it leaves the file's own lines, less the blank ones at its
/// end, each ended by a `\n`.
pub proof fn law_removing_takes_back_what_adding_wrote(c: Seq<char>)
    requires
        !spec_has_stats_section(c),
        no_cr(c),
    ensures
        spec_without_stats_block(spec_with_stats_block(c)) == spec_tidied(c),
{
    let name = "[TAGame.MatchStatsExporter_TA]"@;
    let port = "Port=49123"@;
    let rate = "PacketSendRate=30"@;
    let e = Seq::<char>::empty();
    lemma_our_lines();
    lemma_pieces_with_block(c);
    let s = c + STATS_BLOCK@;
    let sc = split_nl(c);
    let n = sc.len() as int;
    let ps = pieces(s);
    assert(ps == sc + seq![name, port, rate, e]);
    // The section is our block's: no line of the file names it.
    lemma_pieces_are_lines(c, 0);
    let pr = |l: Seq<char>| is_section_line(l);
    assert(!lines(c).any(pr));
    assert forall|k: int| 0 <= k < n implies !pr(#[trigger] ps[k]) by {
        assert(ps[k] == sc[k]);
        if sc[k].len() > 0 {
            assert(split_nl_from(c, 0)[k] == sc[k]);
            assert(lines(c).contains(sc[k]));
            let i = choose|i: int| 0 <= i < lines(c).len() && lines(c)[i] == sc[k];
            assert(!pr(lines(c)[i]));
        } else {
            assert(trim(sc[k]) =~= seq![]);
            reveal_strlit("[tagame.matchstatsexporter_ta]");
            assert(section_name().len() == 30);
        }
    }
    assert(pr(ps[n]));
    lemma_first_index_found(ps, 0, n, pr);
    // It runs to the end of the file.
    let op = |l: Seq<char>| opens_section(l);
    assert(trim(e) =~= seq![]);
    assert forall|k: int| n + 1 <= k < ps.len() implies !op(#[trigger] ps[k]) by {
        if k == n + 1 {
            assert(ps[k] == port);
        } else if k == n + 2 {
            assert(ps[k] == rate);
        } else {
            assert(ps[k] == e);
        }
    }
    lemma_first_index_none(ps, n + 1, op);
    // Its body is ours.
    let body = ps.subrange(n + 1, ps.len() as int);
    assert(body =~= seq![port, rate, e]);
    assert(spec_is_ours(body)) by {
        let pp = |l: Seq<char>| is_port_setting(l);
        let rp = |l: Seq<char>| is_rate_setting(l);
        assert(pp(body[0]));
        assert(rp(body[1]));
    }
    assert(ps.subrange(0, n) + ps.subrange(ps.len() as int, ps.len() as int) =~= sc);
    lemma_eol_without_cr(s);
    assert(spec_with_stats_block(c) == s);
}

/// On a file that asked for no export, holds no `\r`, and is empty or ends
/// with a `\n` after a line that is not blank, turning the tracking on then
/// off gives the file back as it was.
pub proof fn law_removing_after_adding_restores_the_file(c: Seq<char>)
    requires
        !spec_has_stats_section(c),
        no_cr(c),
        c.len() == 0 || (c.last() == '\n' && trim(split_nl(c.drop_last()).last()).len() > 0),
    ensures
        spec_without_stats_block(spec_with_stats_block(c)) == c,
{
    law_removing_takes_back_what_adding_wrote(c);
    let e = Seq::<char>::empty();
    if c.len() == 0 {
        lemma_split_single(c);
        assert(drop_blank_tail(seq![c]) == drop_blank_tail(seq![c].drop_last()));
        assert(seq![c].drop_last() =~= Seq::<Seq<char>>::empty());
    } else {
        let d = c.drop_last();
        assert(c =~= d + seq!['\n'] + e);
        lemma_split_concat(d, e, 0);
        lemma_split_single(e);
        let sd = split_nl(d);
        lemma_split_nonempty(d, 0);
        assert(split_nl(c) =~= sd + seq![e]);
        assert((sd + seq![e]).drop_last() =~= sd);
        assert(drop_blank_tail(sd + seq![e]) == drop_blank_tail(sd));
        assert(drop_blank_tail(sd) == sd);
        lemma_join_split(d, 0);
        assert(d.subrange(0, d.len() as int) =~= d);
    }
}

} // verus!
