//! The file that makes Hearthstone write its detailed logs.
//!
//! It is written only after the member agrees, and removing the tracking
//! removes it again.
use vstd::prelude::*;
use crate::text::{
    lemma_line_start_in_lines, lemma_lines_cons, lemma_next_nl, line_end, next_nl, no_nl, trim_end, trim_start,
    any_line, append_chars, chars_eq, chars_of, line_at, line_bounds, lines, lines_from, trim,
    trim_bounds,
};

verus! {

/// The section Hearthstone reads to decide whether to log its power events.
pub const POWER_BLOCK: &'static str = "\n[Power]\nLogLevel=1\nFilePrinting=true\nConsolePrinting=false\nScreenPrinting=false\nVerbose=true\n";

/// A line that is the `[Power]` header once trimmed.
pub open spec fn is_power_line(l: Seq<char>) -> bool {
    trim(l) == "[Power]"@
}

/// Whether the file already asks for power logging: some line is the
/// `[Power]` header.
pub open spec fn spec_contains_power_block(contents: Seq<char>) -> bool {
    lines(contents).any(|l: Seq<char>| is_power_line(l))
}

/// Whether the file already asks for power logging, ours or another tracker's.
pub fn contains_power_block(contents: &str) -> (b: bool)
    ensures
        b == spec_contains_power_block(contents@),
{
    let c = chars_of(contents);
    let header = chars_of("[Power]");
    let test = |l: &[char]| -> (b: bool)
        ensures
            b == is_power_line(l@),
        {
            let (a, e) = trim_bounds(l, 0, l.len());
            proof {
                assert(l@.subrange(0, l@.len() as int) =~= l@);
            }
            chars_eq(&l[a..e], header.as_slice())
        };
    any_line(c.as_slice(), Ghost(|l: Seq<char>| is_power_line(l)), test)
}

/// The contents with our block appended, or unchanged when a block is present.
pub open spec fn spec_with_power_block(contents: Seq<char>) -> Seq<char> {
    if spec_contains_power_block(contents) {
        contents
    } else {
        contents + POWER_BLOCK@
    }
}

/// The contents with our block appended, or unchanged when a block is
/// present: a second `[Power]` section would not be merged by the game.
pub fn with_power_block(contents: &str) -> (r: String)
    ensures
        r@ == spec_with_power_block(contents@),
{
    let mut out = contents.to_owned();
    if contains_power_block(contents) {
        return out;
    }
    out.append(POWER_BLOCK);
    out
}

/// A trimmed line that opens a section: it starts with `[` and ends with `]`.
pub open spec fn is_header(t: Seq<char>) -> bool {
    t.len() > 0 && t[0] == '[' && t.last() == ']'
}

/// The text kept once the `[Power]` section is dropped, reading on from
/// position `from` in a state that is inside that section or not: each line
/// outside it, exactly as it is written, its line ending included.
pub open spec fn keep_outside_power(c: Seq<char>, from: int, in_power: bool) -> Seq<char>
    decreases c.len() - from,
{
    if from < 0 || from >= c.len() {
        seq![]
    } else {
        proof {
            lemma_next_nl(c, from);
        }
        let end = line_end(c, from);
        let t = trim(line_at(c, from));
        let now = if is_header(t) {
            t == "[Power]"@
        } else {
            in_power
        };
        (if now {
            seq![]
        } else {
            c.subrange(from, end)
        }) + keep_outside_power(c, end, now)
    }
}

/// The contents without the `[Power]` section: every other line survives
/// untouched, with its own line ending.
pub fn without_power_block(contents: &str) -> (r: String)
    ensures
        r@ == keep_outside_power(contents@, 0, false),
{
    let c = chars_of(contents);
    let header = chars_of("[Power]");
    let mut out = String::new();
    let mut in_power = false;
    let mut pos: usize = 0;
    while pos < c.len()
        invariant
            pos <= c@.len(),
            c@ == contents@,
            header@ == "[Power]"@,
            keep_outside_power(c@, 0, false) == out@ + keep_outside_power(c@, pos as int, in_power),
        decreases c@.len() - pos,
    {
        let (a, b, next) = line_bounds(c.as_slice(), pos);
        let (ta, tb) = trim_bounds(c.as_slice(), a, b);
        let is_hdr = ta < tb && c[ta] == '[' && c[tb - 1] == ']';
        let now = if is_hdr {
            chars_eq(&c.as_slice()[ta..tb], header.as_slice())
        } else {
            in_power
        };
        let ghost before = out@;
        if !now {
            append_chars(&mut out, &c.as_slice()[pos..next]);
        }
        proof {
            let l = line_at(c@, pos as int);
            let t = trim(l);
            if is_hdr {
                assert(t.last() == c@[tb - 1]);
            }
            assert(is_header(t) == is_hdr);
            let seg = if now {
                Seq::<char>::empty()
            } else {
                c@.subrange(pos as int, next as int)
            };
            assert(keep_outside_power(c@, pos as int, in_power) == seg + keep_outside_power(c@, next as int, now));
            assert(out@ == before + seg);
            assert(before + (seg + keep_outside_power(c@, next as int, now)) =~= out@ + keep_outside_power(
                c@,
                next as int,
                now,
            ));
        }
        in_power = now;
        pos = next;
    }
    proof {
        assert(keep_outside_power(c@, pos as int, in_power) =~= seq![]);
        assert(out@ + seq![] =~= out@);
    }
    out
}

// ---------------------------------------------------------------------------
// Laws

/// Once our block is added, the file asks for power logging.
pub proof fn law_with_power_block_enables(contents: Seq<char>)
    ensures
        spec_contains_power_block(spec_with_power_block(contents)),
{
    if !spec_contains_power_block(contents) {
        let s = contents + POWER_BLOCK@;
        let p: int = contents.len() as int + 1;
        reveal_strlit("\n[Power]\nLogLevel=1\nFilePrinting=true\nConsolePrinting=false\nScreenPrinting=false\nVerbose=true\n");
        reveal_strlit("[Power]");
        assert(s[p - 1] == '\n');
        assert(next_nl(s, p) == p + 7) by {
            reveal_with_fuel(next_nl, 8);
        }
        assert(s.subrange(p, p + 7) =~= "[Power]"@);
        assert(line_at(s, p) == "[Power]"@);
        assert(trim_start("[Power]"@) == "[Power]"@);
        assert(trim_end("[Power]"@) == "[Power]"@);
        lemma_line_start_in_lines(s, 0, p);
        let k = choose|k: int| 0 <= k < lines(s).len() && lines(s)[k] == line_at(s, p);
        assert(is_power_line(lines(s)[k]));
        let pr = |l: Seq<char>| is_power_line(l);
        assert(pr(lines(s)[k]));
        assert(lines(s).any(pr));
    }
}

/// Adding our block twice is adding it once.
pub proof fn law_with_power_block_is_idempotent(contents: Seq<char>)
    ensures
        spec_with_power_block(spec_with_power_block(contents)) == spec_with_power_block(contents),
{
    law_with_power_block_enables(contents);
}


/// A line without `\n`, not empty, is the text's only line.
proof fn lemma_lines_single(x: Seq<char>)
    requires
        no_nl(x),
        x.len() > 0,
    ensures
        lines(x) == seq![x],
{
    lemma_next_nl(x, 0);
    assert(x.subrange(0, x.len() as int) =~= x);
}

/// A kept line is not the `[Power]` header.
proof fn lemma_kept_is_not_power(l: Seq<char>, in_power: bool)
    requires
        !(if is_header(trim(l)) {
            trim(l) == "[Power]"@
        } else {
            in_power
        }),
    ensures
        !is_power_line(l),
{
    reveal_strlit("[Power]");
    if !is_header(trim(l)) {
        assert(is_header("[Power]"@));
    }
}

/// What is kept, read back as lines, holds no `[Power]` header.
proof fn lemma_kept_lines_are_not_power(c: Seq<char>, from: int, in_power: bool)
    requires
        0 <= from,
    ensures
        !lines(keep_outside_power(c, from, in_power)).any(|l: Seq<char>| is_power_line(l)),
    decreases c.len() - from,
{
    let pr = |l: Seq<char>| is_power_line(l);
    if from >= c.len() {
        assert(lines(keep_outside_power(c, from, in_power)) =~= seq![]);
    } else {
        lemma_next_nl(c, from);
        let j = next_nl(c, from);
        let end = line_end(c, from);
        let l = line_at(c, from);
        let t = trim(l);
        let now = if is_header(t) {
            t == "[Power]"@
        } else {
            in_power
        };
        lemma_kept_lines_are_not_power(c, end, now);
        let rest = keep_outside_power(c, end, now);
        if now {
            assert(keep_outside_power(c, from, in_power) =~= rest);
        } else {
            lemma_kept_is_not_power(l, in_power);
            let all = lines(keep_outside_power(c, from, in_power));
            let x = c.subrange(from, j);
            assert(no_nl(x)) by {
                assert forall|k: int| 0 <= k < x.len() implies x[k] != '\n' by {
                    assert(x[k] == c[from + k]);
                }
            }
            if j < c.len() {
                assert(c.subrange(from, end) =~= x + seq!['\n']);
                assert(keep_outside_power(c, from, in_power) == x + seq!['\n'] + rest);
                lemma_lines_cons(x, rest);
                assert(all == seq![l] + lines(rest));
            } else {
                assert(rest =~= seq![]);
                assert(keep_outside_power(c, from, in_power) =~= x);
                lemma_lines_single(x);
                assert(all == seq![l]);
            }
            assert forall|k: int| 0 <= k < all.len() implies !pr(#[trigger] all[k]) by {
                if k > 0 {
                    assert(all[k] == lines(rest)[k - 1]);
                    assert(!pr(lines(rest)[k - 1]));
                }
            }
        }
    }
}

/// With no `[Power]` header among its lines, the text is kept whole.
proof fn lemma_keep_all(c: Seq<char>, from: int)
    requires
        0 <= from <= c.len(),
        forall|k: int| 0 <= k < lines_from(c, from).len() ==> !is_power_line(#[trigger] lines_from(c, from)[k]),
    ensures
        keep_outside_power(c, from, false) == c.subrange(from, c.len() as int),
    decreases c.len() - from,
{
    if from == c.len() {
        assert(c.subrange(from, from) =~= seq![]);
    } else {
        lemma_next_nl(c, from);
        let j = next_nl(c, from);
        let end = line_end(c, from);
        let l = line_at(c, from);
        assert(lines_from(c, from)[0] == l);
        assert(!is_power_line(l));
        reveal_strlit("[Power]");
        if j < c.len() {
            let rest = lines_from(c, j + 1);
            assert(lines_from(c, from) == seq![l] + rest);
            assert forall|k: int| 0 <= k < rest.len() implies !is_power_line(#[trigger] rest[k]) by {
                assert(rest[k] == lines_from(c, from)[k + 1]);
            }
        } else {
            assert(keep_outside_power(c, end, false) =~= seq![]);
        }
        lemma_keep_all(c, end);
        assert(c.subrange(from, end) + c.subrange(end, c.len() as int) =~= c.subrange(from, c.len() as int));
    }
}

/// Removing the tracking removes it: once the `[Power]` section is dropped,
/// the file no longer asks for power logging, whatever it held.
pub proof fn law_without_power_block_disables(contents: Seq<char>)
    ensures
        !spec_contains_power_block(keep_outside_power(contents, 0, false)),
{
    lemma_kept_lines_are_not_power(contents, 0, false);
}

/// A file that asks for no power logging comes back untouched, line endings
/// and all.
pub proof fn law_without_power_block_keeps_other_files(contents: Seq<char>)
    requires
        !spec_contains_power_block(contents),
    ensures
        keep_outside_power(contents, 0, false) == contents,
{
    let pr = |l: Seq<char>| is_power_line(l);
    assert forall|k: int| 0 <= k < lines_from(contents, 0).len() implies !is_power_line(
        #[trigger] lines_from(contents, 0)[k],
    ) by {
        assert(!pr(lines(contents)[k]));
    }
    lemma_keep_all(contents, 0);
    assert(contents.subrange(0, contents.len() as int) =~= contents);
}

/// Removing the section twice is removing it once.
pub proof fn law_without_power_block_is_idempotent(contents: Seq<char>)
    ensures
        keep_outside_power(keep_outside_power(contents, 0, false), 0, false) == keep_outside_power(contents, 0, false),
{
    law_without_power_block_disables(contents);
    law_without_power_block_keeps_other_files(keep_outside_power(contents, 0, false));
}

} // verus!
