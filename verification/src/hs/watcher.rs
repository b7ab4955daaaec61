//! Following the game's log while it is running: how far into the current
//! file has already been read.
use vstd::prelude::*;
use vstd::string::StringSliceAdditionalSpecFns;
use vstd::utf8::{
    encode_utf8, encode_utf8_valid_utf8, is_char_boundary, is_continuation_byte,
    is_leading_byte_width_1, length_of_first_scalar, pop_first_scalar, valid_utf8,
};

verus! {

/// How far into the current file we have already read, in bytes.
pub struct Cursor {
    read: usize,
}

impl View for Cursor {
    type V = nat;

    /// The byte offset already read.
    closed spec fn view(&self) -> nat {
        self.read as nat
    }
}

/// Where reading resumes: a file shorter than the position is a different
/// file, read from its start.
pub open spec fn resume_at(read: nat, bytes: Seq<u8>) -> nat {
    if bytes.len() < read {
        0
    } else {
        read
    }
}

/// The length of the longest prefix ending in a `\n`, if there is a `\n`.
pub open spec fn through_last_newline(b: Seq<u8>) -> nat
    decreases b.len(),
{
    if b.len() == 0 {
        0
    } else if b.last() == 10u8 {
        b.len()
    } else {
        through_last_newline(b.drop_last())
    }
}

/// The new position, and the bytes handed out: the complete lines appended
/// since `read`.
pub open spec fn spec_take_new(read: nat, bytes: Seq<u8>) -> (nat, Seq<u8>) {
    let r = resume_at(read, bytes);
    let n = through_last_newline(bytes.subrange(r as int, bytes.len() as int));
    ((r + n) as nat, bytes.subrange(r as int, (r + n) as int))
}

proof fn lemma_through_last_newline(b: Seq<u8>)
    ensures
        through_last_newline(b) <= b.len(),
        through_last_newline(b) > 0 ==> b[through_last_newline(b) - 1] == 10u8,
        forall|k: int| through_last_newline(b) <= k < b.len() ==> b[k] != 10u8,
    decreases b.len(),
{
    if b.len() > 0 && b.last() != 10u8 {
        lemma_through_last_newline(b.drop_last());
        assert forall|k: int| through_last_newline(b) <= k < b.len() implies b[k] != 10u8 by {
            if k < b.len() - 1 {
                assert(b.drop_last()[k] == b[k]);
            }
        }
    }
}

/// In valid UTF-8, the byte after an ASCII byte starts a character.
proof fn lemma_boundary_after_ascii(b: Seq<u8>, i: int)
    requires
        valid_utf8(b),
        0 <= i < b.len(),
        b[i] < 0x80u8,
    ensures
        is_char_boundary(b, i + 1),
    decreases b.len(),
{
    let l = length_of_first_scalar(b);
    if i < l {
        if !is_leading_byte_width_1(b[0]) {
            assert(is_continuation_byte(b[1]));
            if l >= 3 {
                assert(is_continuation_byte(b[2]));
            }
            if l >= 4 {
                assert(is_continuation_byte(b[3]));
            }
            assert(false);
        }
        assert(l == 1);
        assert(is_char_boundary(pop_first_scalar(b), 0));
    } else {
        let p = pop_first_scalar(b);
        assert(p[i - l] == b[i]);
        lemma_boundary_after_ascii(p, i - l);
    }
}

impl Cursor {
    /// The complete lines appended since the last call.
    ///
    /// A partial trailing line is held back: the game writes while we read,
    /// and half a line would parse as nonsense. A file shorter than our
    /// position is a different file, read from the start.
    pub fn take_new(&mut self, contents: &str) -> (out: String)
        requires
            is_char_boundary(contents.spec_bytes(), resume_at(old(self)@, contents.spec_bytes()) as int),
        ensures
            (final(self)@, encode_utf8(out@)) == spec_take_new(old(self)@, contents.spec_bytes()),
    {
        proof {
            encode_utf8_valid_utf8(contents@);
        }
        let all = contents.as_bytes();
        if all.len() < self.read {
            self.read = 0;
        }
        let (_, fresh) = contents.split_at(self.read);
        let fb = fresh.as_bytes();
        let mut i = fb.len();
        proof {
            assert(fb@.subrange(0, fb@.len() as int) =~= fb@);
        }
        while i > 0 && fb[i - 1] != 10u8
            invariant
                i <= fb@.len(),
                through_last_newline(fb@) == through_last_newline(fb@.subrange(0, i as int)),
            decreases i,
        {
            proof {
                assert(fb@.subrange(0, i as int).drop_last() =~= fb@.subrange(0, i - 1));
            }
            i = i - 1;
        }
        proof {
            assert(fb@.subrange(0, fb@.len() as int) =~= fb@);
            let t = fb@.subrange(0, i as int);
            if i > 0 {
                assert(t.last() == 10u8);
            }
            assert(through_last_newline(fb@) == i);
        }
        if i == 0 {
            return String::new();
        }
        proof {
            encode_utf8_valid_utf8(fresh@);
            lemma_boundary_after_ascii(fb@, i - 1);
        }
        let (piece, _) = fresh.split_at(i);
        self.read = self.read + i;
        piece.to_owned()
    }

    /// Whether `take_new` can read this text: the place reading resumes at
    /// falls between two characters.
    pub fn can_take(&self, contents: &str) -> (b: bool)
        ensures
            b == is_char_boundary(contents.spec_bytes(), resume_at(self@, contents.spec_bytes()) as int),
    {
        let at = if contents.as_bytes().len() < self.read {
            0
        } else {
            self.read
        };
        contents.is_char_boundary(at)
    }

    /// Forget the position, for when we move to another file.
    pub fn reset(&mut self)
        ensures
            final(self)@ == 0,
    {
        self.read = 0;
    }
}

impl Default for Cursor {
    /// A cursor at the start of a file.
    fn default() -> (c: Self)
        ensures
            c@ == 0,
    {
        Cursor { read: 0 }
    }
}

// ---------------------------------------------------------------------------
// Laws

/// Where the last line ends, looked at in two halves: in the second half if it
/// holds one, otherwise in the first.
proof fn lemma_through_last_newline_split(x: Seq<u8>, k: int)
    requires
        0 <= k <= x.len(),
    ensures
        through_last_newline(x) == if through_last_newline(x.skip(k)) > 0 {
            k + through_last_newline(x.skip(k))
        } else {
            through_last_newline(x.take(k)) as int
        },
    decreases x.len(),
{
    let y = x.skip(k);
    if y.len() == 0 {
        assert(x.take(k) =~= x);
    } else if x.last() == 10u8 {
        assert(y.last() == x.last());
    } else {
        assert(y.last() == x.last());
        assert(y.drop_last() =~= x.drop_last().skip(k));
        assert(x.drop_last().take(k) =~= x.take(k));
        lemma_through_last_newline_split(x.drop_last(), k);
    }
}

/// Following a file that only grows, reading it twice gives the same bytes,
/// and the same position, as reading it once at the end: nothing is lost or
/// repeated between two reads.
pub proof fn law_two_reads_are_one(read: nat, b1: Seq<u8>, b2: Seq<u8>)
    requires
        read <= b1.len(),
        b1.len() <= b2.len(),
        b2.take(b1.len() as int) == b1,
    ensures
        ({
            let first = spec_take_new(read, b1);
            let second = spec_take_new(first.0, b2);
            let once = spec_take_new(read, b2);
            second.0 == once.0 && first.1 + second.1 == once.1
        }),
{
    let p = b1.subrange(read as int, b1.len() as int);
    let x = b2.subrange(read as int, b2.len() as int);
    let n1 = through_last_newline(p);
    lemma_through_last_newline(p);
    assert(x.take(p.len() as int) =~= p);
    let r1 = read + n1;
    assert(r1 <= b1.len());
    lemma_through_last_newline_split(x, n1 as int);
    assert(x.skip(n1 as int) =~= b2.subrange(r1 as int, b2.len() as int));
    assert(x.take(n1 as int) =~= p.take(n1 as int));
    lemma_through_last_newline(p.take(n1 as int));
    if n1 > 0 {
        assert(p.take(n1 as int).last() == 10u8);
    }
    let n2 = through_last_newline(b2.subrange(r1 as int, b2.len() as int));
    lemma_through_last_newline(b2.subrange(r1 as int, b2.len() as int));
    assert(b1.subrange(read as int, r1 as int) =~= b2.subrange(read as int, r1 as int));
    assert(b2.subrange(read as int, r1 as int) + b2.subrange(r1 as int, (r1 + n2) as int) =~= b2.subrange(read as int, (r1 + n2) as int));
}

/// Reading again with nothing appended gives nothing and stays put.
pub proof fn law_nothing_new_yields_nothing(read: nat, b: Seq<u8>)
    requires
        read <= b.len(),
        spec_take_new(read, b).0 == read,
    ensures
        spec_take_new(spec_take_new(read, b).0, b).1 == Seq::<u8>::empty(),
{
    let s = b.subrange(read as int, read as int);
    assert(s =~= Seq::<u8>::empty());
}

/// What a read hands out is whole lines: nothing, or bytes that end in a `\n`,
/// taken from where reading resumes; the position moves past exactly them, and
/// what stays behind holds no `\n` (a partial last line waits for its end).
pub proof fn law_take_new_hands_out_whole_lines(read: nat, bytes: Seq<u8>)
    ensures
        ({
            let (pos, out) = spec_take_new(read, bytes);
            let r = resume_at(read, bytes);
            &&& pos == r + out.len()
            &&& pos <= bytes.len()
            &&& out == bytes.subrange(r as int, pos as int)
            &&& (out.len() == 0 || out.last() == 10u8)
            &&& forall|k: int| pos <= k < bytes.len() ==> bytes[k] != 10u8
        }),
{
    let r = resume_at(read, bytes);
    let t = bytes.subrange(r as int, bytes.len() as int);
    lemma_through_last_newline(t);
    let n = through_last_newline(t);
    let out = bytes.subrange(r as int, (r + n) as int);
    if n > 0 {
        assert(out.last() == t[n - 1]);
    }
    assert forall|k: int| r + n <= k < bytes.len() implies bytes[k] != 10u8 by {
        assert(bytes[k] == t[k - r]);
    }
}

/// `Cursor::take_new` can always go on following a file that only grows:
/// from the start, or from just after a `\n` (where every read leaves the
/// cursor), reading resumes between two characters, so its `requires`
/// holds; the new position is again the start or just after a `\n`, and
/// stays so in the file once more has been appended to it.
pub proof fn law_take_new_resumes_on_a_boundary(read: nat, bytes: Seq<u8>, grown: Seq<u8>)
    requires
        valid_utf8(bytes),
        read == 0 || bytes.len() < read || bytes[read - 1] == 10u8,
        bytes.len() <= grown.len(),
        grown.take(bytes.len() as int) == bytes,
    ensures
        is_char_boundary(bytes, resume_at(read, bytes) as int),
        ({
            let p = spec_take_new(read, bytes).0;
            &&& p == 0 || bytes[p - 1] == 10u8
            &&& p == 0 || grown[p - 1] == 10u8
        }),
{
    let r = resume_at(read, bytes);
    if r > 0 {
        lemma_boundary_after_ascii(bytes, r - 1);
    }
    law_take_new_hands_out_whole_lines(read, bytes);
    let p = spec_take_new(read, bytes).0;
    let out = spec_take_new(read, bytes).1;
    if p > 0 {
        if out.len() > 0 {
            assert(bytes[p - 1] == out[out.len() - 1]);
        }
        assert(grown[p - 1] == grown.take(bytes.len() as int)[p - 1]);
    }
}

} // verus!
