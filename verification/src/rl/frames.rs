//! Cutting Rocket League's TCP stream into frames.
//!
//! The game sends no delimiter at all, and its objects sometimes run to tens of
//! kilobytes. So braces are counted, ignoring those inside a string and
//! honouring escapes.
use vstd::prelude::*;

verus! {

/// Where the first `{` of the buffer sits, if any.
pub open spec fn first_open_brace(buf: Seq<u8>, from: int) -> Option<int>
    decreases buf.len() - from,
{
    if from < 0 || from >= buf.len() {
        None
    } else if buf[from] == 0x7bu8 {
        Some(from)
    } else {
        first_open_brace(buf, from + 1)
    }
}

/// The brace-counting scanner, from position `i` in the given lexical state:
/// the index of the `}` that brings the depth back to zero, if the buffer
/// holds it.
///
/// Outside a string, `"` opens one and braces count; inside, `\` escapes the
/// next byte and `"` closes it.
pub open spec fn frame_end(buf: Seq<u8>, i: int, depth: nat, in_string: bool, escaped: bool) -> Option<int>
    decreases buf.len() - i,
{
    if i < 0 || i >= buf.len() {
        None
    } else {
        let b = buf[i];
        if escaped {
            frame_end(buf, i + 1, depth, in_string, false)
        } else if in_string {
            if b == 0x5cu8 {
                frame_end(buf, i + 1, depth, true, true)
            } else if b == 0x22u8 {
                frame_end(buf, i + 1, depth, false, false)
            } else {
                frame_end(buf, i + 1, depth, true, false)
            }
        } else if b == 0x22u8 {
            frame_end(buf, i + 1, depth, true, false)
        } else if b == 0x7bu8 {
            frame_end(buf, i + 1, depth + 1, false, false)
        } else if b == 0x7du8 {
            if depth <= 1 {
                Some(i)
            } else {
                frame_end(buf, i + 1, (depth - 1) as nat, false, false)
            }
        } else {
            frame_end(buf, i + 1, depth, false, false)
        }
    }
}

/// The first whole object of the buffer, as (start, end) with `end`
/// exclusive, or nothing if more must be read.
pub open spec fn spec_take_frame(buf: Seq<u8>) -> Option<(int, int)> {
    match first_open_brace(buf, 0) {
        None => None,
        Some(start) => match frame_end(buf, start + 1, 1, false, false) {
            None => None,
            Some(e) => Some((start, e + 1)),
        },
    }
}

proof fn lemma_first_open_brace_bounds(buf: Seq<u8>, from: int)
    requires
        0 <= from,
    ensures
        first_open_brace(buf, from) matches Some(s) ==> from <= s < buf.len() && buf[s] == 0x7bu8
            && forall|k: int| from <= k < s ==> buf[k] != 0x7bu8,
        first_open_brace(buf, from) is None ==> forall|k: int| from <= k < buf.len() ==> buf[k] != 0x7bu8,
    decreases buf.len() - from,
{
    if from < buf.len() && buf[from] != 0x7bu8 {
        lemma_first_open_brace_bounds(buf, from + 1);
    }
}

proof fn lemma_frame_end_bounds(buf: Seq<u8>, i: int, depth: nat, in_string: bool, escaped: bool)
    ensures
        frame_end(buf, i, depth, in_string, escaped) matches Some(e) ==> i <= e < buf.len()
            && buf[e] == 0x7du8,
    decreases buf.len() - i,
{
    if 0 <= i < buf.len() {
        lemma_frame_end_bounds(buf, i + 1, depth, in_string, false);
        lemma_frame_end_bounds(buf, i + 1, depth, true, true);
        lemma_frame_end_bounds(buf, i + 1, depth, false, false);
        lemma_frame_end_bounds(buf, i + 1, depth, true, false);
        lemma_frame_end_bounds(buf, i + 1, depth + 1, false, false);
        if depth > 1 {
            lemma_frame_end_bounds(buf, i + 1, (depth - 1) as nat, false, false);
        }
    }
}

proof fn lemma_first_open_brace_extend(a: Seq<u8>, b: Seq<u8>, from: int)
    requires
        0 <= from,
    ensures
        first_open_brace(a, from) matches Some(s) ==> first_open_brace(a + b, from) == Some(s),
        (first_open_brace(a + b, from) matches Some(s) && s < a.len()) ==> first_open_brace(a, from)
            == first_open_brace(a + b, from),
    decreases a.len() - from,
{
    if from < a.len() {
        assert((a + b)[from] == a[from]);
        if a[from] != 0x7bu8 {
            lemma_first_open_brace_extend(a, b, from + 1);
        }
    } else {
        lemma_first_open_brace_bounds(a + b, from);
    }
}

proof fn lemma_frame_end_extend(a: Seq<u8>, b: Seq<u8>, i: int, depth: nat, in_string: bool, escaped: bool)
    requires
        0 <= i,
    ensures
        frame_end(a, i, depth, in_string, escaped) matches Some(e) ==> frame_end(a + b, i, depth, in_string, escaped)
            == Some(e),
        (frame_end(a + b, i, depth, in_string, escaped) matches Some(e) && e < a.len()) ==> frame_end(
            a,
            i,
            depth,
            in_string,
            escaped,
        ) == frame_end(a + b, i, depth, in_string, escaped),
    decreases a.len() - i,
{
    if i < a.len() {
        assert((a + b)[i] == a[i]);
        lemma_frame_end_extend(a, b, i + 1, depth, in_string, false);
        lemma_frame_end_extend(a, b, i + 1, depth, true, true);
        lemma_frame_end_extend(a, b, i + 1, depth, false, false);
        lemma_frame_end_extend(a, b, i + 1, depth, true, false);
        lemma_frame_end_extend(a, b, i + 1, depth + 1, false, false);
        if depth > 1 {
            lemma_frame_end_extend(a, b, i + 1, (depth - 1) as nat, false, false);
        }
    } else {
        lemma_frame_end_bounds(a + b, i, depth, in_string, escaped);
    }
}

/// A frame is cut the same way however the stream was chunked: reading more
/// never changes a frame already whole in the buffer, and a frame that lies
/// wholly within what has been read is found without reading more.
pub proof fn law_take_frame_is_chunking_invariant(a: Seq<u8>, b: Seq<u8>)
    ensures
        spec_take_frame(a) matches Some(r) ==> spec_take_frame(a + b) == Some(r),
        (spec_take_frame(a + b) matches Some((s, e)) && e <= a.len()) ==> spec_take_frame(a)
            == spec_take_frame(a + b),
{
    lemma_first_open_brace_extend(a, b, 0);
    lemma_first_open_brace_bounds(a, 0);
    lemma_first_open_brace_bounds(a + b, 0);
    if let Some(s) = first_open_brace(a + b, 0) {
        lemma_frame_end_extend(a, b, s + 1, 1, false, false);
        lemma_frame_end_bounds(a + b, s + 1, 1, false, false);
    }
    if let Some(s) = first_open_brace(a, 0) {
        lemma_frame_end_extend(a, b, s + 1, 1, false, false);
    }
}

/// A frame opens on the buffer's first `{`, closes on a `}`, and nothing
/// before it holds a `{`: what precedes it is noise, and buffer = noise +
/// frame + rest.
pub proof fn law_frame_shape(buf: Seq<u8>)
    ensures
        spec_take_frame(buf) matches Some((s, e)) ==> {
            &&& 0 <= s < e <= buf.len()
            &&& buf[s] == 0x7bu8
            &&& buf[e - 1] == 0x7du8
            &&& forall|k: int| 0 <= k < s ==> buf[k] != 0x7bu8
        },
{
    lemma_first_open_brace_bounds(buf, 0);
    if let Some(s) = first_open_brace(buf, 0) {
        lemma_frame_end_bounds(buf, s + 1, 1, false, false);
    }
}

/// Takes the first whole JSON object out of the buffer.
///
/// Returns the object and what is left, or nothing if more must be read.
pub fn take_frame(buf: &[u8]) -> (r: Option<(&[u8], &[u8])>)
    ensures
        match spec_take_frame(buf@) {
            None => r is None,
            Some((s, e)) => r matches Some((obj, rest)) && obj@ == buf@.subrange(s, e) && rest@
                == buf@.subrange(e, buf@.len() as int),
        },
{
    let mut start: usize = 0;
    while start < buf.len() && buf[start] != 0x7bu8
        invariant
            start <= buf@.len(),
            first_open_brace(buf@, 0) == first_open_brace(buf@, start as int),
        decreases buf@.len() - start,
    {
        start = start + 1;
    }
    if start >= buf.len() {
        return None;
    }
    assert(buf@[start as int] == 0x7bu8);
    let mut depth: usize = 0;
    let mut in_string = false;
    let mut escaped = false;
    let mut i: usize = start;
    proof {
        assert(frame_end(buf@, start as int, 0, false, false) == frame_end(buf@, start + 1, 1, false, false));
    }
    while i < buf.len()
        invariant
            start < buf@.len(),
            buf@[start as int] == 0x7bu8,
            start <= i <= buf@.len(),
            first_open_brace(buf@, 0) == Some(start as int),
            depth <= i - start,
            i > start ==> depth >= 1,
            i > start || (depth == 0 && !in_string && !escaped),
            frame_end(buf@, start + 1, 1, false, false) == frame_end(buf@, i as int, depth as nat, in_string, escaped),
        decreases buf@.len() - i,
    {
        let b = buf[i];
        if escaped {
            escaped = false;
        } else if in_string {
            if b == 0x5cu8 {
                escaped = true;
            } else if b == 0x22u8 {
                in_string = false;
            }
        } else if b == 0x22u8 {
            in_string = true;
        } else if b == 0x7bu8 {
            depth = depth + 1;
        } else if b == 0x7du8 {
            depth = depth - 1;
            if depth == 0 {
                let obj = &buf[start..i + 1];
                let rest = &buf[i + 1..buf.len()];
                return Some((obj, rest));
            }
        }
        i = i + 1;
    }
    None
}

} // verus!
