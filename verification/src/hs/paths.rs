//! Where Hearthstone lives on this machine, and where it writes.
//!
//! Paths are read as text, `/` and `\` both counting as separators whatever
//! the host, since a path keeps the separators of the machine it came from.
use vstd::prelude::*;
use chrono::{Datelike, Timelike};
use crate::hs::parser::{Clock, Stamp};
use crate::order::{text_less, text_lt};
use crate::text::{chars_eq, chars_of, ends_with, string_of};

verus! {

/// The game's own log folder, one dated directory per session inside it.
pub const LOGS_DIR: &'static str = "Logs";

/// Whether a character separates path components.
pub open spec fn is_sep(c: char) -> bool {
    c == '/' || c == '\\'
}

/// The position of the last separator.
pub open spec fn last_sep(s: Seq<char>) -> Option<int>
    decreases s.len(),
{
    if s.len() == 0 {
        None
    } else if is_sep(s.last()) {
        Some(s.len() - 1)
    } else {
        last_sep(s.drop_last())
    }
}

/// The path without its last component, if it has a separator.
pub open spec fn parent(s: Seq<char>) -> Option<Seq<char>> {
    match last_sep(s) {
        Some(i) => Some(s.take(i)),
        None => None,
    }
}

/// The last component, if it is not empty.
pub open spec fn file_name(s: Seq<char>) -> Option<Seq<char>> {
    let name = match last_sep(s) {
        Some(i) => s.skip(i + 1),
        None => s,
    };
    if name.len() == 0 {
        None
    } else {
        Some(name)
    }
}

pub(crate) proof fn lemma_last_sep(s: Seq<char>)
    ensures
        last_sep(s) matches Some(i) ==> 0 <= i < s.len() && is_sep(s[i]),
    decreases s.len(),
{
    if s.len() > 0 && !is_sep(s.last()) {
        lemma_last_sep(s.drop_last());
    }
}

fn last_sep_in(s: &[char]) -> (r: Option<usize>)
    ensures
        r matches Some(i) ==> last_sep(s@) == Some(i as int) && i < s@.len(),
        r is None ==> last_sep(s@) is None,
{
    let mut n = s.len();
    proof {
        assert(s@.take(n as int) =~= s@);
    }
    while n > 0
        invariant
            n <= s@.len(),
            last_sep(s@) == last_sep(s@.take(n as int)),
        decreases n,
    {
        if s[n - 1] == '/' || s[n - 1] == '\\' {
            return Some(n - 1);
        }
        proof {
            assert(s@.take(n as int).drop_last() =~= s@.take(n - 1));
        }
        n = n - 1;
    }
    None
}

/// Splits off the final path component, `/` and `\` both separating.
pub fn parent_str(s: &[char]) -> (r: Option<Vec<char>>)
    ensures
        match r {
            Some(p) => parent(s@) == Some(p@),
            None => parent(s@) is None,
        },
{
    match last_sep_in(s) {
        Some(i) => {
            proof {
                assert(s@.subrange(0, i as int) =~= s@.take(i as int));
            }
            Some(crate::text::slice_to_vec(&s[0..i]))
        },
        None => None,
    }
}

/// The final path component, if it is not empty.
pub fn file_name_str(s: &[char]) -> (r: Option<Vec<char>>)
    ensures
        match r {
            Some(p) => file_name(s@) == Some(p@),
            None => file_name(s@) is None,
        },
{
    let n = s.len();
    let name: &[char] = match last_sep_in(s) {
        Some(i) => {
            proof {
                assert(s@.subrange(i + 1, n as int) =~= s@.skip(i + 1));
            }
            &s[i + 1..n]
        },
        None => s,
    };
    if name.len() == 0 {
        None
    } else {
        Some(crate::text::slice_to_vec(name))
    }
}

/// Walking up from a directory: past a macOS bundle's `Contents` and `MacOS`,
/// to the folder that contains the `.app`.
pub open spec fn climb(dir: Seq<char>) -> Option<Seq<char>>
    decreases dir.len(),
{
    match file_name(dir) {
        None => None,
        Some(name) => if ends_with(name, ".app"@) {
            parent(dir)
        } else if name == "Contents"@ || name == "MacOS"@ {
            match last_sep(dir) {
                None => None,
                Some(i) => if 0 <= i < dir.len() {
                    climb(dir.take(i))
                } else {
                    None
                },
            }
        } else {
            Some(dir)
        },
    }
}

/// The install directory holding an executable.
pub open spec fn spec_install_dir(exe: Seq<char>) -> Option<Seq<char>> {
    match parent(exe) {
        None => None,
        Some(d) => climb(d),
    }
}

/// The install directory holding the executable. On macOS the executable
/// sits deep inside the bundle, and the install directory is the folder
/// containing the bundle.
pub fn install_dir_from_exe(exe: &str) -> (r: Option<String>)
    ensures
        match r {
            Some(d) => spec_install_dir(exe@) == Some(d@),
            None => spec_install_dir(exe@) is None,
        },
{
    let e = chars_of(exe);
    let mut dir = match parent_str(e.as_slice()) {
        Some(d) => d,
        None => {
            return None;
        },
    };
    let app = chars_of(".app");
    proof {
        reveal_strlit(".app");
    }
    let contents = chars_of("Contents");
    let macos = chars_of("MacOS");
    loop
        invariant
            spec_install_dir(exe@) == climb(dir@),
            app@ == ".app"@,
            contents@ == "Contents"@,
            macos@ == "MacOS"@,
        decreases dir@.len(),
    {
        let name = match file_name_str(dir.as_slice()) {
            Some(n) => n,
            None => {
                return None;
            },
        };
        let ends = name.len() >= 4 && crate::text::matches_at(name.as_slice(), app.as_slice(), name.len() - 4);
        proof {
            reveal_strlit(".app");
            assert(ends == ends_with(name@, ".app"@));
        }
        if ends {
            proof {
                assert(climb(dir@) == parent(dir@));
            }
            return match parent_str(dir.as_slice()) {
                Some(p) => Some(string_of(p.as_slice())),
                None => None,
            };
        }
        if chars_eq(name.as_slice(), contents.as_slice()) || chars_eq(name.as_slice(), macos.as_slice()) {
            let ghost before = dir@;
            match last_sep_in(dir.as_slice()) {
                Some(i) => {
                    proof {
                        lemma_last_sep(dir@);
                        assert(dir@.subrange(0, i as int) =~= dir@.take(i as int));
                        assert(climb(dir@) == climb(dir@.take(i as int)));
                    }
                    dir = crate::text::slice_to_vec(&dir.as_slice()[0..i]);
                },
                None => {
                    return None;
                },
            }
        } else {
            return Some(string_of(dir.as_slice()));
        }
    }
}

/// What `NaiveDateTime::parse_from_str(rest, "%Y_%m_%d_%H_%M_%S")` gives, as a
/// stamp.
pub uninterp spec fn folder_stamp(rest: Seq<char>) -> Option<Stamp>;

/// `chrono::NaiveDateTime::parse_from_str` with `%Y_%m_%d_%H_%M_%S`: the date
/// and time written, if they read as one.
#[verifier::external_body]
fn parse_folder_stamp(rest: &str) -> (r: Option<Stamp>)
    ensures
        r == folder_stamp(rest@),
{
    match chrono::NaiveDateTime::parse_from_str(rest, "%Y_%m_%d_%H_%M_%S") {
        Ok(t) => Some(Stamp {
            day: t.date().num_days_from_ce(),
            clock: Clock { secs: t.time().num_seconds_from_midnight(), nanos: t.time().nanosecond() },
        }),
        Err(_) => None,
    }
}

/// The instant a session folder was created, read from its own name: what
/// follows `Hearthstone_`.
pub open spec fn spec_session_start(name: Seq<char>) -> Option<Stamp> {
    if name.len() >= 12 && name.take(12) == "Hearthstone_"@ {
        folder_stamp(name.skip(12))
    } else {
        None
    }
}

/// The instant a session folder was created, read from its own name. This
/// is the date the log lines lack.
pub fn session_start(name: &str) -> (r: Option<Stamp>)
    ensures
        r == spec_session_start(name@),
{
    let cs = chars_of(name);
    let prefix = chars_of("Hearthstone_");
    proof {
        reveal_strlit("Hearthstone_");
    }
    if cs.len() >= 12 && chars_eq(&cs.as_slice()[0..12], prefix.as_slice()) {
        let n = cs.len();
        proof {
            assert(cs@.subrange(0, 12) =~= cs@.take(12));
            assert(cs@.subrange(12, n as int) =~= cs@.skip(12));
        }
        let rest = string_of(&cs.as_slice()[12..n]);
        parse_folder_stamp(rest.as_str())
    } else {
        proof {
            if cs@.len() >= 12 {
                assert(cs@.subrange(0, 12) =~= cs@.take(12));
            }
        }
        None
    }
}

/// The most recent session folder among the given directory names: the
/// greatest name, in the order of `String`, among those that read as a
/// session. The names sort chronologically, the date being zero-padded and
/// ordered from year to second.
pub open spec fn is_newest(names: Seq<Seq<char>>, i: int) -> bool {
    &&& 0 <= i < names.len()
    &&& spec_session_start(names[i]) is Some
    &&& forall|j: int| 0 <= j < names.len() && spec_session_start(names[j]) is Some ==> !text_lt(names[i], names[j])
}

/// The names as text.
pub open spec fn names_view(v: Seq<String>) -> Seq<Seq<char>> {
    v.map_values(|s: String| s@)
}

/// The most recent session folder among the given directory names.
pub fn newest_session(names: &[String]) -> (r: Option<&str>)
    ensures
        match r {
            Some(n) => exists|i: int| is_newest(names_view(names@), i) && names_view(names@)[i] == n@,
            None => forall|j: int| 0 <= j < names@.len() ==> spec_session_start(#[trigger] names_view(names@)[j]) is None,
        },
{
    let ghost nv = names_view(names@);
    let mut best: Option<usize> = None;
    let mut i: usize = 0;
    while i < names.len()
        invariant
            i <= names@.len(),
            nv == names_view(names@),
            match best {
                Some(b) => b < i && spec_session_start(nv[b as int]) is Some && forall|j: int|
                    0 <= j < i && spec_session_start(nv[j]) is Some ==> !text_lt(nv[b as int], nv[j]),
                None => forall|j: int| 0 <= j < i ==> spec_session_start(#[trigger] nv[j]) is None,
            },
        decreases names@.len() - i,
    {
        proof {
            assert(nv[i as int] == names@[i as int]@);
        }
        if session_start(names[i].as_str()).is_some() {
            match best {
                None => {
                    best = Some(i);
                    proof {
                        crate::order::lemma_text_lt_irreflexive(nv[i as int]);
                    }
                },
                Some(b) => {
                    let a = chars_of(names[b].as_str());
                    let c = chars_of(names[i].as_str());
                    proof {
                        assert(nv[b as int] == names@[b as int]@);
                    }
                    if !text_less(c.as_slice(), a.as_slice()) {
                        proof {
                            assert forall|j: int| 0 <= j < i + 1 && spec_session_start(nv[j]) is Some implies !text_lt(nv[i as int], nv[j]) by {
                                crate::order::lemma_text_lt_total(nv[i as int], nv[b as int]);
                                crate::order::lemma_text_lt_irreflexive(nv[i as int]);
                                if j < i && text_lt(nv[i as int], nv[j]) {
                                    if nv[i as int] == nv[b as int] {
                                    } else {
                                        crate::order::lemma_text_lt_transitive(nv[b as int], nv[i as int], nv[j]);
                                    }
                                }
                            }
                        }
                        best = Some(i);
                    } else {
                        proof {
                            assert forall|j: int| 0 <= j < i + 1 && spec_session_start(nv[j]) is Some implies !text_lt(nv[b as int], nv[j]) by {
                                if j == i {
                                    crate::order::lemma_text_lt_asymmetric(nv[i as int], nv[b as int]);
                                }
                            }
                        }
                    }
                },
            }
        }
        i = i + 1;
    }
    match best {
        Some(b) => {
            proof {
                assert(is_newest(nv, b as int));
            }
            Some(names[b].as_str())
        },
        None => None,
    }
}

} // verus!
