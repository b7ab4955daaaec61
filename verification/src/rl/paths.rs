//! Where Rocket League lives on this machine, and where it reads its
//! configuration: inside the install directory itself.
use vstd::prelude::*;
use crate::hs::paths::{is_sep, last_sep, lemma_last_sep, parent, parent_str};
use crate::text::{append_chars, chars_of, push_char, string_of};

verus! {

/// The game's executable, as the scanner sees it.
pub const EXE: &'static str = "RocketLeague.exe";

/// The install directory three levels above the executable, which runs
/// from `<install>/Binaries/Win64/`; none when that is empty.
pub open spec fn spec_install_dir_of(exe: Seq<char>) -> Option<Seq<char>> {
    match parent(exe) {
        None => None,
        Some(win64) => match parent(win64) {
            None => None,
            Some(binaries) => match parent(binaries) {
                None => None,
                Some(install) => if install.len() == 0 {
                    None
                } else {
                    Some(install)
                },
            },
        },
    }
}

/// The install directory that holds this executable.
pub fn install_dir_of(exe: &str) -> (r: Option<String>)
    ensures
        match r {
            Some(d) => spec_install_dir_of(exe@) == Some(d@),
            None => spec_install_dir_of(exe@) is None,
        },
{
    let e = chars_of(exe);
    let win64 = match parent_str(e.as_slice()) {
        Some(p) => p,
        None => {
            return None;
        },
    };
    let binaries = match parent_str(win64.as_slice()) {
        Some(p) => p,
        None => {
            return None;
        },
    };
    let install = match parent_str(binaries.as_slice()) {
        Some(p) => p,
        None => {
            return None;
        },
    };
    if install.len() == 0 {
        return None;
    }
    Some(string_of(install.as_slice()))
}

/// The configuration file inside an install directory, with the
/// directory's own separator: `\` when it holds one, `/` otherwise.
pub open spec fn spec_config_path_in(install: Seq<char>) -> Seq<char> {
    let sep = if install.contains('\\') { '\\' } else { '/' };
    install + seq![sep] + "TAGame"@ + seq![sep] + "Config"@ + seq![sep] + "DefaultStatsAPI.ini"@
}

/// The configuration file inside an install directory.
pub fn config_path_in(install: &str) -> (r: String)
    ensures
        r@ == spec_config_path_in(install@),
{
    let cs = chars_of(install);
    let mut back = false;
    let mut i: usize = 0;
    while i < cs.len()
        invariant
            i <= cs@.len(),
            cs@ == install@,
            back == exists|k: int| 0 <= k < i && cs@[k] == '\\',
        decreases cs@.len() - i,
    {
        if cs[i] == '\\' {
            back = true;
        }
        i = i + 1;
    }
    proof {
        assert(back == install@.contains('\\'));
    }
    let sep = if back { '\\' } else { '/' };
    let mut out = String::new();
    append_chars(&mut out, cs.as_slice());
    push_char(&mut out, sep);
    append_chars(&mut out, chars_of("TAGame").as_slice());
    push_char(&mut out, sep);
    append_chars(&mut out, chars_of("Config").as_slice());
    push_char(&mut out, sep);
    append_chars(&mut out, chars_of("DefaultStatsAPI.ini").as_slice());
    proof {
        assert(out@ =~= spec_config_path_in(install@));
    }
    out
}

/// Past a separator followed by a name without one, the parent is what came
/// before the separator.
proof fn lemma_parent_of_join(x: Seq<char>, sep: char, name: Seq<char>)
    requires
        is_sep(sep),
        forall|k: int| 0 <= k < name.len() ==> !is_sep(#[trigger] name[k]),
    ensures
        parent(x + seq![sep] + name) == Some(x),
    decreases name.len(),
{
    let s = x + seq![sep] + name;
    if name.len() == 0 {
        assert(s.len() == x.len() + 1);
        assert(s[s.len() - 1] == sep);
        assert(last_sep(s) == Some(x.len() as int));
        assert(s.take(x.len() as int) =~= x);
    } else {
        let shorter = name.drop_last();
        assert forall|k: int| 0 <= k < shorter.len() implies !is_sep(#[trigger] shorter[k]) by {
            assert(shorter[k] == name[k]);
        }
        lemma_parent_of_join(x, sep, shorter);
        assert(s.drop_last() =~= x + seq![sep] + shorter);
        assert(s.last() == name[name.len() - 1]);
        assert(!is_sep(s.last()));
        assert(last_sep(s) == last_sep(s.drop_last()));
        lemma_last_sep(s.drop_last());
        let i = last_sep(s.drop_last())->0;
        assert(s.drop_last().take(i) == x);
        assert(i == x.len());
        assert(s.take(x.len() as int) =~= x);
    }
}

/// `install_dir_of(&config_path_in(d)) == Some(d)` for any directory `d`
/// that is not empty: three levels above its configuration file is the
/// directory again, whichever separator it uses.
pub proof fn law_install_dir_of_config_path_in(d: Seq<char>)
    requires
        d.len() > 0,
    ensures
        spec_install_dir_of(spec_config_path_in(d)) == Some(d),
{
    reveal_strlit("TAGame");
    reveal_strlit("Config");
    reveal_strlit("DefaultStatsAPI.ini");
    let sep = if d.contains('\\') { '\\' } else { '/' };
    let a = d + seq![sep] + "TAGame"@;
    let b = a + seq![sep] + "Config"@;
    let c = b + seq![sep] + "DefaultStatsAPI.ini"@;
    assert(c =~= spec_config_path_in(d));
    lemma_parent_of_join(b, sep, "DefaultStatsAPI.ini"@);
    lemma_parent_of_join(a, sep, "Config"@);
    lemma_parent_of_join(d, sep, "TAGame"@);
}

} // verus!
