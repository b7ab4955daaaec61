//! Finding the member's line in League of Legends' `allgamedata`, and what
//! is kept of it: numbers about the member, and his champion.
//!
//! The answer names all ten players. Their names serve only to compare, here,
//! in memory; none of them comes out.
use vstd::prelude::*;
use crate::text::{chars_of, push_char, str_eq, trim, trimmed};
use crate::scanner::strs;

verus! {

/// The member's state during the game, and nothing else: no field holds a
/// name.
#[derive(Debug, Clone, PartialEq, Eq)]
pub struct Live {
    pub champion: String,
    pub level: i64,
    pub kills: i64,
    pub deaths: i64,
    pub assists: i64,
    pub creep_score: i64,
    pub gold: i64,
    pub game_time_seconds: i64,
}

/// The ways the API can name a player, as given: each is `None` when the
/// field is absent or not a string.
pub struct PlayerNames {
    pub riot_id: Option<String>,
    pub summoner_name: Option<String>,
    pub riot_id_game_name: Option<String>,
    pub riot_id_tag_line: Option<String>,
}

/// A name given, if it is not blank.
pub open spec fn given(x: Option<String>) -> Seq<Seq<char>> {
    match x {
        Some(s) => if trim(s@).len() > 0 { seq![s@] } else { seq![] },
        None => seq![],
    }
}

/// The identities of a player: its Riot ID and summoner name when present
/// and not blank, then the Riot ID put back together from its two halves
/// when both are present and not blank.
pub open spec fn spec_identities(p: PlayerNames) -> Seq<Seq<char>> {
    let name = match p.riot_id_game_name {
        Some(s) => s@,
        None => seq![],
    };
    let tag = match p.riot_id_tag_line {
        Some(s) => s@,
        None => seq![],
    };
    given(p.riot_id) + given(p.summoner_name) + if trim(name).len() > 0 && trim(tag).len() > 0 {
        seq![name + seq!['#'] + tag]
    } else {
        seq![]
    }
}

fn push_given(out: &mut Vec<String>, x: &Option<String>)
    ensures
        strs(final(out)@) == strs(old(out)@) + given(*x),
{
    if let Some(s) = x {
        if trimmed(chars_of(s.as_str()).as_slice()).len() > 0 {
            out.push(s.clone());
            proof {
                assert(strs(out@) =~= strs(old(out)@) + given(*x));
            }
            return;
        }
    }
    proof {
        assert(strs(out@) =~= strs(old(out)@) + given(*x));
    }
}

/// The identities of a player, to compare with the member's.
pub fn identities(p: &PlayerNames) -> (r: Vec<String>)
    ensures
        strs(r@) == spec_identities(*p),
{
    let mut out: Vec<String> = Vec::new();
    proof {
        assert(strs(out@) =~= seq![]);
    }
    push_given(&mut out, &p.riot_id);
    push_given(&mut out, &p.summoner_name);
    let name: Vec<char> = match &p.riot_id_game_name {
        Some(s) => chars_of(s.as_str()),
        None => Vec::new(),
    };
    let tag: Vec<char> = match &p.riot_id_tag_line {
        Some(s) => chars_of(s.as_str()),
        None => Vec::new(),
    };
    let ghost before = strs(out@);
    if trimmed(name.as_slice()).len() > 0 && trimmed(tag.as_slice()).len() > 0 {
        let mut s = String::new();
        crate::text::append_chars(&mut s, name.as_slice());
        push_char(&mut s, '#');
        crate::text::append_chars(&mut s, tag.as_slice());
        proof {
            assert(s@ =~= name@ + seq!['#'] + tag@);
        }
        out.push(s);
        proof {
            assert(strs(out@) =~= before.push(name@ + seq!['#'] + tag@));
        }
    }
    proof {
        assert(name@ == match p.riot_id_game_name {
            Some(s) => s@,
            None => Seq::<char>::empty(),
        });
        assert(strs(out@) =~= spec_identities(*p));
    }
    out
}

/// Whether two lists of identities share one.
pub open spec fn share(a: Seq<Seq<char>>, b: Seq<Seq<char>>) -> bool {
    exists|i: int| 0 <= i < a.len() && b.contains(a[i])
}

/// The member's line among the players: the first whose identities meet
/// those of the local player. None when the local player has none, rather
/// than crediting the member with another player's facts.
pub fn find_member(players: &[PlayerNames], active: &PlayerNames) -> (r: Option<usize>)
    ensures
        match r {
            Some(i) => spec_identities(*active).len() > 0 && i < players@.len() && share(
                spec_identities(players@[i as int]),
                spec_identities(*active),
            ) && forall|j: int| 0 <= j < i ==> !share(spec_identities(#[trigger] players@[j]), spec_identities(*active)),
            None => spec_identities(*active).len() == 0 || forall|j: int|
                0 <= j < players@.len() ==> !share(spec_identities(#[trigger] players@[j]), spec_identities(*active)),
        },
{
    let mine = identities(active);
    if mine.len() == 0 {
        return None;
    }
    let ghost m = strs(mine@);
    let mut i: usize = 0;
    while i < players.len()
        invariant
            i <= players@.len(),
            m == strs(mine@),
            m == spec_identities(*active),
            forall|j: int| 0 <= j < i ==> !share(spec_identities(#[trigger] players@[j]), m),
        decreases players@.len() - i,
    {
        let ids = identities(&players[i]);
        let ghost iv = strs(ids@);
        let mut k: usize = 0;
        let mut hit = false;
        while k < ids.len()
            invariant
                k <= ids@.len(),
                iv == strs(ids@),
                m == strs(mine@),
                hit == exists|a: int| 0 <= a < k && m.contains(iv[a]),
            decreases ids@.len() - k,
        {
            let mut j: usize = 0;
            let mut found = false;
            while j < mine.len()
                invariant
                    j <= mine@.len(),
                    k < ids@.len(),
                    m == strs(mine@),
                    iv == strs(ids@),
                    found == exists|b: int| 0 <= b < j && m[b] == iv[k as int],
                decreases mine@.len() - j,
            {
                proof {
                    assert(m[j as int] == mine@[j as int]@);
                    assert(iv[k as int] == ids@[k as int]@);
                }
                if str_eq(mine[j].as_str(), ids[k].as_str()) {
                    found = true;
                }
                j = j + 1;
            }
            proof {
                if found {
                    let b = choose|b: int| 0 <= b < j && m[b] == iv[k as int];
                    assert(m.contains(iv[k as int]));
                }
                if m.contains(iv[k as int]) && !found {
                    let b = choose|b: int| 0 <= b < m.len() && m[b] == iv[k as int];
                    assert(false);
                }
            }
            if found {
                hit = true;
            }
            k = k + 1;
        }
        if hit {
            proof {
                assert(share(iv, m));
            }
            return Some(i);
        }
        i = i + 1;
    }
    None
}

} // verus!
