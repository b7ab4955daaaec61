//! What the game's stats socket says: which events open a match, which
//! update it, which end it, and when to give up on the bytes read.
use vstd::prelude::*;
use crate::text::str_eq;

verus! {

/// A buffer that grows past this many bytes without a whole object is
/// dropped: 8 MiB.
pub const MAX_BUFFER: usize = 8388608;

/// What an event from the game stands for.
#[derive(Debug, Clone, Copy, PartialEq, Eq)]
pub enum EventKind {
    /// A match is opening: `MatchInitialized`, `CountdownBegin` or
    /// `RoundStarted`, since the GUID is not yet known at `MatchCreated`.
    Open,
    /// A match state: `UpdateState`.
    State,
    /// The match is ending: `MatchDestroyed` or `MatchEnded`.
    Close,
    /// Anything else, logged once.
    Unhandled,
}

/// The kind of an event, by its name.
pub open spec fn spec_event_kind(name: Seq<char>) -> EventKind {
    if name == "MatchInitialized"@ || name == "CountdownBegin"@ || name == "RoundStarted"@ {
        EventKind::Open
    } else if name == "UpdateState"@ {
        EventKind::State
    } else if name == "MatchDestroyed"@ || name == "MatchEnded"@ {
        EventKind::Close
    } else {
        EventKind::Unhandled
    }
}

/// The kind of an event, by its name.
pub fn event_kind(name: &str) -> (k: EventKind)
    ensures
        k == spec_event_kind(name@),
{
    if str_eq(name, "MatchInitialized") || str_eq(name, "CountdownBegin") || str_eq(name, "RoundStarted") {
        EventKind::Open
    } else if str_eq(name, "UpdateState") {
        EventKind::State
    } else if str_eq(name, "MatchDestroyed") || str_eq(name, "MatchEnded") {
        EventKind::Close
    } else {
        EventKind::Unhandled
    }
}

/// Whether a buffer of this length, holding no whole object, is dropped.
pub fn must_drop(len: usize) -> (r: bool)
    ensures
        r == (len > MAX_BUFFER),
{
    len > MAX_BUFFER
}

/// How many unhandled event names are remembered at most.
pub const MAX_UNHANDLED: usize = 32;

/// The unhandled event names already logged.
pub struct Unhandled {
    names: Vec<String>,
}

impl View for Unhandled {
    type V = Seq<Seq<char>>;

    closed spec fn view(&self) -> Seq<Seq<char>> {
        self.names@.map_values(|s: String| s@)
    }
}

impl Unhandled {
    /// None logged yet.
    pub fn new() -> (u: Self)
        ensures
            u@ == Seq::<Seq<char>>::empty(),
    {
        let u = Unhandled { names: Vec::new() };
        proof {
            assert(u@ =~= Seq::<Seq<char>>::empty());
        }
        u
    }

    /// Whether this name is to be logged now: a name not logged yet, while
    /// fewer than the cap are remembered. It is then remembered.
    pub fn first_time(&mut self, name: &str) -> (r: bool)
        ensures
            r == (!old(self)@.contains(name@) && old(self)@.len() < MAX_UNHANDLED),
            final(self)@ == if r { old(self)@.push(name@) } else { old(self)@ },
    {
        let ghost v = self@;
        let mut i: usize = 0;
        while i < self.names.len()
            invariant
                i <= self.names@.len(),
                v == self@,
                forall|k: int| 0 <= k < i ==> v[k] != name@,
            decreases self.names@.len() - i,
        {
            proof {
                assert(v[i as int] == self.names@[i as int]@);
            }
            if str_eq(self.names[i].as_str(), name) {
                proof {
                    assert(v.contains(name@));
                }
                return false;
            }
            i = i + 1;
        }
        if self.names.len() >= MAX_UNHANDLED {
            return false;
        }
        self.names.push(name.to_owned());
        proof {
            assert(self@ =~= v.push(name@));
        }
        true
    }
}

} // verus!
