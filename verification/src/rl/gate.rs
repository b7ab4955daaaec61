//! Whether a state frame may open a match.
//!
//! The game announces the end of a match twice and keeps sending state frames
//! for the end-of-match screen in between. Once a match has ended, only an
//! opening event may start the next one.
use vstd::prelude::*;

verus! {

pub struct MatchGate {
    may_start: bool,
}

/// Where one event leaves a gate in any state `g`: open once a match
/// starts, shut once one ends.
pub open spec fn gate_on(g: bool, opens: bool) -> bool {
    opens
}

/// A new gate after these events, in order; each is an opening event when
/// set, an end of match otherwise.
pub open spec fn gate_after(events: Seq<bool>) -> bool
    decreases events.len(),
{
    if events.len() == 0 {
        true
    } else {
        gate_on(gate_after(events.drop_last()), events.last())
    }
}

/// After any run of opening events and ends of match on a new gate, a state
/// frame may start a match exactly when no end of match came, or the last
/// event was an opening one.
pub proof fn law_gate_after_events(events: Seq<bool>)
    ensures
        gate_after(events) == ((forall|i: int| 0 <= i < events.len() ==> #[trigger] events[i])
            || (events.len() > 0 && events.last())),
    decreases events.len(),
{
    if events.len() > 0 {
        let rest = events.drop_last();
        law_gate_after_events(rest);
        if !events.last() {
            assert(!events[events.len() - 1]);
        } else {
            assert(gate_after(events));
        }
    }
}

impl View for MatchGate {
    type V = bool;

    /// Whether a state frame may start a match right now.
    closed spec fn view(&self) -> bool {
        self.may_start
    }
}

impl MatchGate {
    /// A gate open at startup: a member who turns tracking on mid-game gets no
    /// opening event, and the first state frame is his only chance.
    pub fn new() -> (g: Self)
        ensures
            g@,
            g@ == gate_after(Seq::<bool>::empty()),
    {
        MatchGate { may_start: true }
    }

    /// An opening event arrived: a match may begin.
    pub fn opened(&mut self)
        ensures
            final(self)@,
            final(self)@ == gate_on(old(self)@, true),
    {
        self.may_start = true;
    }

    /// May a state frame start a match, when none is in progress?
    pub fn may_start(&self) -> (b: bool)
        ensures
            b == self@,
    {
        self.may_start
    }

    /// The match is over: the frames that follow belong to the end screen.
    pub fn closed(&mut self)
        ensures
            !final(self)@,
            final(self)@ == gate_on(old(self)@, false),
    {
        self.may_start = false;
    }
}

impl Default for MatchGate {
    fn default() -> (g: Self)
        ensures
            g@,
    {
        Self::new()
    }
}

} // verus!
