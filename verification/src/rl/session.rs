//! The decisions of a Rocket League watching session: when a match opens,
//! which frames it reads, and what its end leads to. The socket, the clock
//! and the database stay with the caller, which hands each event in and
//! carries out the outcome.
use vstd::prelude::*;
use crate::rl::gate::MatchGate;
use crate::rl::parser::{spec_finish, spec_live, spec_new, spec_observe, wf, Live, Match, MatchModel, Refusal, StateFrame, Summary, SummaryView};
use crate::order::{leq_of, text_order};
use crate::scanner::strs;
use crate::text::{append_chars, chars_of, join};

verus! {

/// What a session holds.
pub struct SessionView {
    pub current: Option<MatchModel>,
    /// The GUID of the last match whose end was handled.
    pub last_guid: Option<Seq<char>>,
    /// Whether a state frame may open a match.
    pub may_start: bool,
}

/// A session following the game's socket.
pub struct Session {
    current: Option<Match>,
    last_guid: Option<String>,
    gate: MatchGate,
}

impl View for Session {
    type V = SessionView;

    closed spec fn view(&self) -> SessionView {
        SessionView {
            current: match self.current {
                Some(m) => Some(m@),
                None => None,
            },
            last_guid: match self.last_guid {
                Some(g) => Some(g@),
                None => None,
            },
            may_start: self.gate@,
        }
    }
}

/// The match being observed is well formed.
pub open spec fn session_wf(s: SessionView) -> bool {
    s.current matches Some(m) ==> wf(m)
}

/// What the end of a match leads to.
pub enum Closing {
    /// No match was open.
    NoMatch,
    /// The game sent the end of a match already handled again.
    AlreadyHandled,
    /// The match is not reported, for this reason. `names` are the names met,
    /// for the local log; `mismatch` is what the member's warning becomes:
    /// the names when his name matched nobody, cleared for any other reason,
    /// left as it is when no name was met.
    Unreported { refusal: Refusal, names: Vec<String>, mismatch: Option<String> },
    /// The match is reported: the member's name did match, so his warning is
    /// cleared.
    Report(Summary),
}

/// The session after a state frame: with no match open and starts barred
/// it is dropped; otherwise the match, opened for `member` if need be,
/// observes it.
pub open spec fn spec_on_state(s: SessionView, frame: StateFrame, member: Seq<char>) -> SessionView {
    if s.current is None && !s.may_start {
        s
    } else {
        SessionView {
            current: Some(spec_observe(
                match s.current {
                    Some(m) => m,
                    None => spec_new(member),
                },
                frame,
            )),
            ..s
        }
    }
}

/// How the end of a match turns out.
pub enum CloseView {
    NoMatch,
    AlreadyHandled,
    Unreported(Refusal),
    Report(SummaryView),
}

/// How the end of a match turns out: nothing without a match, a repeat when
/// its GUID is the last one handled, else its summary or its refusal.
pub open spec fn spec_close(s: SessionView, seconds: i64) -> CloseView {
    match s.current {
        None => CloseView::NoMatch,
        Some(m) => if m.guid is Some && m.guid == s.last_guid {
            CloseView::AlreadyHandled
        } else {
            match spec_finish(m, seconds) {
                Ok(v) => CloseView::Report(v),
                Err(e) => CloseView::Unreported(e),
            }
        },
    }
}

/// The session after the end of a match: no match open, starts barred, and
/// the GUID of a match newly handled remembered.
pub open spec fn spec_after_close(s: SessionView) -> SessionView {
    SessionView {
        current: None,
        may_start: false,
        last_guid: match s.current {
            Some(m) => if m.guid is Some && m.guid == s.last_guid {
                s.last_guid
            } else {
                m.guid
            },
            None => s.last_guid,
        },
    }
}

/// The outcome as the contracts see it.
pub open spec fn closing_view(c: Closing) -> CloseView {
    match c {
        Closing::NoMatch => CloseView::NoMatch,
        Closing::AlreadyHandled => CloseView::AlreadyHandled,
        Closing::Unreported { refusal, .. } => CloseView::Unreported(refusal),
        Closing::Report(s) => CloseView::Report(s@),
    }
}

/// The warning shown to the member after a refused match: the names met
/// when his name matched nobody and some were met, cleared for any other
/// reason.
pub open spec fn spec_mismatch(refusal: Refusal, names: Seq<Seq<char>>) -> Option<Seq<char>> {
    if refusal == Refusal::MemberNotFound {
        if names.len() == 0 {
            None
        } else {
            Some(join(names, ", "@))
        }
    } else {
        Some(seq![])
    }
}

fn join_names(names: &Vec<String>) -> (r: String)
    ensures
        r@ == join(strs(names@), ", "@),
{
    let mut out = String::new();
    let sep = chars_of(", ");
    let mut i: usize = 0;
    proof {
        assert(strs(names@).take(0) =~= seq![]);
    }
    while i < names.len()
        invariant
            i <= names@.len(),
            sep@ == ", "@,
            out@ == join(strs(names@).take(i as int), ", "@),
        decreases names@.len() - i,
    {
        let ghost t = strs(names@).take(i + 1);
        proof {
            assert(t.drop_last() =~= strs(names@).take(i as int));
            assert(t.last() == names@[i as int]@);
        }
        if i > 0 {
            append_chars(&mut out, sep.as_slice());
        }
        append_chars(&mut out, chars_of(names[i].as_str()).as_slice());
        proof {
            if i == 0 {
                assert(out@ =~= t[0]);
            } else {
                assert(out@ =~= join(t.drop_last(), ", "@) + ", "@ + t.last());
            }
        }
        i = i + 1;
    }
    proof {
        assert(strs(names@).take(names@.len() as int) =~= strs(names@));
    }
    out
}

impl Session {
    /// A session with no match open, whose first state frame may open one.
    pub fn new() -> (s: Self)
        ensures
            s@ == (SessionView { current: None, last_guid: None, may_start: true }),
            session_wf(s@),
    {
        Session { current: None, last_guid: None, gate: MatchGate::new() }
    }

    /// An opening event: a match may begin, and one is opened for `member`
    /// when none is. Tells whether one was opened.
    pub fn on_open(&mut self, member: &str) -> (opened: bool)
        requires
            session_wf(old(self)@),
        ensures
            session_wf(final(self)@),
            opened == old(self)@.current is None,
            final(self)@ == (SessionView {
                current: if opened { Some(spec_new(member@)) } else { old(self)@.current },
                may_start: true,
                ..old(self)@
            }),
    {
        self.gate.opened();
        if self.current.is_none() {
            self.current = Some(Match::new(member));
            true
        } else {
            false
        }
    }

    /// A state frame. With no match open it opens one for `member` only when
    /// a start is allowed, and is dropped otherwise. Tells whether the frame
    /// was read, and whether it opened the match.
    pub fn on_state(&mut self, frame: &StateFrame, member: &str) -> (r: (bool, bool))
        requires
            session_wf(old(self)@),
            frame.players matches Some(ps) ==> ps@.len() <= i64::MAX,
        ensures
            session_wf(final(self)@),
            r.0 == (old(self)@.current is Some || old(self)@.may_start),
            r.1 == (old(self)@.current is None && old(self)@.may_start),
            final(self)@ == spec_on_state(old(self)@, *frame, member@),
    {
        if self.current.is_none() && !self.gate.may_start() {
            return (false, false);
        }
        let opened = self.current.is_none();
        let mut m = match self.current.take() {
            Some(m) => m,
            None => Match::new(member),
        };
        m.observe(frame);
        self.current = Some(m);
        (true, opened)
    }

    /// The live state of the match being observed.
    pub fn live(&self) -> (r: Option<Live>)
        ensures
            r == match self@.current {
                Some(m) => spec_live(m),
                None => None,
            },
    {
        match &self.current {
            Some(m) => m.live(),
            None => None,
        }
    }

    /// The end of a match, `seconds` after it opened. Starts are barred again; the
    /// match, if one was open, is taken; the same GUID twice is a repeat of
    /// an end already handled; otherwise its GUID is remembered and it is
    /// summarised or refused.
    pub fn on_close(&mut self, seconds: i64) -> (r: Closing)
        requires
            session_wf(old(self)@),
        ensures
            session_wf(final(self)@),
            final(self)@ == spec_after_close(old(self)@),
            closing_view(r) == spec_close(old(self)@, seconds),
            r matches Closing::Unreported { refusal, names, mismatch } ==> (old(self)@.current matches Some(m)
                && strs(names@) == m.names_seen.sort_by(leq_of(text_order())) && match mismatch {
                Some(t) => spec_mismatch(refusal, strs(names@)) == Some(t@),
                None => spec_mismatch(refusal, strs(names@)) is None,
            }),
    {
        self.gate.closed();
        let m = match self.current.take() {
            Some(m) => m,
            None => {
                return Closing::NoMatch;
            },
        };
        let guid = m.guid();
        let repeat = match (&guid, &self.last_guid) {
            (Some(g), Some(l)) => crate::text::str_eq(g.as_str(), l.as_str()),
            _ => false,
        };
        if repeat {
            return Closing::AlreadyHandled;
        }
        self.last_guid = guid;
        let names = m.names_seen();
        match m.finish(seconds) {
            Ok(s) => Closing::Report(s),
            Err(refusal) => {
                let mismatch = match refusal {
                    Refusal::MemberNotFound => if names.len() == 0 {
                        None
                    } else {
                        Some(join_names(&names))
                    },
                    _ => Some(String::new()),
                };
                Closing::Unreported { refusal, names, mismatch }
            },
        }
    }
}

// ---------------------------------------------------------------------------
// Laws

/// Once a match has ended, the frames of the end-of-match screen cannot
/// open a ghost match: every state frame is dropped until an opening event.
pub proof fn law_after_an_end_frames_open_nothing(s: SessionView, seconds: i64, frames: Seq<StateFrame>, member: Seq<char>)
    ensures
        states_after(spec_after_close(s), frames, member) == spec_after_close(s),
    decreases frames.len(),
{
    if frames.len() > 0 {
        law_after_an_end_frames_open_nothing(s, seconds, frames.drop_last(), member);
    }
}

/// The session after these state frames, in order.
pub open spec fn states_after(s: SessionView, frames: Seq<StateFrame>, member: Seq<char>) -> SessionView
    decreases frames.len(),
{
    if frames.len() == 0 {
        s
    } else {
        spec_on_state(states_after(s, frames.drop_last(), member), frames.last(), member)
    }
}

/// An opening event lets the next state frame open a match again.
pub proof fn law_an_opening_allows_a_start(s: SessionView, frame: StateFrame, member: Seq<char>)
    requires
        s.current is None,
    ensures
        spec_on_state(SessionView { may_start: true, ..s }, frame, member).current == Some(spec_observe(spec_new(member), frame)),
{
}

/// The end of a match sent twice is handled once: once its GUID has been
/// handled, a match with the same GUID ends as a repeat, never reported.
pub proof fn law_the_same_match_is_never_reported_twice(s: SessionView, seconds: i64, m2: MatchModel, later: i64)
    requires
        s.current matches Some(m) && m.guid is Some,
        m2.guid == s.current->0.guid,
    ensures
        spec_close(SessionView { current: Some(m2), ..spec_after_close(s) }, later) is AlreadyHandled,
{
}

} // verus!
