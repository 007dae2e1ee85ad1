//! Explicit market lifecycle state machine.
//!
//! Lifecycle semantics are defined apart from the matcher hot path, so
//! operational controls can be journaled and tested before admission
//! enforcement is wired into the engine.

use vstd::prelude::*;
use crate::constants::MAX_INSTRUMENTS;
use crate::instrument::InstrumentStatus;

verus! {

#[derive(Debug, Clone, Copy, PartialEq, Eq, Structural)]
pub enum LifecycleError {
    InvalidInstrument(u16),
    InvalidTransition { from: InstrumentStatus, to: InstrumentStatus },
}

#[derive(Debug, Clone, Copy, PartialEq, Eq, Structural)]
pub struct TradingSession {
    pub session_id: u64,
    pub opens_at: u64,
    pub closes_at: u64,
}

impl TradingSession {
    /// The session window is half open: `[opens_at, closes_at)`.
    pub fn contains(&self, timestamp: u64) -> (r: bool)
        ensures
            r == (self.opens_at <= timestamp && timestamp < self.closes_at),
    {
        timestamp >= self.opens_at && timestamp < self.closes_at
    }
}

#[derive(Debug, Clone, Copy, PartialEq, Eq, Structural)]
pub struct LifecycleTransition {
    pub instrument_id: u16,
    pub from: InstrumentStatus,
    pub to: InstrumentStatus,
    pub effective_sequence: u64,
    pub effective_timestamp: u64,
}

/// The transitions the lifecycle allows: staying put, opening, halting and
/// resuming, closing, and expiring or settling a closed market.
pub open spec fn spec_valid_transition(from: InstrumentStatus, to: InstrumentStatus) -> bool {
    ||| from == to
    ||| (from == InstrumentStatus::PreOpen && (to == InstrumentStatus::Open || to == InstrumentStatus::Halted || to == InstrumentStatus::Closed))
    ||| (from == InstrumentStatus::Open && (to == InstrumentStatus::Halted || to == InstrumentStatus::Closed))
    ||| (from == InstrumentStatus::Halted && (to == InstrumentStatus::Open || to == InstrumentStatus::Closed))
    ||| (from == InstrumentStatus::Closed && (to == InstrumentStatus::Expired || to == InstrumentStatus::Settled))
    ||| (from == InstrumentStatus::Expired && to == InstrumentStatus::Settled)
}

/// A status from which no order is ever accepted again.
pub open spec fn spec_terminal(s: InstrumentStatus) -> bool {
    s == InstrumentStatus::Closed || s == InstrumentStatus::Expired || s == InstrumentStatus::Settled
}

fn valid_transition(from: InstrumentStatus, to: InstrumentStatus) -> (r: bool)
    ensures
        r == spec_valid_transition(from, to),
{
    match (from, to) {
        (InstrumentStatus::PreOpen, InstrumentStatus::Open)
        | (InstrumentStatus::PreOpen, InstrumentStatus::Halted)
        | (InstrumentStatus::Open, InstrumentStatus::Halted)
        | (InstrumentStatus::Halted, InstrumentStatus::Open)
        | (InstrumentStatus::Open, InstrumentStatus::Closed)
        | (InstrumentStatus::Halted, InstrumentStatus::Closed)
        | (InstrumentStatus::Closed, InstrumentStatus::Expired)
        | (InstrumentStatus::Closed, InstrumentStatus::Settled)
        | (InstrumentStatus::Expired, InstrumentStatus::Settled)
        | (InstrumentStatus::PreOpen, InstrumentStatus::Closed) => true,
        (a, b) => a == b,
    }
}

/// Status and trading session of every instrument.
pub struct MarketLifecycle {
    statuses: Vec<InstrumentStatus>,
    sessions: Vec<Option<TradingSession>>,
}

impl View for MarketLifecycle {
    type V = (Seq<InstrumentStatus>, Seq<Option<TradingSession>>);

    closed spec fn view(&self) -> Self::V {
        (self.statuses@, self.sessions@)
    }
}

impl MarketLifecycle {
    pub closed spec fn wf(&self) -> bool {
        &&& self.statuses@.len() == MAX_INSTRUMENTS
        &&& self.sessions@.len() == MAX_INSTRUMENTS
    }

    /// Status of `id`, if it names an instrument.
    pub open spec fn spec_status(&self, id: u16) -> Option<InstrumentStatus> {
        if id < MAX_INSTRUMENTS { Some(self@.0[id as int]) } else { None }
    }

    /// Session of `id`, if it names an instrument that has one.
    pub open spec fn spec_session(&self, id: u16) -> Option<TradingSession> {
        if id < MAX_INSTRUMENTS { self@.1[id as int] } else { None }
    }

    /// Every instrument pre-open, with no session.
    pub fn new() -> (r: MarketLifecycle)
        ensures
            r.wf(),
            forall|id: u16| id < MAX_INSTRUMENTS ==> #[trigger] r.spec_status(id) == Some(InstrumentStatus::PreOpen),
            forall|id: u16| #[trigger] r.spec_session(id) is None,
    {
        let mut statuses: Vec<InstrumentStatus> = Vec::with_capacity(MAX_INSTRUMENTS);
        let mut sessions: Vec<Option<TradingSession>> = Vec::with_capacity(MAX_INSTRUMENTS);
        let mut i: usize = 0;
        while i < MAX_INSTRUMENTS
            invariant
                i <= MAX_INSTRUMENTS,
                statuses@.len() == i,
                sessions@.len() == i,
                forall|k: int| 0 <= k < i ==> statuses@[k] == InstrumentStatus::PreOpen,
                forall|k: int| 0 <= k < i ==> sessions@[k] is None,
            decreases MAX_INSTRUMENTS - i,
        {
            statuses.push(InstrumentStatus::PreOpen);
            sessions.push(None);
            i = i + 1;
        }
        MarketLifecycle { statuses, sessions }
    }

    pub fn status(&self, instrument_id: u16) -> (r: Option<InstrumentStatus>)
        requires
            self.wf(),
        ensures
            r == self.spec_status(instrument_id),
    {
        if (instrument_id as usize) < self.statuses.len() {
            Some(self.statuses[instrument_id as usize])
        } else {
            None
        }
    }

    pub fn session(&self, instrument_id: u16) -> (r: Option<TradingSession>)
        requires
            self.wf(),
        ensures
            r == self.spec_session(instrument_id),
    {
        if (instrument_id as usize) < self.sessions.len() {
            self.sessions[instrument_id as usize]
        } else {
            None
        }
    }

    pub fn set_session(&mut self, instrument_id: u16, session: TradingSession) -> (r: Result<(), LifecycleError>)
        requires
            old(self).wf(),
        ensures
            final(self).wf(),
            instrument_id < MAX_INSTRUMENTS ==> r is Ok && final(self)@.1 == old(self)@.1.update(instrument_id as int, Some(session)),
            instrument_id >= MAX_INSTRUMENTS ==> r == Err::<(), LifecycleError>(LifecycleError::InvalidInstrument(instrument_id)) && final(self)@.1 == old(self)@.1,
            final(self)@.0 == old(self)@.0,
            instrument_id < MAX_INSTRUMENTS ==> final(self).spec_session(instrument_id) == Some(session),
            forall|id: u16| id != instrument_id ==> #[trigger] final(self).spec_session(id) == old(self).spec_session(id),
            forall|id: u16| #[trigger] final(self).spec_status(id) == old(self).spec_status(id),
    {
        if (instrument_id as usize) < self.sessions.len() {
            self.sessions.set(instrument_id as usize, Some(session));
            Ok(())
        } else {
            Err(LifecycleError::InvalidInstrument(instrument_id))
        }
    }

    /// Moves an instrument to status `to` when the lifecycle allows it.
    pub fn transition(
        &mut self,
        instrument_id: u16,
        to: InstrumentStatus,
        effective_sequence: u64,
        effective_timestamp: u64,
    ) -> (r: Result<LifecycleTransition, LifecycleError>)
        requires
            old(self).wf(),
        ensures
            final(self).wf(),
            final(self)@.1 == old(self)@.1,
            forall|id: u16| #[trigger] final(self).spec_session(id) == old(self).spec_session(id),
            match old(self).spec_status(instrument_id) {
                None => r == Err::<LifecycleTransition, LifecycleError>(LifecycleError::InvalidInstrument(instrument_id))
                    && final(self)@ == old(self)@,
                Some(from) => if spec_valid_transition(from, to) {
                    &&& r == Ok::<LifecycleTransition, LifecycleError>(LifecycleTransition { instrument_id, from, to, effective_sequence, effective_timestamp })
                    &&& final(self)@.0 == old(self)@.0.update(instrument_id as int, to)
                    &&& final(self).spec_status(instrument_id) == Some(to)
                    &&& forall|id: u16| id != instrument_id ==> #[trigger] final(self).spec_status(id) == old(self).spec_status(id)
                } else {
                    &&& r == Err::<LifecycleTransition, LifecycleError>(LifecycleError::InvalidTransition { from, to })
                    &&& final(self)@ == old(self)@
                },
            },
    {
        let from = match self.status(instrument_id) {
            Some(s) => s,
            None => return Err(LifecycleError::InvalidInstrument(instrument_id)),
        };
        if !valid_transition(from, to) {
            return Err(LifecycleError::InvalidTransition { from, to });
        }
        self.statuses.set(instrument_id as usize, to);
        Ok(LifecycleTransition { instrument_id, from, to, effective_sequence, effective_timestamp })
    }

    /// Orders are accepted only while the instrument is open.
    pub fn accepts_orders(&self, instrument_id: u16) -> (r: bool)
        requires
            self.wf(),
        ensures
            r == (self.spec_status(instrument_id) == Some(InstrumentStatus::Open)),
    {
        match self.status(instrument_id) {
            Some(InstrumentStatus::Open) => true,
            _ => false,
        }
    }

    pub fn can_match(&self, instrument_id: u16) -> (r: bool)
        requires
            self.wf(),
        ensures
            r == (self.spec_status(instrument_id) == Some(InstrumentStatus::Open)),
    {
        self.accepts_orders(instrument_id)
    }

    pub fn is_terminal(&self, instrument_id: u16) -> (r: bool)
        requires
            self.wf(),
        ensures
            r == (self.spec_status(instrument_id) matches Some(s) && spec_terminal(s)),
    {
        match self.status(instrument_id) {
            Some(InstrumentStatus::Closed) | Some(InstrumentStatus::Expired) | Some(InstrumentStatus::Settled) => true,
            _ => false,
        }
    }
}

impl Default for MarketLifecycle {
    fn default() -> (r: MarketLifecycle)
        ensures
            r.wf(),
            forall|id: u16| id < MAX_INSTRUMENTS ==> #[trigger] r.spec_status(id) == Some(InstrumentStatus::PreOpen),
    {
        MarketLifecycle::new()
    }
}

/// A terminal instrument stays terminal through any allowed transition:
/// once closed, expired or settled, it never accepts orders again.
pub proof fn lemma_terminal_is_absorbing(from: InstrumentStatus, to: InstrumentStatus)
    requires
        spec_terminal(from),
        spec_valid_transition(from, to),
    ensures
        spec_terminal(to),
        to != InstrumentStatus::Open,
{
}

} // verus!
