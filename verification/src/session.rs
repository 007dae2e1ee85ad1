//! Ordered client session: gap detection, recovery ranges, outbound
//! sequencing and heartbeats on a monotonic tick clock.

use vstd::prelude::*;

verus! {

#[derive(Debug, Clone, Copy, PartialEq, Eq, Structural, PartialOrd, Ord)]
pub struct MessageSeq(pub u64);

#[derive(Debug, Clone, Copy, PartialEq, Eq, Structural)]
pub struct RecoveryRequest {
    pub begin: MessageSeq,
    pub end: MessageSeq,
}

#[derive(Debug, Clone, Copy, PartialEq, Eq, Structural)]
pub enum SessionError {
    NotEstablished,
    DuplicateOrOld { expected: MessageSeq, received: MessageSeq },
    Gap { expected: MessageSeq, received: MessageSeq },
    InvalidRecoveryRange,
}

/// Sequencing state of one session.
#[derive(Debug)]
pub struct SessionState {
    next_in: MessageSeq,
    next_out: MessageSeq,
    established: bool,
    heartbeat_interval_ticks: u64,
    last_activity_tick: u64,
}

/// What a session is: the next inbound and outbound sequence numbers,
/// whether it is established, the heartbeat interval and the last tick at
/// which it saw activity.
pub struct SessionView {
    pub next_in: u64,
    pub next_out: u64,
    pub established: bool,
    pub heartbeat_interval_ticks: u64,
    pub last_activity_tick: u64,
}

impl View for SessionState {
    type V = SessionView;

    closed spec fn view(&self) -> SessionView {
        SessionView {
            next_in: self.next_in.0,
            next_out: self.next_out.0,
            established: self.established,
            heartbeat_interval_ticks: self.heartbeat_interval_ticks,
            last_activity_tick: self.last_activity_tick,
        }
    }
}

/// The outcome of receiving inbound `seq` when `next_in` is expected.
pub open spec fn spec_receive(s: SessionView, seq: u64) -> Result<(), SessionError> {
    if !s.established {
        Err(SessionError::NotEstablished)
    } else if seq < s.next_in {
        Err(SessionError::DuplicateOrOld { expected: MessageSeq(s.next_in), received: MessageSeq(seq) })
    } else if seq > s.next_in {
        Err(SessionError::Gap { expected: MessageSeq(s.next_in), received: MessageSeq(seq) })
    } else if s.next_in == u64::MAX {
        Err(SessionError::InvalidRecoveryRange)
    } else {
        Ok(())
    }
}

/// The recovery range after receiving `received` ahead of the expected
/// number.
pub open spec fn spec_recovery(s: SessionView, received: u64) -> Result<RecoveryRequest, SessionError> {
    if !s.established {
        Err(SessionError::NotEstablished)
    } else if received <= s.next_in {
        Err(SessionError::InvalidRecoveryRange)
    } else {
        Ok(RecoveryRequest { begin: MessageSeq(s.next_in), end: MessageSeq((received - 1) as u64) })
    }
}

impl SessionState {
    /// A session that is not established yet, expecting message 1 both ways
    /// with a heartbeat every 1000 ticks.
    pub fn new() -> (r: SessionState)
        ensures
            r@ == (SessionView { next_in: 1, next_out: 1, established: false, heartbeat_interval_ticks: 1000, last_activity_tick: 0 }),
    {
        SessionState {
            next_in: MessageSeq(1),
            next_out: MessageSeq(1),
            established: false,
            heartbeat_interval_ticks: 1000,
            last_activity_tick: 0,
        }
    }

    pub fn establish(&mut self, next_in: MessageSeq, next_out: MessageSeq, heartbeat_interval_ticks: u64)
        ensures
            final(self)@ == (SessionView {
                next_in: next_in.0,
                next_out: next_out.0,
                established: true,
                heartbeat_interval_ticks,
                last_activity_tick: 0,
            }),
    {
        self.next_in = next_in;
        self.next_out = next_out;
        self.heartbeat_interval_ticks = heartbeat_interval_ticks;
        self.last_activity_tick = 0;
        self.established = true;
    }

    pub fn next_in(&self) -> (r: MessageSeq)
        ensures
            r.0 == self@.next_in,
    {
        self.next_in
    }

    pub fn next_out(&self) -> (r: MessageSeq)
        ensures
            r.0 == self@.next_out,
    {
        self.next_out
    }

    /// Hands out the next outbound sequence number.
    pub fn allocate_outbound(&mut self) -> (r: Result<MessageSeq, SessionError>)
        ensures
            !old(self)@.established ==> r == Err::<MessageSeq, SessionError>(SessionError::NotEstablished) && final(self)@ == old(self)@,
            old(self)@.established && old(self)@.next_out == u64::MAX ==>
                r == Err::<MessageSeq, SessionError>(SessionError::InvalidRecoveryRange) && final(self)@ == old(self)@,
            old(self)@.established && old(self)@.next_out < u64::MAX ==> {
                &&& r == Ok::<MessageSeq, SessionError>(MessageSeq(old(self)@.next_out))
                &&& final(self)@ == (SessionView { next_out: (old(self)@.next_out + 1) as u64, ..old(self)@ })
            },
    {
        if !self.established {
            return Err(SessionError::NotEstablished);
        }
        let seq = self.next_out;
        let next = match self.next_out.0.checked_add(1) {
            Some(n) => n,
            None => return Err(SessionError::InvalidRecoveryRange),
        };
        self.next_out = MessageSeq(next);
        Ok(seq)
    }

    /// Accepts inbound `sequence` only when it is exactly the next one
    /// expected; older numbers are duplicates, newer ones reveal a gap.
    pub fn receive(&mut self, sequence: MessageSeq) -> (r: Result<(), SessionError>)
        ensures
            r == spec_receive(old(self)@, sequence.0),
            r is Ok ==> final(self)@ == (SessionView { next_in: (old(self)@.next_in + 1) as u64, ..old(self)@ }),
            r is Err ==> final(self)@ == old(self)@,
    {
        if !self.established {
            return Err(SessionError::NotEstablished);
        }
        if sequence.0 < self.next_in.0 {
            return Err(SessionError::DuplicateOrOld { expected: self.next_in, received: sequence });
        }
        if sequence.0 > self.next_in.0 {
            return Err(SessionError::Gap { expected: self.next_in, received: sequence });
        }
        let next = match self.next_in.0.checked_add(1) {
            Some(n) => n,
            None => return Err(SessionError::InvalidRecoveryRange),
        };
        self.next_in = MessageSeq(next);
        Ok(())
    }

    /// The range to ask the peer to resend after receiving `received`
    /// ahead of what was expected: from the next expected number up to the
    /// one before `received`.
    pub fn recovery_request(&self, received: MessageSeq) -> (r: Result<RecoveryRequest, SessionError>)
        ensures
            r == spec_recovery(self@, received.0),
    {
        if !self.established {
            return Err(SessionError::NotEstablished);
        }
        if received.0 <= self.next_in.0 {
            return Err(SessionError::InvalidRecoveryRange);
        }
        Ok(RecoveryRequest { begin: self.next_in, end: MessageSeq(received.0 - 1) })
    }

    /// A heartbeat is due once a full interval has passed since the last
    /// activity; ticks before the last activity count as no time passed.
    pub fn heartbeat_due(&self, now_tick: u64) -> (r: bool)
        ensures
            r == ((if now_tick >= self@.last_activity_tick { now_tick - self@.last_activity_tick } else { 0 }) >= self@.heartbeat_interval_ticks),
    {
        now_tick.saturating_sub(self.last_activity_tick) >= self.heartbeat_interval_ticks
    }

    pub fn note_activity(&mut self, now_tick: u64)
        ensures
            final(self)@ == (SessionView { last_activity_tick: now_tick, ..old(self)@ }),
    {
        self.last_activity_tick = now_tick;
    }
}

impl Default for SessionState {
    fn default() -> (r: SessionState)
        ensures
            r@ == (SessionView { next_in: 1, next_out: 1, established: false, heartbeat_interval_ticks: 1000, last_activity_tick: 0 }),
    {
        SessionState::new()
    }
}

/// Inbound delivery is exactly-once and in order: a message is accepted
/// only when it carries the expected number, and accepting it moves the
/// expectation on by one, so the same number is refused afterwards.
pub proof fn lemma_receive_in_order(s: SessionView, seq: u64)
    requires
        spec_receive(s, seq) is Ok,
    ensures
        seq == s.next_in,
        spec_receive(SessionView { next_in: (s.next_in + 1) as u64, ..s }, seq) is Err,
{
}

/// Every gap can be recovered: a number received ahead of the expected one
/// yields a recovery request for exactly the missing numbers, from the
/// expected one up to the one before it.
pub proof fn lemma_gap_has_recovery(s: SessionView, seq: u64)
    requires
        spec_receive(s, seq) matches Err(SessionError::Gap { .. }),
    ensures
        spec_recovery(s, seq) == Ok::<RecoveryRequest, SessionError>(RecoveryRequest { begin: MessageSeq(s.next_in), end: MessageSeq((seq - 1) as u64) }),
        s.next_in <= seq - 1,
{
}

} // verus!
