//! Hot standby replication: a standby engine replays the primary's
//! commands under the primary's generation and refuses any other.

use vstd::prelude::*;
use crate::command::OrderCommand;
use crate::engine::{AcceptedOrder, MatchingEngine, OrderAcceptError};
use crate::execution::can_process;
use crate::pool::spec_order_from_command;
use crate::channel::{channel_bounded, channel_try_send, channel_try_recv, QueueSendError, MAX_CHANNEL_CAPACITY};
use crate::durable::{replay_step, replay_trace, replayed};

verus! {

#[derive(Debug, Clone, Copy, PartialEq, Eq, Structural)]
pub struct Generation(pub u64);

#[derive(Debug, Clone, Copy, PartialEq, Eq, Structural)]
pub enum ReplicationError {
    Fenced,
    QueueFull,
    Disconnected,
    Reject(OrderAcceptError),
    /// A received command could not be shown to fit on its price level, or
    /// the standby's applied count is at its limit; draining stopped there.
    Capacity,
}

/// What accepting `c` into `e0` leaves in `e1` when it is accepted as `a`.
pub open spec fn accept_effect(e0: MatchingEngine, c: OrderCommand, e1: MatchingEngine, a: AcceptedOrder) -> bool {
    &&& e1.wf()
    &&& e1.pool.data@ == e0.pool.data@.update(a.pool_index as int, spec_order_from_command(c, a.exchange_order_id.0, a.sequence_number.0))
    &&& e1.pool.free_list@ == e0.pool.free_list@.drop_first()
    &&& e1.pool.allocated_count == e0.pool.allocated_count + 1
    &&& e1.pool.is_allocated(a.pool_index)
    &&& !e1.held(a.pool_index)
    &&& e1.next_sequence_number == e0.next_sequence_number + 1
    &&& e1.next_exchange_order_id == e0.next_exchange_order_id + (if c is Cancel { 0int } else { 1 })
    &&& e1.books == e0.books
    &&& e1.instruments == e0.instruments
    &&& e1.trades == e0.trades
    &&& e1.last_events == e0.last_events
    &&& e1.trade_count == e0.trade_count
    &&& e1.event_count == e0.event_count
}

/// Once accepted, `c` can be matched and rested without a price level's
/// volume leaving `u32`.
pub open spec fn processable(e0: MatchingEngine, c: OrderCommand) -> bool {
    forall|e1: MatchingEngine, a: AcceptedOrder|
        e0.admission(c) == Ok::<AcceptedOrder, OrderAcceptError>(a) && #[trigger] accept_effect(e0, c, e1, a)
            ==> can_process(e1, a.pool_index)
}

/// The single writer: commands of its generation queue up in submission
/// order for the matching engine; commands of any other generation are
/// fenced off.
pub struct Sequencer {
    tx: crossbeam_channel::Sender<OrderCommand>,
    rx: crossbeam_channel::Receiver<OrderCommand>,
    generation: Generation,
}

impl Sequencer {
    pub closed spec fn spec_generation(&self) -> u64 {
        self.generation.0
    }

    /// A sequencer for `generation` queueing at most `capacity` commands.
    pub fn new(capacity: usize, generation: Generation) -> (r: Sequencer)
        requires
            capacity <= MAX_CHANNEL_CAPACITY,
        ensures
            r.spec_generation() == generation.0,
    {
        let (tx, rx) = channel_bounded(capacity);
        Sequencer { tx, rx, generation }
    }

    pub fn generation(&self) -> (r: Generation)
        ensures
            r.0 == self.spec_generation(),
    {
        self.generation
    }

    /// Queues `command` when `generation` is the sequencer's own; a stale
    /// or foreign generation is fenced off and nothing is queued.
    pub fn submit(&self, generation: Generation, command: OrderCommand) -> (r: Result<(), ReplicationError>)
        ensures
            generation.0 != self.spec_generation() ==> r == Err::<(), ReplicationError>(ReplicationError::Fenced),
            generation.0 == self.spec_generation() ==> (r is Ok || r == Err::<(), ReplicationError>(ReplicationError::QueueFull)
                || r == Err::<(), ReplicationError>(ReplicationError::Disconnected)),
    {
        if generation.0 != self.generation.0 {
            return Err(ReplicationError::Fenced);
        }
        match channel_try_send(&self.tx, command) {
            Ok(()) => Ok(()),
            Err(QueueSendError::Full(_)) => Err(ReplicationError::QueueFull),
            Err(QueueSendError::Disconnected(_)) => Err(ReplicationError::Disconnected),
        }
    }
    /// Drains every queued command into `engine`, and into `standby` when
    /// one follows. Stops at the first command the engine rejects, one the
    /// standby refuses, or one whose level might not hold it. The standby
    /// replays the same commands as the engine, one count per command.
    #[verifier::rlimit(50)]
    #[verifier::loop_isolation(false)]
    pub fn drain_into(&self, engine: &mut MatchingEngine, standby: Option<&mut HotStandby>) -> (r: Result<usize, ReplicationError>)
        requires
            old(engine).wf(),
            standby matches Some(s) ==> s.wf(),
        ensures
            final(engine).wf(),
            standby matches Some(s) ==> final(s).wf() && final(s).spec_generation() == s.spec_generation(),
            r matches Ok(n) ==> exists|cs: Seq<OrderCommand>| cs.len() == n && #[trigger] replayed(*old(engine), cs, *final(engine))
                && (standby matches Some(s) ==> replayed(s.spec_engine(), cs, final(s).spec_engine())
                    && final(s).spec_applied() == s.spec_applied() + n),
            r is Err ==> exists|cs: Seq<OrderCommand>, k: int| #![trigger replayed(*old(engine), cs, *final(engine)), cs.take(k)]
                0 <= k <= cs.len() && replayed(*old(engine), cs, *final(engine))
                && (standby matches Some(s) ==> replayed(s.spec_engine(), cs.take(k), final(s).spec_engine())
                    && final(s).spec_applied() == s.spec_applied() + k),
            !(r matches Err(ReplicationError::QueueFull)),
            !(r matches Err(ReplicationError::Disconnected)),
    {
        let ghost orig = standby;
        let mut standby = standby;
        let ghost e0 = *engine;
        let ghost mut cs: Seq<OrderCommand> = Seq::empty();
        let ghost mut st: Seq<MatchingEngine> = seq![*engine];
        let ghost mut sst: Seq<MatchingEngine> = match orig { Some(o) => seq![o.spec_engine()], None => seq![*engine] };
        let mut processed: usize = 0;
        let mut result: Result<usize, ReplicationError> = Ok(0);
        loop
            invariant
                engine.wf(),
                e0 == *old(engine),
                cs.len() == processed,
                replay_trace(e0, cs, st, *engine),
                orig is Some <==> standby is Some,
                standby matches Some(s) ==> orig matches Some(o) && s.wf() && *final(o) == *final(s)
                    && s.spec_generation() == o.spec_generation()
                    && replay_trace(o.spec_engine(), cs, sst, s.spec_engine())
                    && s.spec_applied() == o.spec_applied() + cs.len(),
            decreases usize::MAX - processed,
        {
            proof {
                assert(replayed(e0, cs, *engine));
                assert(cs.take(cs.len() as int) =~= cs);
                if standby is Some {
                    assert(replayed(orig->0.spec_engine(), cs.take(cs.len() as int), standby->0.spec_engine()));
                }
            }
            if processed == usize::MAX {
                result = Err(ReplicationError::Capacity);
                break;
            }
            let command = match channel_try_recv(&self.rx) {
                Some(c) => c,
                None => {
                    result = Ok(processed);
                    break;
                },
            };
            if !engine.can_replay(&command) {
                result = Err(ReplicationError::Capacity);
                break;
            }
            let ghost before = *engine;
            let accepted = match engine.accept_command(&command) {
                Ok(a) => a,
                Err(e) => {
                    result = Err(ReplicationError::Reject(e));
                    break;
                },
            };
            let ghost m = *engine;
            proof {
                assert(accept_effect(before, command, m, accepted));
            }
            engine.process_order(accepted.pool_index);
            let ghost cs0 = cs;
            proof {
                assert(replay_step(before, command, *engine));
                let cs1 = cs.push(command);
                let st1 = st.push(*engine);
                assert forall|k: int| 0 <= k < cs1.len() implies #[trigger] replay_step(st1[k], cs1[k], st1[k + 1]) by {
                    if k < cs.len() {
                        assert(replay_step(st[k], cs[k], st[k + 1]));
                    }
                }
                assert(st1[0] == e0);
                assert(replay_trace(e0, cs1, st1, *engine));
                cs = cs1;
                st = st1;
                assert(cs.take(cs0.len() as int) =~= cs0);
                assert(replayed(e0, cs, *engine));
            }
            processed = processed + 1;
            match standby {
                Some(ref mut node) => {
                    if node.applied() == u64::MAX || !node.engine().can_replay(&command) {
                        proof {
                            assert(replay_trace(orig->0.spec_engine(), cs0, sst, node.spec_engine()));
                            assert(replayed(orig->0.spec_engine(), cs.take(cs0.len() as int), node.spec_engine()));
                        }
                        result = Err(ReplicationError::Capacity);
                        break;
                    }
                    let ghost sb = node.spec_engine();
                    let applied = node.apply(self.generation, command);
                    if let Err(e) = applied {
                        proof {
                            assert(replay_trace(orig->0.spec_engine(), cs0, sst, node.spec_engine()));
                            assert(replayed(orig->0.spec_engine(), cs.take(cs0.len() as int), node.spec_engine()));
                        }
                        result = Err(e);
                        break;
                    }
                    proof {
                        assert(replay_step(sb, command, node.spec_engine()));
                        let sst1 = sst.push(node.spec_engine());
                        assert forall|k: int| 0 <= k < cs.len() implies #[trigger] replay_step(sst1[k], cs[k], sst1[k + 1]) by {
                            if k < cs0.len() {
                                assert(cs[k] == cs0[k]);
                                assert(replay_step(sst[k], cs0[k], sst[k + 1]));
                            }
                        }
                        sst = sst1;
                    }
                },
                None => {},
            }
        }
        result
    }
}

/// A standby engine and the generation it follows.
pub struct HotStandby {
    engine: MatchingEngine,
    generation: Generation,
    applied: u64,
}

impl HotStandby {
    /// The standby's engine is sound.
    pub closed spec fn wf(&self) -> bool {
        self.engine.wf()
    }

    pub closed spec fn spec_engine(&self) -> MatchingEngine {
        self.engine
    }

    pub closed spec fn spec_generation(&self) -> u64 {
        self.generation.0
    }

    pub closed spec fn spec_applied(&self) -> u64 {
        self.applied
    }

    /// A standby following `generation` with a fresh engine.
    pub fn new(generation: Generation) -> (r: HotStandby)
        ensures
            r.wf(),
            r.spec_generation() == generation.0,
            r.spec_applied() == 0,
            r.spec_engine().next_sequence_number == 1,
            r.spec_engine().next_exchange_order_id == 1,
            r.spec_engine().pool.allocated_count == 0,
    {
        HotStandby { engine: MatchingEngine::new(), generation, applied: 0 }
    }

    pub fn generation(&self) -> (r: Generation)
        ensures
            r.0 == self.spec_generation(),
    {
        self.generation
    }

    /// Commands applied so far.
    pub fn applied(&self) -> (r: u64)
        ensures
            r == self.spec_applied(),
    {
        self.applied
    }

    /// Follows a new generation from now on.
    pub fn promote(&mut self, new_generation: Generation)
        ensures
            final(self).spec_generation() == new_generation.0,
            final(self).spec_engine() == old(self).spec_engine(),
            final(self).spec_applied() == old(self).spec_applied(),
            final(self).wf() == old(self).wf(),
    {
        self.generation = new_generation;
    }

    /// Replays one command of `generation`: a command of another
    /// generation is fenced off, one the engine rejects is refused with the
    /// reason, and an accepted one is processed and counted.
    pub fn apply(&mut self, generation: Generation, command: OrderCommand) -> (r: Result<(), ReplicationError>)
        requires
            old(self).wf(),
            old(self).spec_applied() < u64::MAX,
            processable(old(self).spec_engine(), command),
        ensures
            final(self).wf(),
            final(self).spec_generation() == old(self).spec_generation(),
            generation.0 != old(self).spec_generation() ==> r == Err::<(), ReplicationError>(ReplicationError::Fenced)
                && final(self).spec_engine() == old(self).spec_engine() && final(self).spec_applied() == old(self).spec_applied(),
            generation.0 == old(self).spec_generation() ==> match old(self).spec_engine().admission(command) {
                Err(e) => r == Err::<(), ReplicationError>(ReplicationError::Reject(e))
                    && final(self).spec_engine() == old(self).spec_engine() && final(self).spec_applied() == old(self).spec_applied(),
                Ok(_) => r is Ok && final(self).spec_applied() == old(self).spec_applied() + 1
                    && replay_step(old(self).spec_engine(), command, final(self).spec_engine()),
            },
    {
        if generation.0 != self.generation.0 {
            return Err(ReplicationError::Fenced);
        }
        let ghost e0 = self.engine;
        let accepted = match self.engine.accept_command(&command) {
            Ok(a) => a,
            Err(e) => return Err(ReplicationError::Reject(e)),
        };
        proof {
            assert(accept_effect(e0, command, self.engine, accepted));
        }
        self.engine.process_order(accepted.pool_index);
        proof {
            assert(replay_step(e0, command, self.engine));
        }
        self.applied = self.applied + 1;
        Ok(())
    }

    pub fn engine(&self) -> (r: &MatchingEngine)
        ensures
            *r == self.spec_engine(),
    {
        &self.engine
    }

    /// The standby's engine, to take over as primary.
    pub fn into_engine(self) -> (r: MatchingEngine)
        ensures
            r == self.spec_engine(),
    {
        self.engine
    }
}

} // verus!
