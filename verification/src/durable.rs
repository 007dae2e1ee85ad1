//! Durable admission: a command counts as accepted only once its journal
//! append succeeded, and recovery replays journalled commands in order.
//!
//! The journal itself is file I/O; the engine decides what an append's
//! outcome means for its state.

use vstd::prelude::*;
use crate::command::{NewOrder, OrderCommand, OrderSide, ReplaceOrder, spec_side_wire};
use crate::command_journal::CommandJournalError;
use crate::engine::{AcceptedOrder, MatchingEngine, OrderAcceptError, lemma_wf_pool, lemma_wf_book};
use crate::execution::{can_process, process_outcome, own_ladder, left_after_match, rest_fits, replace_fits, cancelled, made_new};
use crate::matching::{fills_of, opposite_priority, lemma_fill_total_nonneg};
use crate::replication::{accept_effect, processable};
use crate::certification::{level_volume, lemma_cancel_processable, lemma_new_processable};

verus! {

#[derive(Debug)]
pub enum DurableAcceptError {
    Validation(OrderAcceptError),
    Journal(CommandJournalError),
}

impl From<OrderAcceptError> for DurableAcceptError {
    fn from(e: OrderAcceptError) -> (r: DurableAcceptError) {
        DurableAcceptError::Validation(e)
    }
}

impl vstd::std_specs::convert::FromSpecImpl<OrderAcceptError> for DurableAcceptError {
    open spec fn obeys_from_spec() -> bool {
        true
    }

    open spec fn from_spec(e: OrderAcceptError) -> DurableAcceptError {
        DurableAcceptError::Validation(e)
    }
}

#[derive(Debug)]
pub enum DurableRecoveryError {
    Journal(CommandJournalError),
    Accept(OrderAcceptError),
    /// The command at this position could not be shown to fit on its price
    /// level (for a new order, its level's volume plus what matching would
    /// leave of it leaves `u32`; for a replace, the same with its whole
    /// quantity); replay stopped before it.
    Capacity(usize),
}

impl From<OrderAcceptError> for DurableRecoveryError {
    fn from(e: OrderAcceptError) -> (r: DurableRecoveryError) {
        DurableRecoveryError::Accept(e)
    }
}

impl vstd::std_specs::convert::FromSpecImpl<OrderAcceptError> for DurableRecoveryError {
    open spec fn obeys_from_spec() -> bool {
        true
    }

    open spec fn from_spec(e: OrderAcceptError) -> DurableRecoveryError {
        DurableRecoveryError::Accept(e)
    }
}

impl From<CommandJournalError> for DurableRecoveryError {
    fn from(e: CommandJournalError) -> (r: DurableRecoveryError) {
        DurableRecoveryError::Journal(e)
    }
}

impl vstd::std_specs::convert::FromSpecImpl<CommandJournalError> for DurableRecoveryError {
    open spec fn obeys_from_spec() -> bool {
        true
    }

    open spec fn from_spec(e: CommandJournalError) -> DurableRecoveryError {
        DurableRecoveryError::Journal(e)
    }
}

/// `e1` is `e0` with the admission of `a` taken back: its record is free
/// again and the sequence and order-id counters are where they were.
pub open spec fn accept_undone(e0: MatchingEngine, e1: MatchingEngine, a: AcceptedOrder) -> bool {
    &&& e1.books@ == e0.books@
    &&& e1.instruments == e0.instruments
    &&& e1.pool.free_list@ == seq![a.pool_index] + e0.pool.free_list@
    &&& e1.pool.allocated_count == e0.pool.allocated_count - 1
    &&& e1.next_sequence_number == a.sequence_number.0
    &&& e1.next_exchange_order_id == (if a.exchange_order_id.0 != 0 { a.exchange_order_id.0 } else { e0.next_exchange_order_id })
}

/// The level an order of `side` at `price` would rest on in book `iid` of
/// `e` has room for `quantity` more (an instrument with no book always
/// has).
pub open spec fn level_has_room(e: MatchingEngine, iid: u16, side: OrderSide, price: u32, quantity: u32) -> bool {
    iid < e.books@.len() ==> own_ladder(e.books@[iid as int], spec_side_wire(side)).volume_at(price) + quantity <= u32::MAX
}

/// The level a new order would rest on in `e` has room for what matching
/// would leave of it (an instrument with no book always has).
pub open spec fn new_has_room(e: MatchingEngine, o: NewOrder) -> bool {
    let side = spec_side_wire(o.side);
    o.instrument_id < e.books@.len() ==> {
        let book = e.books@[o.instrument_id as int];
        let left = o.quantity - crate::room::fill_against(book, side == 0, o.price, o.quantity);
        left > 0 ==> own_ladder(book, side).volume_at(o.price) + left <= u32::MAX
    }
}

/// The replay check: a cancel always passes; a new order passes when its
/// level has room for what matching would leave of it; a replace passes
/// when its level has room for its whole quantity.
pub open spec fn replay_fits(e: MatchingEngine, c: OrderCommand) -> bool {
    match c {
        OrderCommand::Cancel(_) => true,
        OrderCommand::New(o) => new_has_room(e, o),
        OrderCommand::Replace(o) => level_has_room(e, o.instrument_id, o.side, o.price, o.quantity),
    }
}

/// `e1` is `e0` after admitting and processing `c`.
pub open spec fn replay_step(e0: MatchingEngine, c: OrderCommand, e1: MatchingEngine) -> bool {
    &&& e1.wf()
    &&& exists|m: MatchingEngine, a: AcceptedOrder| #![trigger accept_effect(e0, c, m, a), process_outcome(m, e1, a.pool_index)]
        e0.admission(c) == Ok::<AcceptedOrder, OrderAcceptError>(a) && accept_effect(e0, c, m, a)
            && process_outcome(m, e1, a.pool_index)
}

/// `st` runs from `e0` to `e1`, each state following from the one before
/// by replaying the next command of `cs`.
pub open spec fn replay_trace(e0: MatchingEngine, cs: Seq<OrderCommand>, st: Seq<MatchingEngine>, e1: MatchingEngine) -> bool {
    &&& st.len() == cs.len() + 1
    &&& st[0] == e0
    &&& st.last() == e1
    &&& forall|k: int| 0 <= k < cs.len() ==> #[trigger] replay_step(st[k], cs[k], st[k + 1])
}

/// `e1` is `e0` after replaying every command of `cs` in order.
pub open spec fn replayed(e0: MatchingEngine, cs: Seq<OrderCommand>, e1: MatchingEngine) -> bool {
    exists|st: Seq<MatchingEngine>| #[trigger] replay_trace(e0, cs, st, e1)
}

impl MatchingEngine {
    /// Settles a command admitted as `accepted` with the outcome of its
    /// journal append: on success the admission stands; on failure it is
    /// taken back and the journal error returned.
    pub fn conclude_durable_accept(
        &mut self,
        accepted: AcceptedOrder,
        journaled: Result<(), CommandJournalError>,
    ) -> (r: Result<AcceptedOrder, DurableAcceptError>)
        requires
            old(self).wf(),
            old(self).pool.is_allocated(accepted.pool_index),
            !old(self).held(accepted.pool_index),
        ensures
            final(self).wf(),
            journaled is Ok ==> r == Ok::<AcceptedOrder, DurableAcceptError>(accepted) && *final(self) == *old(self),
            journaled is Err ==> r matches Err(DurableAcceptError::Journal(_)),
            journaled is Err ==> accept_undone(*old(self), *final(self), accepted),
            final(self).trades == old(self).trades,
            final(self).last_events == old(self).last_events,
    {
        match journaled {
            Ok(()) => Ok(accepted),
            Err(error) => {
                self.discard(accepted.pool_index);
                self.next_sequence_number = accepted.sequence_number.0;
                if accepted.exchange_order_id.0 != 0 {
                    self.next_exchange_order_id = accepted.exchange_order_id.0;
                }
                proof {
                    reveal(MatchingEngine::wf);
                }
                Err(DurableAcceptError::Journal(error))
            },
        }
    }

    /// Replays one journalled command: admits it and processes it. Returns
    /// the number of trades it produced.
    pub fn replay_command(&mut self, command: &OrderCommand) -> (r: Result<usize, DurableRecoveryError>)
        requires
            old(self).wf(),
            processable(*old(self), *command),
        ensures
            final(self).wf(),
            old(self).admission(*command) matches Err(e) ==> r matches Err(DurableRecoveryError::Accept(x)) && x == e
                && *final(self) == *old(self),
            old(self).admission(*command) matches Ok(a) ==> exists|m: MatchingEngine| {
                &&& accept_effect(*old(self), *command, m, a)
                &&& process_outcome(m, *final(self), a.pool_index)
                &&& r == Ok::<usize, DurableRecoveryError>(final(self).trades@.len() as usize)
            },
    {
        let ghost e0 = *self;
        let accepted = match self.accept_command(command) {
            Ok(a) => a,
            Err(e) => return Err(DurableRecoveryError::Accept(e)),
        };
        let ghost m = *self;
        proof {
            assert(accept_effect(e0, *command, m, accepted));
        }
        let n = self.process_order(accepted.pool_index);
        Ok(n)
    }

    /// Replays journalled `commands` in order. Stops at the first command the
    /// engine rejects, or whose level might not hold it, and reports it.
    pub fn recover_commands(&mut self, commands: &[OrderCommand]) -> (r: Result<usize, DurableRecoveryError>)
        requires
            old(self).wf(),
        ensures
            final(self).wf(),
            r matches Ok(n) ==> n == commands@.len() && replayed(*old(self), commands@, *final(self)),
            r matches Err(DurableRecoveryError::Accept(e)) ==> exists|k: int| 0 <= k < commands@.len()
                && #[trigger] replayed(*old(self), commands@.take(k), *final(self))
                && final(self).admission(commands@[k]) == Err::<AcceptedOrder, OrderAcceptError>(e),
            r matches Err(DurableRecoveryError::Capacity(k)) ==> k < commands@.len()
                && replayed(*old(self), commands@.take(k as int), *final(self))
                && !replay_fits(*final(self), commands@[k as int]),
            !(r matches Err(DurableRecoveryError::Journal(_))),
    {
        let ghost e0 = *self;
        let ghost mut st: Seq<MatchingEngine> = seq![*self];
        let mut i: usize = 0;
        while i < commands.len()
            invariant
                self.wf(),
                e0 == *old(self),
                i <= commands@.len(),
                replay_trace(e0, commands@.take(i as int), st, *self),
            decreases commands@.len() - i,
        {
            let command = commands[i];
            assert(command == commands@[i as int]);
            if !self.can_replay(&command) {
                assert(replay_trace(e0, commands@.take(i as int), st, *self));
                return Err(DurableRecoveryError::Capacity(i));
            }
            let ghost before = *self;
            let accepted = match self.accept_command(&command) {
                Ok(a) => a,
                Err(e) => {
                    assert(replay_trace(e0, commands@.take(i as int), st, *self));
                    assert(replayed(e0, commands@.take(i as int), *self));
                    assert(self.admission(commands@[i as int]) == Err::<AcceptedOrder, OrderAcceptError>(e));
                    return Err(DurableRecoveryError::Accept(e));
                },
            };
            let ghost m = *self;
            proof {
                assert(accept_effect(before, command, m, accepted));
            }
            self.process_order(accepted.pool_index);
            proof {
                assert(replay_step(before, command, *self));
                let cs0 = commands@.take(i as int);
                let cs1 = commands@.take(i + 1);
                let st1 = st.push(*self);
                assert forall|k: int| 0 <= k < cs1.len() implies #[trigger] replay_step(st1[k], cs1[k], st1[k + 1]) by {
                    if k < cs0.len() {
                        assert(cs1[k] == cs0[k]);
                        assert(replay_step(st[k], cs0[k], st[k + 1]));
                    } else {
                        assert(st1[k] == before);
                        assert(cs1[k] == command);
                    }
                }
                st = st1;
            }
            i = i + 1;
        }
        proof {
            assert(commands@.take(i as int) =~= commands@);
        }
        Ok(i)
    }

    /// Whether `command` can surely be replayed: a cancel always can; a new
    /// order can when what matching would leave of it fits on the level it
    /// would rest on; a replace can when its whole quantity fits on that
    /// level as the book stands now.
    pub fn can_replay(&self, command: &OrderCommand) -> (r: bool)
        requires
            self.wf(),
        ensures
            r == replay_fits(*self, *command),
            r ==> processable(*self, *command),
    {
        match *command {
            OrderCommand::Cancel(_) => {
                proof {
                    lemma_cancel_processable(*self, *command);
                }
                true
            },
            OrderCommand::Replace(o) => {
                proof {
                    lemma_wf_pool(*self);
                }
                let book = match self.book(o.instrument_id) {
                    Some(b) => b,
                    None => {
                        proof {
                            assert forall|e1: MatchingEngine, a: AcceptedOrder|
                                self.admission(*command) == Ok::<AcceptedOrder, OrderAcceptError>(a) && #[trigger] accept_effect(*self, *command, e1, a)
                                implies can_process(e1, a.pool_index) by {
                                assert(self.instruments.lookup(o.instrument_id) is None);
                            }
                        }
                        return true;
                    },
                };
                proof {
                    lemma_wf_book(*self, o.instrument_id as int);
                }
                let volume = match o.side {
                    OrderSide::Buy => level_volume(&book.bids, o.price),
                    OrderSide::Sell => level_volume(&book.asks, o.price),
                };
                let fits = (volume as u64) + (o.quantity as u64) <= 0xffff_ffff;
                proof {
                    if fits {
                        lemma_replace_processable(*self, o);
                    }
                }
                fits
            },
            OrderCommand::New(o) => {
                proof {
                    lemma_wf_pool(*self);
                }
                let book = match self.book(o.instrument_id) {
                    Some(b) => b,
                    None => {
                        proof {
                            assert forall|e1: MatchingEngine, a: AcceptedOrder|
                                self.admission(*command) == Ok::<AcceptedOrder, OrderAcceptError>(a) && #[trigger] accept_effect(*self, *command, e1, a)
                                implies can_process(e1, a.pool_index) by {
                                assert(self.instruments.lookup(o.instrument_id) is None);
                            }
                        }
                        return true;
                    },
                };
                proof {
                    lemma_wf_book(*self, o.instrument_id as int);
                }
                let buy = match o.side {
                    OrderSide::Buy => true,
                    OrderSide::Sell => false,
                };
                let filled = crate::room::crossing_fill(book, buy, o.price, o.quantity);
                let left = o.quantity - filled;
                let volume = match o.side {
                    OrderSide::Buy => level_volume(&book.bids, o.price),
                    OrderSide::Sell => level_volume(&book.asks, o.price),
                };
                let fits = left == 0 || (volume as u64) + (left as u64) <= 0xffff_ffff;
                proof {
                    if fits {
                        lemma_new_processable(*self, o);
                    }
                }
                fits
            },
        }
    }
}

/// An accepted replace can be processed when its new quantity fits on the
/// level it may rest on as the book stands now: cancelling its target only
/// lowers volumes.
#[verifier::spinoff_prover]
pub proof fn lemma_replace_processable(e: MatchingEngine, o: ReplaceOrder)
    requires
        e.wf(),
        o.instrument_id < e.books@.len(),
        own_ladder(e.books@[o.instrument_id as int], spec_side_wire(o.side)).volume_at(o.price) + o.quantity <= u32::MAX,
    ensures
        processable(e, OrderCommand::Replace(o)),
{
    let c = OrderCommand::Replace(o);
    assert forall|e1: MatchingEngine, a: AcceptedOrder|
        e.admission(c) == Ok::<AcceptedOrder, OrderAcceptError>(a) && #[trigger] accept_effect(e, c, e1, a)
        implies can_process(e1, a.pool_index) by {
        let idx = a.pool_index;
        lemma_wf_pool(e1);
        lemma_wf_pool(e);
        let rec = e1.pool.data@[idx as int];
        let iid = rec.instrument_id;
        assert(rec == crate::pool::spec_order_from_command(c, a.exchange_order_id.0, a.sequence_number.0));
        assert(replace_fits(e1, idx)) by {
            reveal(replace_fits);
            assert forall|cc: MatchingEngine, n: MatchingEngine|
                #![trigger cancelled(e1, cc, iid, (rec.account_id, rec.replace_target_client_order_id)), made_new(cc, n, idx)]
                cancelled(e1, cc, iid, (rec.account_id, rec.replace_target_client_order_id)) && made_new(cc, n, idx)
                implies rest_fits(n, idx) by {
                reveal(rest_fits);
                let d = n.pool.data@;
                let nrec = d[idx as int];
                let buy = nrec.side == 0;
                lemma_fill_total_nonneg(fills_of(d, opposite_priority(&n.books@[iid as int], buy), idx, buy));
                assert(iid == o.instrument_id);
                assert(!e1.books@[iid as int].holds(idx));
                assert(0 <= idx < e1.pool.data@.len());
                assert(cc.pool.data@[idx as int] == e1.pool.data@[idx as int]);
                assert(rec.remaining == o.quantity);
                assert(cc.pool.data@.len() == e1.pool.data@.len());
                assert(nrec == (crate::pool::Order { command_kind: 0, ..cc.pool.data@[idx as int] }));
                assert(nrec.remaining == o.quantity);
                assert(left_after_match(n, idx) <= o.quantity);
                assert(n.books@[iid as int] == cc.books@[iid as int]);
                assert(e1.books@ == e.books@);
                let s = nrec.side;
                assert(cc.books@[iid as int].ladder(s).volume_at(o.price) <= e1.books@[iid as int].ladder(s).volume_at(o.price));
                assert(own_ladder(cc.books@[iid as int], s).volume_at(o.price)
                    <= own_ladder(e1.books@[iid as int], s).volume_at(o.price));
            }
        }
    }
}

/// A journal failure consumes nothing: admitting a command and then taking
/// the admission back leaves the free slots, the allocation count, the
/// books and both identity counters as they were before the command. (An
/// engine whose next exchange order id is 0 never arises: ids start at 1.)
pub proof fn lemma_failed_journal_consumes_nothing(
    e0: MatchingEngine,
    c: OrderCommand,
    e1: MatchingEngine,
    a: AcceptedOrder,
    e2: MatchingEngine,
)
    requires
        e0.wf(),
        e0.admission(c) == Ok::<AcceptedOrder, OrderAcceptError>(a),
        accept_effect(e0, c, e1, a),
        accept_undone(e1, e2, a),
        c is Cancel || e0.next_exchange_order_id != 0,
    ensures
        e2.pool.free_list@ == e0.pool.free_list@,
        e2.pool.allocated_count == e0.pool.allocated_count,
        e2.books@ == e0.books@,
        e2.instruments == e0.instruments,
        e2.next_sequence_number == e0.next_sequence_number,
        e2.next_exchange_order_id == e0.next_exchange_order_id,
{
    lemma_wf_pool(e0);
    assert(e0.pool.free_list@.len() > 0);
    assert(e2.pool.free_list@ =~= e0.pool.free_list@);
}

} // verus!
