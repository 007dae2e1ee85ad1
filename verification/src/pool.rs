//! Preallocated slab of order records with an intrusive LIFO free list.

use vstd::prelude::*;
use vstd::set_lib::{set_int_range, lemma_int_range, lemma_len_subset};
use crate::command::{OrderCommand, spec_side_wire};
use crate::constants::{MAX_ORDERS, FREE_LIST_END};
use crate::order::ExchangeOrderId;
use crate::sequence::SequenceNumber;

verus! {

/// What a pool record was admitted as.
#[derive(Debug, Clone, Copy, PartialEq, Eq, Structural)]
pub enum CommandKind {
    New,
    Cancel,
    Replace,
}

impl CommandKind {
    /// The tag stored in `Order::command_kind`.
    pub open spec fn spec_tag(self) -> u8 {
        match self {
            CommandKind::New => 0,
            CommandKind::Cancel => 1,
            CommandKind::Replace => 2,
        }
    }

    pub fn tag(self) -> (r: u8)
        ensures
            r == self.spec_tag(),
    {
        match self {
            CommandKind::New => 0,
            CommandKind::Cancel => 1,
            CommandKind::Replace => 2,
        }
    }
}

/// One pool record: an admitted command and, while it rests, its links in
/// the price-level FIFO.
#[derive(Debug, Clone, Copy, PartialEq, Eq, Structural)]
pub struct Order {
    pub exchange_order_id: u64,
    pub client_order_id: u64,
    /// Client order id that a replace command supersedes.
    pub replace_target_client_order_id: u64,
    pub account_id: u32,
    pub instrument_id: u16,
    pub command_kind: u8,
    /// 0 = buy, 1 = sell, 2 = cancel command.
    pub side: u8,
    pub price: u32,
    pub quantity: u32,
    pub remaining: u32,
    /// Next record in the price-level FIFO, or in the free list.
    pub next: u32,
    /// Previous record in the price-level FIFO.
    pub prev: u32,
    pub sequence_number: u64,
    /// Client timestamp; metadata only.
    pub client_timestamp: u64,
}

/// The all-zero record.
pub open spec fn spec_empty_order() -> Order {
    Order {
        exchange_order_id: 0,
        client_order_id: 0,
        replace_target_client_order_id: 0,
        account_id: 0,
        instrument_id: 0,
        command_kind: 0,
        side: 0,
        price: 0,
        quantity: 0,
        remaining: 0,
        next: 0,
        prev: 0,
        sequence_number: 0,
        client_timestamp: 0,
    }
}

impl Order {
    pub fn empty() -> (r: Order)
        ensures
            r == spec_empty_order(),
    {
        Order {
            exchange_order_id: 0,
            client_order_id: 0,
            replace_target_client_order_id: 0,
            account_id: 0,
            instrument_id: 0,
            command_kind: 0,
            side: 0,
            price: 0,
            quantity: 0,
            remaining: 0,
            next: 0,
            prev: 0,
            sequence_number: 0,
            client_timestamp: 0,
        }
    }
}

impl Default for Order {
    fn default() -> (r: Order)
        ensures
            r == spec_empty_order(),
    {
        Order::empty()
    }
}

/// The record an admitted command is stored as.
pub open spec fn spec_order_from_command(
    command: OrderCommand,
    exchange_order_id: u64,
    sequence: u64,
) -> Order {
    match command {
        OrderCommand::New(o) => Order {
            exchange_order_id,
            client_order_id: o.client_order_id.0,
            replace_target_client_order_id: 0,
            account_id: o.account_id,
            instrument_id: o.instrument_id,
            command_kind: CommandKind::New.spec_tag(),
            side: spec_side_wire(o.side),
            price: o.price,
            quantity: o.quantity,
            remaining: o.quantity,
            next: 0,
            prev: 0,
            sequence_number: sequence,
            client_timestamp: o.client_timestamp,
        },
        OrderCommand::Cancel(o) => Order {
            exchange_order_id,
            client_order_id: o.client_order_id.0,
            replace_target_client_order_id: 0,
            account_id: o.account_id,
            instrument_id: o.instrument_id,
            command_kind: CommandKind::Cancel.spec_tag(),
            side: 2,
            price: 0,
            quantity: 0,
            remaining: 0,
            next: 0,
            prev: 0,
            sequence_number: sequence,
            client_timestamp: 0,
        },
        OrderCommand::Replace(o) => Order {
            exchange_order_id,
            client_order_id: o.new_client_order_id.0,
            replace_target_client_order_id: o.target_client_order_id.0,
            account_id: o.account_id,
            instrument_id: o.instrument_id,
            command_kind: CommandKind::Replace.spec_tag(),
            side: spec_side_wire(o.side),
            price: o.price,
            quantity: o.quantity,
            remaining: o.quantity,
            next: 0,
            prev: 0,
            sequence_number: sequence,
            client_timestamp: o.client_timestamp,
        },
    }
}

#[derive(Debug, Clone, Copy, PartialEq, Eq, Structural)]
pub enum PoolError {
    Exhausted,
}

/// Prepending a slot that is not yet free keeps the free list duplicate-free.
proof fn lemma_prepend_free(fl: Seq<u32>, idx: u32)
    requires
        fl.no_duplicates(),
        !fl.contains(idx),
    ensures
        (seq![idx] + fl).no_duplicates(),
        forall|k: int| 0 < k < fl.len() + 1 ==> #[trigger] (seq![idx] + fl)[k] == fl[k - 1],
        (seq![idx] + fl)[0] == idx,
{
    let s = seq![idx] + fl;
    assert forall|a: int, b: int| 0 <= a < s.len() && 0 <= b < s.len() && a != b implies s[a] != s[b] by {
        if a > 0 && b > 0 {
            assert(s[a] == fl[a - 1]);
            assert(s[b] == fl[b - 1]);
        } else if a == 0 {
            assert(s[b] == fl[b - 1]);
        } else {
            assert(s[a] == fl[a - 1]);
        }
    }
}

/// Prepending `idx`, whose record now links to the old head, keeps the
/// free chain linked.
proof fn lemma_free_chain_after_prepend(fl: Seq<u32>, old_data: Seq<Order>, data: Seq<Order>, idx: u32)
    requires
        fl.no_duplicates(),
        !fl.contains(idx),
        1 <= idx < old_data.len(),
        data.len() == old_data.len(),
        forall|i: int| 0 <= i < fl.len() ==> 1 <= #[trigger] fl[i] < old_data.len(),
        forall|i: int| 0 <= i < data.len() && i != idx ==> data[i] == old_data[i],
        data[idx as int].next == (if fl.len() == 0 { FREE_LIST_END } else { fl[0] }),
        forall|i: int|
            0 <= i < fl.len() ==> old_data[#[trigger] fl[i] as int].next == (if i + 1 < fl.len() {
                fl[i + 1]
            } else {
                FREE_LIST_END
            }),
    ensures
        forall|i: int|
            0 <= i < (seq![idx] + fl).len() ==> data[#[trigger] (seq![idx] + fl)[i] as int].next == (if i + 1 < (seq![idx] + fl).len() {
                (seq![idx] + fl)[i + 1]
            } else {
                FREE_LIST_END
            }),
{
    let s = seq![idx] + fl;
    assert forall|i: int| 0 <= i < s.len() implies data[#[trigger] s[i] as int].next == (if i + 1 < s.len() {
        s[i + 1]
    } else {
        FREE_LIST_END
    }) by {
        if i > 0 {
            assert(s[i] == fl[i - 1]);
            assert(fl[i - 1] != idx);
            if i + 1 < s.len() {
                assert(s[i + 1] == fl[i]);
            }
        } else if s.len() > 1 {
            assert(s[1] == fl[0]);
        }
    }
}

/// A duplicate-free list of non-sentinel slots is no longer than the
/// number of such slots.
pub proof fn lemma_slot_list_len(s: Seq<u32>)
    requires
        s.no_duplicates(),
        forall|i: int| 0 <= i < s.len() ==> 1 <= #[trigger] s[i] < MAX_ORDERS,
    ensures
        s.len() <= MAX_ORDERS - 1,
{
    let m = s.map_values(|x: u32| x as int);
    assert forall|a: int, b: int| 0 <= a < m.len() && 0 <= b < m.len() && a != b implies m[a] != m[b] by {
        assert(s[a] != s[b]);
    }
    m.unique_seq_to_set();
    let r = set_int_range(1, MAX_ORDERS as int);
    lemma_int_range(1, MAX_ORDERS as int);
    assert forall|x: int| m.to_set().contains(x) implies r.contains(x) by {
        let k = choose|k: int| 0 <= k < m.len() && m[k] == x;
        assert(1 <= s[k] < MAX_ORDERS);
    }
    lemma_len_subset(m.to_set(), r);
}

/// A duplicate-free list of slots that misses at least one slot is shorter
/// than the number of slots.
proof fn lemma_free_list_len(fl: Seq<u32>, idx: u32)
    requires
        fl.no_duplicates(),
        forall|i: int| 0 <= i < fl.len() ==> 1 <= #[trigger] fl[i] < MAX_ORDERS,
        1 <= idx < MAX_ORDERS,
        !fl.contains(idx),
    ensures
        fl.len() < MAX_ORDERS - 1,
{
    let m = fl.map_values(|x: u32| x as int);
    assert forall|a: int, b: int| 0 <= a < m.len() && 0 <= b < m.len() && a != b implies m[a] != m[b] by {
        assert(fl[a] != fl[b]);
    }
    m.unique_seq_to_set();
    let r = set_int_range(1, MAX_ORDERS as int).remove(idx as int);
    lemma_int_range(1, MAX_ORDERS as int);
    assert forall|x: int| m.to_set().contains(x) implies r.contains(x) by {
        let k = choose|k: int| 0 <= k < m.len() && m[k] == x;
        assert(fl[k] != idx);
    }
    lemma_len_subset(m.to_set(), r);
}

/// Fixed-capacity order slab. Slot 0 is the null sentinel and is never
/// handed out; free slots are chained through `next` from `free_head`,
/// most recently freed first.
pub struct OrderPool {
    pub data: Vec<Order>,
    pub free_head: u32,
    pub allocated_count: u32,
    /// The free slots in chain order.
    pub free_list: Ghost<Seq<u32>>,
}

impl OrderPool {
    /// The pool's structural invariant.
    pub open spec fn wf(&self) -> bool {
        let fl = self.free_list@;
        &&& self.data@.len() == MAX_ORDERS
        &&& fl.no_duplicates()
        &&& forall|i: int| 0 <= i < fl.len() ==> 1 <= #[trigger] fl[i] < MAX_ORDERS
        &&& self.free_head == (if fl.len() == 0 { FREE_LIST_END } else { fl[0] })
        &&& forall|i: int|
            0 <= i < fl.len() ==> self.data@[#[trigger] fl[i] as int].next == (if i + 1 < fl.len() {
                fl[i + 1]
            } else {
                FREE_LIST_END
            })
        &&& self.allocated_count + fl.len() == MAX_ORDERS - 1
    }

    /// A slot that has been handed out and not given back.
    pub open spec fn is_allocated(&self, idx: u32) -> bool {
        1 <= idx < MAX_ORDERS && !self.free_list@.contains(idx)
    }

    /// Creates a pool with every slot but the sentinel free, chained in
    /// increasing index order.
    pub fn new() -> (pool: OrderPool)
        ensures
            pool.wf(),
            pool.allocated_count == 0,
            pool.free_head == 1,
            pool.free_list@ == Seq::new((MAX_ORDERS - 1) as nat, |j: int| (j + 1) as u32),
            forall|i: int| 0 <= i < MAX_ORDERS ==> (#[trigger] pool.data@[i]).remaining == 0,
    {
        let mut data: Vec<Order> = Vec::with_capacity(MAX_ORDERS);
        let mut i: usize = 0;
        while i < MAX_ORDERS
            invariant
                i <= MAX_ORDERS,
                data@.len() == i,
                forall|k: int|
                    0 <= k < i ==> #[trigger] data@[k] == (Order {
                        next: if k == 0 {
                            0u32
                        } else if k == MAX_ORDERS - 1 {
                            FREE_LIST_END
                        } else {
                            (k + 1) as u32
                        },
                        ..spec_empty_order()
                    }),
            decreases MAX_ORDERS - i,
        {
            let mut order = Order::empty();
            order.next = if i == 0 {
                0
            } else if i == MAX_ORDERS - 1 {
                FREE_LIST_END
            } else {
                (i + 1) as u32
            };
            data.push(order);
            i = i + 1;
        }
        let ghost fl = Seq::new((MAX_ORDERS - 1) as nat, |j: int| (j + 1) as u32);
        let pool = OrderPool { data, free_head: 1, allocated_count: 0, free_list: Ghost(fl) };
        proof {
            assert forall|a: int, b: int| 0 <= a < fl.len() && 0 <= b < fl.len() && a != b implies fl[a] != fl[b] by {}
            assert forall|k: int| 0 <= k < fl.len() implies pool.data@[#[trigger] fl[k] as int].next == (if k + 1 < fl.len() {
                fl[k + 1]
            } else {
                FREE_LIST_END
            }) by {
                assert(fl[k] == k + 1);
            }
        }
        pool
    }

    /// Takes the most recently freed slot, resets it to the empty record,
    /// and counts it as allocated. Fails, changing nothing, when no slot is free.
    /// A pool whose free-list head is the end marker is exhausted whatever
    /// else it holds, and is refused without a change.
    pub fn allocate(&mut self) -> (r: Result<u32, PoolError>)
        requires
            old(self).wf() || old(self).free_head == FREE_LIST_END,
        ensures
            old(self).wf() ==> final(self).wf(),
            old(self).free_head == FREE_LIST_END ==> r == Err::<u32, PoolError>(PoolError::Exhausted) && *final(self) == *old(self),
            match r {
                Ok(idx) => {
                    &&& old(self).free_list@.len() > 0
                    &&& idx == old(self).free_head
                    &&& idx == old(self).free_list@[0]
                    &&& final(self).free_list@ == old(self).free_list@.drop_first()
                    &&& final(self).data@ == old(self).data@.update(idx as int, spec_empty_order())
                    &&& final(self).allocated_count == old(self).allocated_count + 1
                    &&& final(self).is_allocated(idx)
                },
                Err(e) => {
                    &&& e == PoolError::Exhausted
                    &&& old(self).free_head == FREE_LIST_END
                    &&& *final(self) == *old(self)
                },
            },
    {
        let idx = self.free_head;
        if idx == FREE_LIST_END {
            return Err(PoolError::Exhausted);
        }
        let ghost old_fl = self.free_list@;
        proof {
            assert(old_fl[0] == idx);
        }
        self.free_head = self.data[idx as usize].next;
        self.data.set(idx as usize, Order::empty());
        self.allocated_count = self.allocated_count + 1;
        self.free_list = Ghost(old_fl.drop_first());
        proof {
            let fl = self.free_list@;
            assert forall|k: int| 0 <= k < fl.len() implies self.data@[#[trigger] fl[k] as int].next == (if k + 1 < fl.len() {
                fl[k + 1]
            } else {
                FREE_LIST_END
            }) by {
                assert(fl[k] == old_fl[k + 1]);
                assert(old_fl[k + 1] != old_fl[0]);
            }
            assert(!fl.contains(idx)) by {
                if fl.contains(idx) {
                    let k = choose|k: int| 0 <= k < fl.len() && fl[k] == idx;
                    assert(old_fl[k + 1] == old_fl[0]);
                }
            }
        }
        Ok(idx)
    }

    /// Stores an admitted command in a fresh slot. Fails, changing nothing,
    /// when no slot is free.
    pub fn allocate_from_command(
        &mut self,
        command: &OrderCommand,
        exchange_order_id: ExchangeOrderId,
        sequence: SequenceNumber,
    ) -> (r: Result<u32, PoolError>)
        requires
            old(self).wf(),
        ensures
            final(self).wf(),
            match r {
                Ok(idx) => {
                    &&& old(self).free_list@.len() > 0
                    &&& idx == old(self).free_head
                    &&& final(self).free_list@ == old(self).free_list@.drop_first()
                    &&& final(self).data@ == old(self).data@.update(
                        idx as int,
                        spec_order_from_command(*command, exchange_order_id.0, sequence.0),
                    )
                    &&& final(self).allocated_count == old(self).allocated_count + 1
                    &&& final(self).is_allocated(idx)
                },
                Err(e) => {
                    &&& e == PoolError::Exhausted
                    &&& old(self).free_head == FREE_LIST_END
                    &&& *final(self) == *old(self)
                },
            },
    {
        let idx = match self.allocate() {
            Ok(idx) => idx,
            Err(e) => return Err(e),
        };
        let mut order = Order::empty();
        order.exchange_order_id = exchange_order_id.0;
        order.sequence_number = sequence.0;
        match *command {
            OrderCommand::New(o) => {
                order.client_order_id = o.client_order_id.0;
                order.account_id = o.account_id;
                order.instrument_id = o.instrument_id;
                order.command_kind = CommandKind::New.tag();
                order.side = o.side.wire_value();
                order.price = o.price;
                order.quantity = o.quantity;
                order.remaining = o.quantity;
                order.client_timestamp = o.client_timestamp;
            },
            OrderCommand::Cancel(o) => {
                order.client_order_id = o.client_order_id.0;
                order.account_id = o.account_id;
                order.instrument_id = o.instrument_id;
                order.command_kind = CommandKind::Cancel.tag();
                order.side = 2;
            },
            OrderCommand::Replace(o) => {
                order.client_order_id = o.new_client_order_id.0;
                order.replace_target_client_order_id = o.target_client_order_id.0;
                order.account_id = o.account_id;
                order.instrument_id = o.instrument_id;
                order.command_kind = CommandKind::Replace.tag();
                order.side = o.side.wire_value();
                order.price = o.price;
                order.quantity = o.quantity;
                order.remaining = o.quantity;
                order.client_timestamp = o.client_timestamp;
            },
        }
        self.data.set(idx as usize, order);
        proof {
            let fl = self.free_list@;
            assert forall|k: int| 0 <= k < fl.len() implies self.data@[#[trigger] fl[k] as int].next == (if k + 1 < fl.len() {
                fl[k + 1]
            } else {
                FREE_LIST_END
            }) by {
                assert(fl[k] != idx) by {
                    assert(fl.contains(fl[k]));
                }
            }
        }
        Ok(idx)
    }

    /// Gives a slot back to the front of the free list. The null sentinel
    /// is ignored.
    pub fn deallocate(&mut self, idx: u32)
        requires
            old(self).wf(),
            idx == 0 || old(self).is_allocated(idx),
        ensures
            final(self).wf(),
            idx == 0 ==> *final(self) == *old(self),
            idx != 0 ==> {
                &&& final(self).free_list@ == seq![idx] + old(self).free_list@
                &&& final(self).free_head == idx
                &&& final(self).data@ == old(self).data@.update(
                    idx as int,
                    Order { next: old(self).free_head, ..old(self).data@[idx as int] },
                )
                &&& final(self).allocated_count == old(self).allocated_count - 1
            },
    {
        if idx != 0 {
            let ghost old_fl = self.free_list@;
            let ghost old_data = self.data@;
            let mut order = self.data[idx as usize];
            order.next = self.free_head;
            self.data.set(idx as usize, order);
            self.free_head = idx;
            self.free_list = Ghost(seq![idx] + old_fl);
            proof {
                lemma_free_list_len(old_fl, idx);
            }
            self.allocated_count = self.allocated_count - 1;
            proof {
                lemma_prepend_free(old_fl, idx);
                lemma_free_chain_after_prepend(old_fl, old_data, self.data@, idx);
            }
        }
    }

    /// Overwrites an allocated record; the free list is untouched.
    pub fn set_order(&mut self, idx: u32, order: Order)
        requires
            old(self).wf(),
            old(self).is_allocated(idx),
        ensures
            final(self).wf(),
            final(self).free_list@ == old(self).free_list@,
            final(self).free_head == old(self).free_head,
            final(self).allocated_count == old(self).allocated_count,
            final(self).data@ == old(self).data@.update(idx as int, order),
    {
        self.data.set(idx as usize, order);
        proof {
            let fl = self.free_list@;
            assert forall|k: int| 0 <= k < fl.len() implies self.data@[#[trigger] fl[k] as int].next == (if k + 1 < fl.len() {
                fl[k + 1]
            } else {
                FREE_LIST_END
            }) by {
                assert(fl[k] != idx) by {
                    assert(fl.contains(fl[k]));
                }
            }
        }
    }

    /// Zeroes the remaining quantity of a record, leaving its links alone.
    pub fn clear_remaining(&mut self, idx: u32)
        requires
            old(self).wf(),
            1 <= idx < MAX_ORDERS,
        ensures
            final(self).wf(),
            final(self).free_list@ == old(self).free_list@,
            final(self).free_head == old(self).free_head,
            final(self).allocated_count == old(self).allocated_count,
            final(self).data@ == old(self).data@.update(idx as int, Order { remaining: 0, ..old(self).data@[idx as int] }),
    {
        let mut o = self.data[idx as usize];
        o.remaining = 0;
        self.data.set(idx as usize, o);
    }

    pub fn get(&self, idx: u32) -> (r: &Order)
        requires
            idx < self.data@.len(),
        ensures
            *r == self.data@[idx as int],
    {
        &self.data[idx as usize]
    }

    /// The record in slot `idx`, for writing. Whatever is written through
    /// the reference lands in that slot; nothing else changes.
    pub fn get_mut(&mut self, idx: u32) -> (r: &mut Order)
        requires
            idx < old(self).data@.len(),
        ensures
            *r == old(self).data@[idx as int],
            final(self).data@ == old(self).data@.update(idx as int, *final(r)),
            final(self).free_head == old(self).free_head,
            final(self).free_list == old(self).free_list,
            final(self).allocated_count == old(self).allocated_count,
    {
        &mut self.data[idx as usize]
    }
}

} // verus!
