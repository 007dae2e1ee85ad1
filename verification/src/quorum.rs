//! Generation-fenced replication log and majority commit tracking.

use vstd::prelude::*;
use crate::command::OrderCommand;

verus! {

#[derive(Debug, Clone, Copy, PartialEq, Eq, Structural, PartialOrd, Ord)]
pub struct CommitIndex(pub u64);

#[derive(Debug, Clone, Copy, PartialEq, Eq, Structural)]
pub struct ReplicatedEntry {
    pub index: CommitIndex,
    pub generation: u64,
    pub command: OrderCommand,
}

#[derive(Debug, Clone, Copy, PartialEq, Eq, Structural)]
pub enum QuorumError {
    InvalidClusterSize,
    StaleGeneration,
    OutOfOrder { expected: CommitIndex, received: CommitIndex },
    DuplicateAck,
}

/// Entries of one leader generation, numbered from 1 without gaps.
#[derive(Debug)]
pub struct ReplicationLog {
    generation: u64,
    next_index: u64,
    entries: Vec<ReplicatedEntry>,
}

impl View for ReplicationLog {
    type V = Seq<ReplicatedEntry>;

    closed spec fn view(&self) -> Seq<ReplicatedEntry> {
        self.entries@
    }
}

impl ReplicationLog {
    pub closed spec fn spec_generation(&self) -> u64 {
        self.generation
    }

    /// Entry `i` carries index `i + 1` and the log's generation, and the
    /// next index follows the last entry.
    pub closed spec fn wf(&self) -> bool {
        &&& self.next_index == self.entries@.len() + 1
        &&& forall|i: int| 0 <= i < self.entries@.len() ==> (#[trigger] self.entries@[i]).index.0 == i + 1
            && self.entries@[i].generation == self.generation
    }

    pub fn new(generation: u64) -> (r: ReplicationLog)
        ensures
            r.wf(),
            r@.len() == 0,
            r.spec_generation() == generation,
    {
        ReplicationLog { generation, next_index: 1, entries: Vec::new() }
    }

    pub fn generation(&self) -> (r: u64)
        ensures
            r == self.spec_generation(),
    {
        self.generation
    }

    pub fn len(&self) -> (r: usize)
        ensures
            r == self@.len(),
    {
        self.entries.len()
    }

    /// Index of the last entry, 0 when the log is empty.
    pub fn last_index(&self) -> (r: CommitIndex)
        requires
            self.wf(),
        ensures
            r.0 == self@.len(),
    {
        CommitIndex(if self.next_index > 0 { self.next_index - 1 } else { 0 })
    }

    /// Appends a command under the log's generation; a different
    /// generation is fenced off.
    pub fn append(&mut self, generation: u64, command: OrderCommand) -> (r: Result<ReplicatedEntry, QuorumError>)
        requires
            old(self).wf(),
            old(self)@.len() + 1 < u64::MAX,
        ensures
            final(self).wf(),
            final(self).spec_generation() == old(self).spec_generation(),
            generation != old(self).spec_generation() ==> r == Err::<ReplicatedEntry, QuorumError>(QuorumError::StaleGeneration)
                && final(self)@ == old(self)@,
            generation == old(self).spec_generation() ==> {
                let e = ReplicatedEntry { index: CommitIndex((old(self)@.len() + 1) as u64), generation, command };
                &&& r == Ok::<ReplicatedEntry, QuorumError>(e)
                &&& final(self)@ == old(self)@.push(e)
            },
    {
        if generation != self.generation {
            return Err(QuorumError::StaleGeneration);
        }
        let entry = ReplicatedEntry { index: CommitIndex(self.next_index), generation, command };
        self.next_index = self.next_index + 1;
        self.entries.push(entry);
        Ok(entry)
    }

    /// The entry with commit index `index`, if the log has one.
    pub fn get(&self, index: CommitIndex) -> (r: Option<ReplicatedEntry>)
        requires
            self.wf(),
        ensures
            r == (if 1 <= index.0 <= self@.len() { Some(self@[index.0 - 1]) } else { None::<ReplicatedEntry> }),
    {
        if index.0 == 0 {
            return None;
        }
        let i = index.0 - 1;
        if i < self.entries.len() as u64 {
            Some(self.entries[i as usize])
        } else {
            None
        }
    }
}

/// A log reads back what was appended to it: the entry an append returns
/// is found again under its own index.
pub proof fn lemma_append_then_get(log: Seq<ReplicatedEntry>, generation: u64, command: OrderCommand)
    requires
        log.len() + 1 < u64::MAX,
    ensures
        ({
            let e = ReplicatedEntry { index: CommitIndex((log.len() + 1) as u64), generation, command };
            let l2 = log.push(e);
            1 <= e.index.0 <= l2.len() && l2[e.index.0 - 1] == e
        }),
{
}

/// Number of replicas that have acknowledged.
pub open spec fn count_acks(s: Seq<bool>) -> nat
    decreases s.len(),
{
    if s.len() == 0 { 0 } else { count_acks(s.drop_last()) + if s.last() { 1nat } else { 0nat } }
}

/// Majority commit tracking for one index at a time.
#[derive(Debug)]
pub struct QuorumTracker {
    cluster_size: usize,
    committed: CommitIndex,
    acked: Vec<bool>,
    generation: u64,
}

/// What a tracker is: cluster size, last committed index, which replicas
/// acknowledged the next index, and the generation.
pub struct QuorumView {
    pub cluster_size: nat,
    pub committed: u64,
    pub acked: Seq<bool>,
    pub generation: u64,
}

impl View for QuorumTracker {
    type V = QuorumView;

    closed spec fn view(&self) -> QuorumView {
        QuorumView {
            cluster_size: self.cluster_size as nat,
            committed: self.committed.0,
            acked: self.acked@,
            generation: self.generation,
        }
    }
}

/// Strict majority of a cluster of `n`.
pub open spec fn spec_quorum(n: nat) -> nat {
    n / 2 + 1
}

pub proof fn lemma_count_acks_bound(s: Seq<bool>)
    ensures
        count_acks(s) <= s.len(),
    decreases s.len(),
{
    if s.len() > 0 {
        lemma_count_acks_bound(s.drop_last());
    }
}

pub proof fn lemma_count_acks_set(s: Seq<bool>, i: int)
    requires
        0 <= i < s.len(),
        !s[i],
    ensures
        count_acks(s.update(i, true)) == count_acks(s) + 1,
    decreases s.len(),
{
    if i == s.len() - 1 {
        assert(s.update(i, true).drop_last() =~= s.drop_last());
    } else {
        lemma_count_acks_set(s.drop_last(), i);
        assert(s.update(i, true).drop_last() =~= s.drop_last().update(i, true));
    }
}

pub proof fn lemma_count_acks_none(s: Seq<bool>)
    requires
        forall|i: int| 0 <= i < s.len() ==> !s[i],
    ensures
        count_acks(s) == 0,
    decreases s.len(),
{
    if s.len() > 0 {
        lemma_count_acks_none(s.drop_last());
    }
}

impl QuorumTracker {
    pub closed spec fn wf(&self) -> bool {
        &&& self.cluster_size % 2 == 1
        &&& self.acked@.len() == self.cluster_size
    }

    /// A tracker for an odd, non-empty cluster; even sizes are refused.
    pub fn new(cluster_size: usize, generation: u64) -> (r: Result<QuorumTracker, QuorumError>)
        ensures
            (cluster_size == 0 || cluster_size % 2 == 0) ==> r == Err::<QuorumTracker, QuorumError>(QuorumError::InvalidClusterSize),
            !(cluster_size == 0 || cluster_size % 2 == 0) ==> (r matches Ok(t) && t.wf() && t@.cluster_size == cluster_size
                && t@.acked.len() == cluster_size
                && t@.committed == 0 && t@.generation == generation && count_acks(t@.acked) == 0
                && (forall|i: int| 0 <= i < t@.acked.len() ==> !t@.acked[i])),
    {
        if cluster_size == 0 || cluster_size % 2 == 0 {
            return Err(QuorumError::InvalidClusterSize);
        }
        let mut acked: Vec<bool> = Vec::with_capacity(cluster_size);
        let mut i: usize = 0;
        while i < cluster_size
            invariant
                i <= cluster_size,
                acked@.len() == i,
                forall|k: int| 0 <= k < i ==> !acked@[k],
            decreases cluster_size - i,
        {
            acked.push(false);
            i = i + 1;
        }
        proof {
            lemma_count_acks_none(acked@);
        }
        Ok(QuorumTracker { cluster_size, committed: CommitIndex(0), acked, generation })
    }

    pub fn quorum(&self) -> (r: usize)
        ensures
            r == spec_quorum(self@.cluster_size),
    {
        self.cluster_size / 2 + 1
    }

    pub fn committed(&self) -> (r: CommitIndex)
        ensures
            r.0 == self@.committed,
    {
        self.committed
    }

    fn acked_count(&self) -> (r: usize)
        requires
            self.wf(),
        ensures
            r == count_acks(self@.acked),
    {
        let mut n: usize = 0;
        let mut i: usize = 0;
        while i < self.acked.len()
            invariant
                i <= self.acked@.len(),
                n == count_acks(self.acked@.take(i as int)),
                n <= i,
            decreases self.acked@.len() - i,
        {
            proof {
                assert(self.acked@.take(i + 1).drop_last() =~= self.acked@.take(i as int));
            }
            if self.acked[i] {
                n = n + 1;
            }
            i = i + 1;
        }
        proof {
            assert(self.acked@.take(i as int) =~= self.acked@);
        }
        n
    }

    /// Records replica `replica`'s acknowledgement of `index`, the index
    /// after the committed one. Commits it, and starts over for the next
    /// index, once a strict majority of distinct replicas acknowledged.
    pub fn ack(&mut self, generation: u64, index: CommitIndex, replica: usize) -> (r: Result<bool, QuorumError>)
        requires
            old(self).wf(),
            old(self)@.committed < u64::MAX,
        ensures
            final(self).wf(),
            final(self)@.cluster_size == old(self)@.cluster_size,
            final(self)@.generation == old(self)@.generation,
            final(self)@.acked.len() == old(self)@.acked.len(),
            ({
                let o = old(self)@;
                if generation != o.generation {
                    r == Err::<bool, QuorumError>(QuorumError::StaleGeneration) && final(self)@ == o
                } else if index.0 != o.committed + 1 {
                    r == Err::<bool, QuorumError>(QuorumError::OutOfOrder { expected: CommitIndex((o.committed + 1) as u64), received: index })
                        && final(self)@ == o
                } else if replica >= o.cluster_size || o.acked[replica as int] {
                    r == Err::<bool, QuorumError>(QuorumError::DuplicateAck) && final(self)@ == o
                } else if count_acks(o.acked.update(replica as int, true)) >= spec_quorum(o.cluster_size) {
                    &&& r == Ok::<bool, QuorumError>(true)
                    &&& final(self)@.committed == index.0
                    &&& final(self)@.acked.len() == o.acked.len()
                    &&& forall|i: int| 0 <= i < o.acked.len() ==> !final(self)@.acked[i]
                } else {
                    &&& r == Ok::<bool, QuorumError>(false)
                    &&& final(self)@ == (QuorumView { acked: o.acked.update(replica as int, true), ..o })
                }
            }),
    {
        if generation != self.generation {
            return Err(QuorumError::StaleGeneration);
        }
        if index.0 != self.committed.0 + 1 {
            return Err(QuorumError::OutOfOrder { expected: CommitIndex(self.committed.0 + 1), received: index });
        }
        if replica >= self.cluster_size || self.acked[replica] {
            return Err(QuorumError::DuplicateAck);
        }
        self.acked.set(replica, true);
        if self.acked_count() >= self.quorum() {
            self.committed = index;
            let n = self.acked.len();
            let mut i: usize = 0;
            while i < n
                invariant
                    i <= n,
                    n == self.acked@.len(),
                    n == self.cluster_size,
                    self.cluster_size == old(self).cluster_size,
                    self.generation == old(self).generation,
                    self.committed == index,
                    forall|k: int| 0 <= k < i ==> !self.acked@[k],
                decreases n - i,
            {
                self.acked.set(i, false);
                i = i + 1;
            }
            return Ok(true);
        }
        Ok(false)
    }
}

/// Acknowledging never counts a replica twice: an accepted acknowledgement
/// raises the count of distinct acknowledgers by exactly one, and a second
/// one from the same replica is refused.
pub proof fn lemma_ack_counts_once(acked: Seq<bool>, replica: int)
    requires
        0 <= replica < acked.len(),
        !acked[replica],
    ensures
        count_acks(acked.update(replica, true)) == count_acks(acked) + 1,
        acked.update(replica, true)[replica],
{
    lemma_count_acks_set(acked, replica);
}

/// A commit needs a strict majority: two disjoint sets of acknowledgers
/// cannot both reach the quorum of the same cluster.
pub proof fn lemma_quorums_intersect(n: nat, a: nat, b: nat)
    requires
        a >= spec_quorum(n),
        b >= spec_quorum(n),
    ensures
        a + b > n,
{
}

} // verus!
