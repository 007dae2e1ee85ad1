//! Raft-style consensus core: term fencing, elections decided by a
//! majority of votes, log replication with conflict repair, and commits
//! of current-term entries replicated on a majority.

use vstd::prelude::*;
use std::collections::{BTreeMap, BTreeSet};
use crate::command::OrderCommand;
use vstd::std_specs::iter::IteratorSpec;

verus! {

broadcast use {vstd::std_specs::btree::group_btree_axioms, vstd::laws_cmp::group_laws_cmp, vstd::set::group_set_axioms};

#[derive(Debug, Clone, Copy, PartialEq, Eq, Structural, PartialOrd, Ord)]
pub struct NodeId(pub u64);

#[derive(Debug, Clone, Copy, PartialEq, Eq, Structural, PartialOrd, Ord, Default)]
pub struct Term(pub u64);

#[derive(Debug, Clone, Copy, PartialEq, Eq, Structural, PartialOrd, Ord, Default)]
pub struct LogIndex(pub u64);

#[derive(Debug, Clone, Copy, PartialEq, Eq, Structural)]
pub enum Role {
    Follower,
    Candidate,
    Leader,
}

#[derive(Debug, Clone, Copy, PartialEq, Eq, Structural)]
pub struct LogEntry {
    pub index: LogIndex,
    pub term: Term,
    pub command: OrderCommand,
}

#[derive(Debug, Clone, Copy, PartialEq, Eq, Structural)]
pub struct RequestVote {
    pub term: Term,
    pub candidate_id: NodeId,
    pub last_log_index: LogIndex,
    pub last_log_term: Term,
}

#[derive(Debug, Clone, Copy, PartialEq, Eq, Structural)]
pub struct VoteResponse {
    pub term: Term,
    pub voter_id: NodeId,
    pub granted: bool,
}

#[derive(Debug, Clone, PartialEq, Eq)]
pub struct AppendEntries {
    pub term: Term,
    pub leader_id: NodeId,
    pub prev_log_index: LogIndex,
    pub prev_log_term: Term,
    pub entries: Vec<LogEntry>,
    pub leader_commit: LogIndex,
}

#[derive(Debug, Clone, Copy, PartialEq, Eq, Structural)]
pub struct AppendResponse {
    pub term: Term,
    pub follower_id: NodeId,
    pub success: bool,
    pub match_index: LogIndex,
}

#[derive(Debug, Clone, PartialEq, Eq)]
pub enum RaftAction {
    RequestVote { to: NodeId, request: RequestVote },
    AppendEntries { to: NodeId, request: AppendEntries },
}

#[derive(Debug, Clone, Copy, PartialEq, Eq, Structural)]
pub enum ConsensusError {
    InvalidMembership,
    NotLeader { leader: Option<NodeId> },
    StaleTerm,
    InvalidAppend,
}

/// One consensus participant. Peers are tracked by the number inside their
/// `NodeId`.
#[derive(Debug)]
pub struct RaftNode {
    id: NodeId,
    members: Vec<NodeId>,
    current_term: Term,
    voted_for: Option<NodeId>,
    role: Role,
    leader_id: Option<NodeId>,
    log: Vec<LogEntry>,
    commit_index: LogIndex,
    last_applied: LogIndex,
    next_index: BTreeMap<u64, u64>,
    match_index: BTreeMap<u64, u64>,
    votes_received: BTreeSet<u64>,
    election_elapsed: u64,
    election_timeout: u64,
    heartbeat_elapsed: u64,
    heartbeat_interval: u64,
}

/// What a node is.
pub struct RaftView {
    pub id: NodeId,
    pub members: Seq<NodeId>,
    pub term: u64,
    pub voted_for: Option<NodeId>,
    pub role: Role,
    pub leader_id: Option<NodeId>,
    pub log: Seq<LogEntry>,
    pub commit_index: u64,
    pub last_applied: u64,
    pub next_index: Map<u64, u64>,
    pub match_index: Map<u64, u64>,
    pub votes: Set<u64>,
    pub election_elapsed: u64,
    pub election_timeout: u64,
    pub heartbeat_elapsed: u64,
    pub heartbeat_interval: u64,
}

impl View for RaftNode {
    type V = RaftView;

    closed spec fn view(&self) -> RaftView {
        RaftView {
            id: self.id,
            members: self.members@,
            term: self.current_term.0,
            voted_for: self.voted_for,
            role: self.role,
            leader_id: self.leader_id,
            log: self.log@,
            commit_index: self.commit_index.0,
            last_applied: self.last_applied.0,
            next_index: self.next_index@,
            match_index: self.match_index@,
            votes: self.votes_received@,
            election_elapsed: self.election_elapsed,
            election_timeout: self.election_timeout,
            heartbeat_elapsed: self.heartbeat_elapsed,
            heartbeat_interval: self.heartbeat_interval,
        }
    }
}

/// A leader only ever points a peer at an entry it has, or just past its
/// log.
pub open spec fn raft_wf(s: RaftView) -> bool {
    s.role == Role::Leader ==> forall|p: u64| #[trigger] s.next_index.contains_key(p) ==> 1 <= s.next_index[p] <= s.log.len() + 1
}

/// Node ids strictly increasing.
pub open spec fn strictly_increasing(s: Seq<NodeId>) -> bool {
    forall|i: int, j: int| 0 <= i < j < s.len() ==> s[i].0 < s[j].0
}

/// The members other than `id`, in order.
pub open spec fn peers(ms: Seq<NodeId>, id: NodeId) -> Seq<NodeId>
    decreases ms.len(),
{
    if ms.len() == 0 {
        Seq::empty()
    } else if ms.last() != id {
        peers(ms.drop_last(), id).push(ms.last())
    } else {
        peers(ms.drop_last(), id)
    }
}

/// Votes needed to win: more than half the members.
pub open spec fn majority_of(s: RaftView) -> nat {
    s.members.len() / 2 + 1
}

/// Term of the last log entry, 0 for an empty log.
pub open spec fn last_term(s: RaftView) -> u64 {
    if s.log.len() == 0 { 0 } else { s.log.last().term.0 }
}

pub open spec fn sat_inc(x: u64) -> u64 {
    if x == u64::MAX { x } else { (x + 1) as u64 }
}

/// Stepping down to follower in `term` under `leader`: the vote, the
/// tally and both timers are reset.
pub open spec fn become_follower(s: RaftView, term: u64, leader: Option<NodeId>) -> RaftView {
    RaftView {
        term,
        role: Role::Follower,
        voted_for: None,
        leader_id: leader,
        votes: Set::empty(),
        election_elapsed: 0,
        heartbeat_elapsed: 0,
        ..s
    }
}

/// Entries a peer still needs: those whose index is at least `next`.
pub open spec fn entries_from(log: Seq<LogEntry>, next: u64) -> Seq<LogEntry>
    decreases log.len(),
{
    if log.len() == 0 {
        Seq::empty()
    } else if log.last().index.0 >= next {
        entries_from(log.drop_last(), next).push(log.last())
    } else {
        entries_from(log.drop_last(), next)
    }
}

/// Where a leader next sends to a peer: its recorded next index, 1 if none.
pub open spec fn next_for(s: RaftView, peer: NodeId) -> u64 {
    if s.next_index.contains_key(peer.0) { s.next_index[peer.0] } else { 1 }
}

/// The append request a leader sends a peer: the entries from the peer's
/// next index on, after the entry just before it and its term.
pub open spec fn append_for(s: RaftView, peer: NodeId, r: AppendEntries) -> bool {
    let next = next_for(s, peer);
    let prev: u64 = if next == 0 { 0 } else { (next - 1) as u64 };
    &&& r.term == Term(s.term)
    &&& r.leader_id == s.id
    &&& r.prev_log_index == LogIndex(prev)
    &&& r.prev_log_term == (if prev == 0 { Term(0) } else { s.log[prev - 1].term })
    &&& r.entries@ == entries_from(s.log, next)
    &&& r.leader_commit == LogIndex(s.commit_index)
}

/// One append request to each peer, in member order.
pub open spec fn appends_to_peers(s: RaftView, acts: Seq<RaftAction>) -> bool {
    let ps = peers(s.members, s.id);
    &&& acts.len() == ps.len()
    &&& forall|i: int| 0 <= i < ps.len() ==> (#[trigger] acts[i] matches RaftAction::AppendEntries { to, request } && to == ps[i] && append_for(s, ps[i], request))
}

/// A candidate's state after starting an election: a new term, a vote for
/// itself and no known leader.
pub open spec fn candidate_state(s: RaftView) -> RaftView {
    RaftView {
        term: (s.term + 1) as u64,
        role: Role::Candidate,
        leader_id: None,
        voted_for: Some(s.id),
        votes: set![s.id.0],
        election_elapsed: 0,
        ..s
    }
}

/// The vote request a candidate sends to every peer.
pub open spec fn vote_request(s: RaftView) -> RequestVote {
    RequestVote {
        term: Term(s.term),
        candidate_id: s.id,
        last_log_index: LogIndex(s.log.len() as u64),
        last_log_term: Term(last_term(s)),
    }
}

/// One vote request to each peer, in member order.
pub open spec fn votes_to_peers(s: RaftView, acts: Seq<RaftAction>) -> bool {
    let ps = peers(s.members, s.id);
    &&& acts.len() == ps.len()
    &&& forall|i: int| 0 <= i < ps.len() ==> #[trigger] acts[i] == (RaftAction::RequestVote { to: ps[i], request: vote_request(s) })
}

/// Whether `p` is the number of one of the first `i` members other than `id`.
pub open spec fn peer_upto(ms: Seq<NodeId>, id: NodeId, i: int, p: u64) -> bool {
    exists|k: int| 0 <= k < i && ms[k] != id && #[trigger] ms[k].0 == p
}

/// Peers as numbers.
pub open spec fn is_peer(s: RaftView, p: u64) -> bool {
    peer_upto(s.members, s.id, s.members.len() as int, p)
}

/// A new leader's state: every peer is pointed just past its log and is
/// known to match nothing; the leader itself matches its whole log.
pub open spec fn leader_state(s: RaftView) -> RaftView {
    RaftView {
        role: Role::Leader,
        leader_id: Some(s.id),
        votes: Set::empty(),
        election_elapsed: 0,
        heartbeat_elapsed: 0,
        next_index: Map::new(|p: u64| is_peer(s, p), |p: u64| (s.log.len() + 1) as u64),
        match_index: Map::new(|p: u64| is_peer(s, p), |p: u64| 0u64).insert(s.id.0, s.log.len() as u64),
        ..s
    }
}

/// Answering a vote request. A request from an older term is refused; a
/// newer term makes the node a follower first. The vote is granted when
/// the node has not voted this term, or voted for the same candidate, and
/// the candidate's log is at least as up to date as its own.
pub open spec fn spec_request_vote(s: RaftView, req: RequestVote) -> (RaftView, VoteResponse) {
    if req.term.0 < s.term {
        (s, VoteResponse { term: Term(s.term), voter_id: s.id, granted: false })
    } else {
        let s1 = if req.term.0 > s.term { become_follower(s, req.term.0, None) } else { s };
        let up_to_date = req.last_log_term.0 > last_term(s1)
            || (req.last_log_term.0 == last_term(s1) && req.last_log_index.0 >= s1.log.len());
        let can_vote = s1.voted_for is None || s1.voted_for == Some(req.candidate_id);
        let granted = can_vote && up_to_date;
        let s2 = if granted { RaftView { voted_for: Some(req.candidate_id), election_elapsed: 0, ..s1 } } else { s1 };
        (s2, VoteResponse { term: Term(s2.term), voter_id: s2.id, granted })
    }
}

/// A granted vote counted by a candidate.
pub open spec fn with_vote(s: RaftView, voter: NodeId) -> RaftView {
    RaftView { votes: s.votes.insert(voter.0), ..s }
}

/// Counting a vote response: a stale term is an error, a newer term makes
/// the node a follower, and a candidate that reaches a majority of granted
/// votes becomes leader. The flag says whether it did.
pub open spec fn spec_vote_response(s: RaftView, r: VoteResponse) -> (RaftView, Result<bool, ConsensusError>) {
    if r.term.0 < s.term {
        (s, Err(ConsensusError::StaleTerm))
    } else if r.term.0 > s.term {
        (become_follower(s, r.term.0, None), Ok(false))
    } else if s.role != Role::Candidate || !r.granted {
        (s, Ok(false))
    } else if with_vote(s, r.voter_id).votes.len() >= majority_of(s) {
        (leader_state(with_vote(s, r.voter_id)), Ok(true))
    } else {
        (with_vote(s, r.voter_id), Ok(false))
    }
}

/// Fitting one entry into a log at the position its index names: an
/// entry that differs from the one there replaces it and everything
/// after; one just past the end is appended; one further out cannot be
/// placed.
pub open spec fn append_one(log: Seq<LogEntry>, e: LogEntry) -> Option<Seq<LogEntry>> {
    let pos: int = if e.index.0 == 0 { 0 } else { e.index.0 - 1 };
    if pos < log.len() {
        if log[pos].term != e.term || log[pos].command != e.command {
            Some(log.take(pos).push(e))
        } else {
            Some(log)
        }
    } else if pos == log.len() {
        Some(log.push(e))
    } else {
        None
    }
}

/// Fitting entries in order; the flag is false if one could not be
/// placed, with the log as it was after the ones before it.
pub open spec fn append_all(log: Seq<LogEntry>, es: Seq<LogEntry>) -> (Seq<LogEntry>, bool)
    decreases es.len(),
{
    if es.len() == 0 {
        (log, true)
    } else {
        let (l, ok) = append_all(log, es.drop_last());
        if !ok {
            (l, false)
        } else {
            match append_one(l, es.last()) {
                Some(l2) => (l2, true),
                None => (l, false),
            }
        }
    }
}

pub open spec fn refuse(s: RaftView) -> AppendResponse {
    AppendResponse { term: Term(s.term), follower_id: s.id, success: false, match_index: LogIndex(s.log.len() as u64) }
}

/// Handling an append request. A request from an older term is refused
/// with nothing changed. Otherwise the sender is the leader: a node of an
/// older term, or not a follower, steps down to follower under it. The
/// request is refused if the log lacks the entry before the new ones, and
/// refused with the log cut back before that entry if its term differs.
/// Otherwise the entries are fitted in and the commit index moves up to
/// the leader's, as far as the log reaches.
pub open spec fn spec_append_entries(s: RaftView, req: AppendEntries) -> (RaftView, Result<AppendResponse, ConsensusError>) {
    if req.term.0 < s.term {
        (s, Ok(refuse(s)))
    } else {
        let s1 = if req.term.0 > s.term || s.role != Role::Follower {
            become_follower(s, req.term.0, Some(req.leader_id))
        } else {
            RaftView { leader_id: Some(req.leader_id), election_elapsed: 0, ..s }
        };
        let prev = req.prev_log_index.0;
        if prev > s1.log.len() {
            (s1, Ok(refuse(s1)))
        } else if prev > 0 && s1.log[prev - 1].term != req.prev_log_term {
            let s2 = RaftView { log: s1.log.take(prev - 1), ..s1 };
            (s2, Ok(refuse(s2)))
        } else {
            let (log, ok) = append_all(s1.log, req.entries@);
            if !ok {
                (RaftView { log, ..s1 }, Err(ConsensusError::InvalidAppend))
            } else {
                let new_commit: u64 = if req.leader_commit.0 < log.len() { req.leader_commit.0 } else { log.len() as u64 };
                let s2 = RaftView { log, commit_index: if new_commit > s1.commit_index { new_commit } else { s1.commit_index }, ..s1 };
                (s2, Ok(AppendResponse { term: Term(s2.term), follower_id: s2.id, success: true, match_index: LogIndex(log.len() as u64) }))
            }
        }
    }
}

/// Peers whose recorded match reaches index `c`.
pub open spec fn match_count(m: Map<u64, u64>, c: u64) -> nat {
    m.dom().filter(|k: u64| m[k] >= c).len()
}

/// Index `c` may be committed: with the leader itself it is replicated on
/// a majority, and its entry is of the current term.
pub open spec fn commit_ok(s: RaftView, c: u64) -> bool {
    &&& 1 <= c <= s.log.len()
    &&& match_count(s.match_index, c) + 1 >= majority_of(s)
    &&& s.log[c - 1].term.0 == s.term
}

/// The highest index above the commit index, up to `hi`, that may be
/// committed; the commit index if there is none.
pub open spec fn best_commit(s: RaftView, hi: u64) -> u64
    decreases hi,
{
    if hi <= s.commit_index {
        s.commit_index
    } else if commit_ok(s, hi) {
        hi
    } else {
        best_commit(s, (hi - 1) as u64)
    }
}

/// Handling an append response as leader. A stale term is an error and a
/// newer term makes the node a follower. A success records the peer's
/// match, points it just past, and commits what a majority now holds; a
/// refusal steps the peer back one entry, to no less than 1, and retries.
/// The flag says whether a retry is sent.
pub open spec fn spec_append_response(s: RaftView, peer: NodeId, r: AppendResponse) -> (RaftView, Result<bool, ConsensusError>) {
    if r.term.0 < s.term {
        (s, Err(ConsensusError::StaleTerm))
    } else if r.term.0 > s.term {
        (become_follower(s, r.term.0, None), Ok(false))
    } else if s.role != Role::Leader {
        (s, Ok(false))
    } else if r.success {
        let s1 = RaftView {
            match_index: s.match_index.insert(peer.0, r.match_index.0),
            next_index: s.next_index.insert(peer.0, (r.match_index.0 + 1) as u64),
            ..s
        };
        (RaftView { commit_index: best_commit(s1, s1.log.len() as u64), ..s1 }, Ok(false))
    } else {
        let cur = next_for(s, peer);
        let retry: u64 = if cur <= 2 { 1 } else { (cur - 1) as u64 };
        (RaftView { next_index: s.next_index.insert(peer.0, retry), ..s }, Ok(true))
    }
}

/// A node as `new` makes it: a follower of term 0 with an empty log.
pub open spec fn initial_node(id: NodeId, members: Seq<NodeId>, election_timeout: u64, heartbeat_interval: u64) -> RaftView {
    RaftView {
        id,
        members,
        term: 0,
        voted_for: None,
        role: Role::Follower,
        leader_id: None,
        log: Seq::empty(),
        commit_index: 0,
        last_applied: 0,
        next_index: Map::empty(),
        match_index: Map::empty(),
        votes: Set::empty(),
        election_elapsed: 0,
        election_timeout,
        heartbeat_elapsed: 0,
        heartbeat_interval,
    }
}

/// The commands of the entries committed but not yet applied, in order.
pub open spec fn committed_commands(s: RaftView) -> Seq<OrderCommand> {
    if s.last_applied < s.commit_index {
        Seq::new((s.commit_index - s.last_applied) as nat, |i: int| s.log[s.last_applied + i].command)
    } else {
        Seq::empty()
    }
}

/// Number of values in `vals` that reach `c`.
pub open spec fn count_at_least(vals: Seq<u64>, c: u64) -> nat
    decreases vals.len(),
{
    if vals.len() == 0 {
        0
    } else {
        count_at_least(vals.drop_last(), c) + if vals.last() >= c { 1nat } else { 0nat }
    }
}

/// Counting the values of distinct keys counts the keys whose value
/// reaches `c`.
pub proof fn lemma_count_keys(ks: Seq<u64>, m: Map<u64, u64>, c: u64)
    requires
        ks.no_duplicates(),
    ensures
        count_at_least(ks.map_values(|k: u64| m[k]), c) == ks.to_set().filter(|k: u64| m[k] >= c).len(),
        ks.to_set().finite(),
    decreases ks.len(),
{
    broadcast use vstd::seq_lib::group_seq_properties;
    let f = |k: u64| m[k] >= c;
    if ks.len() == 0 {
        assert(ks.to_set() =~= Set::empty());
        assert(ks.to_set().filter(f) =~= Set::empty());
        assert(ks.map_values(|k: u64| m[k]) =~= Seq::empty());
    } else {
        let init = ks.drop_last();
        let k = ks.last();
        assert(init.no_duplicates()) by {
            assert forall|i: int, j: int| 0 <= i < j < init.len() implies init[i] != init[j] by {
                assert(init[i] == ks[i] && init[j] == ks[j]);
            }
        }
        lemma_count_keys(init, m, c);
        assert(ks.map_values(|k: u64| m[k]).drop_last() =~= init.map_values(|k: u64| m[k]));
        assert(ks =~= init.push(k));
        assert(ks.to_set() =~= init.to_set().insert(k));
        assert(!init.to_set().contains(k)) by {
            if init.to_set().contains(k) {
                let i = choose|i: int| 0 <= i < init.len() && init[i] == k;
                assert(ks[i] == ks[ks.len() - 1]);
            }
        }
        if f(k) {
            assert(ks.to_set().filter(f) =~= init.to_set().filter(f).insert(k));
        } else {
            assert(ks.to_set().filter(f) =~= init.to_set().filter(f));
        }
    }
}

/// Node ids in order without repeats, holding exactly the given ones.
fn sorted_unique(ms: &Vec<NodeId>) -> (r: Vec<NodeId>)
    ensures
        strictly_increasing(r@),
        forall|x: NodeId| r@.contains(x) <==> ms@.contains(x),
{
    let mut out: Vec<NodeId> = Vec::new();
    let mut i: usize = 0;
    while i < ms.len()
        invariant
            i <= ms.len(),
            strictly_increasing(out@),
            forall|x: NodeId| out@.contains(x) <==> ms@.take(i as int).contains(x),
        decreases ms.len() - i,
    {
        let x = ms[i];
        let mut j: usize = 0;
        while j < out.len() && out[j].0 < x.0
            invariant
                j <= out.len(),
                forall|k: int| 0 <= k < j ==> out@[k].0 < x.0,
            decreases out.len() - j,
        {
            j = j + 1;
        }
        let ghost before = out@;
        if j < out.len() && out[j].0 == x.0 {
            proof {
                assert(out@[j as int] == x);
                assert forall|y: NodeId| out@.contains(y) <==> (before.contains(y) || y == x) by {
                    if y == x {
                        assert(out@[j as int] == y);
                    }
                }
            }
        } else {
            out.insert(j, x);
            proof {
                assert forall|a: int, b: int| 0 <= a < b < out@.len() implies out@[a].0 < out@[b].0 by {
                    if b < j {
                    } else if b == j {
                    } else if a < j {
                        assert(out@[b] == before[b - 1]);
                        if j < before.len() {
                            assert(before[j as int].0 > x.0);
                        }
                    } else if a == j {
                        assert(out@[b] == before[b - 1]);
                        assert(before[j as int].0 > x.0);
                    } else {
                        assert(out@[b] == before[b - 1]);
                        assert(out@[a] == before[a - 1]);
                    }
                }
                assert forall|y: NodeId| out@.contains(y) <==> (before.contains(y) || y == x) by {
                    if out@.contains(y) {
                        let k = choose|k: int| 0 <= k < out@.len() && out@[k] == y;
                        if k < j {
                            assert(before[k] == y);
                        } else if k > j {
                            assert(before[k - 1] == y);
                        }
                    }
                    if before.contains(y) {
                        let k = choose|k: int| 0 <= k < before.len() && before[k] == y;
                        if k < j {
                            assert(out@[k] == y);
                        } else {
                            assert(out@[k + 1] == y);
                        }
                    }
                    if y == x {
                        assert(out@[j as int] == x);
                    }
                }
            }
        }
        proof {
            let t0 = ms@.take(i as int);
            let t1 = ms@.take(i as int + 1);
            assert(t1 =~= t0.push(x));
            assert forall|y: NodeId| t1.contains(y) <==> (t0.contains(y) || y == x) by {
                if t1.contains(y) {
                    let k = choose|k: int| 0 <= k < t1.len() && t1[k] == y;
                    if k < i {
                        assert(t0[k] == y);
                    }
                }
                if t0.contains(y) {
                    let k = choose|k: int| 0 <= k < t0.len() && t0[k] == y;
                    assert(t1[k] == y);
                }
                if y == x {
                    assert(t1[i as int] == y);
                }
            }
            assert forall|y: NodeId| out@.contains(y) <==> t1.contains(y) by {
                assert(before.contains(y) <==> t0.contains(y));
            }
        }
        i = i + 1;
    }
    proof {
        assert(ms@.take(ms@.len() as int) =~= ms@);
    }
    out
}

/// Strictly increasing ids repeat nothing, so there are as many as the
/// set of them holds.
pub proof fn lemma_increasing_len(s: Seq<NodeId>)
    requires
        strictly_increasing(s),
    ensures
        s.to_set().len() == s.len(),
{
    assert forall|i: int, j: int| 0 <= i < s.len() && 0 <= j < s.len() && i != j implies s[i] != s[j] by {
        if i < j {
            assert(s[i].0 < s[j].0);
        } else {
            assert(s[j].0 < s[i].0);
        }
    }
    assert(s.no_duplicates());
    s.unique_seq_to_set();
}

/// The peers of one more member.
pub proof fn lemma_peers_step(ms: Seq<NodeId>, id: NodeId, i: int)
    requires
        0 <= i < ms.len(),
    ensures
        peers(ms.take(i + 1), id) == (if ms[i] != id { peers(ms.take(i), id).push(ms[i]) } else { peers(ms.take(i), id) }),
{
    assert(ms.take(i + 1).drop_last() =~= ms.take(i));
    assert(ms.take(i + 1).last() == ms[i]);
}

/// The entries from `next` of one more log entry.
pub proof fn lemma_entries_step(log: Seq<LogEntry>, next: u64, i: int)
    requires
        0 <= i < log.len(),
    ensures
        entries_from(log.take(i + 1), next) == (if log[i].index.0 >= next { entries_from(log.take(i), next).push(log[i]) } else { entries_from(log.take(i), next) }),
{
    assert(log.take(i + 1).drop_last() =~= log.take(i));
    assert(log.take(i + 1).last() == log[i]);
}

impl RaftNode {
    /// A follower of term 0 with an empty log, among the given members
    /// sorted and without repeats. There must be an odd number of at least
    /// three members, this node among them, and both timers must be
    /// positive.
    pub fn new(id: NodeId, members: Vec<NodeId>, election_timeout: u64, heartbeat_interval: u64) -> (r: Result<RaftNode, ConsensusError>)
        ensures
            r is Ok <==> (members@.to_set().len() >= 3 && members@.to_set().len() % 2 == 1 && members@.contains(id)
                && election_timeout > 0 && heartbeat_interval > 0),
            r is Err ==> r == Err::<RaftNode, ConsensusError>(ConsensusError::InvalidMembership),
            r matches Ok(n) ==> {
                &&& n@ == initial_node(id, n@.members, election_timeout, heartbeat_interval)
                &&& strictly_increasing(n@.members)
                &&& forall|x: NodeId| n@.members.contains(x) <==> members@.contains(x)
                &&& raft_wf(n@)
            },
    {
        let sorted = sorted_unique(&members);
        proof {
            lemma_increasing_len(sorted@);
            assert(sorted@.to_set() =~= members@.to_set());
        }
        let mut has_id = false;
        let mut i: usize = 0;
        while i < sorted.len()
            invariant
                i <= sorted.len(),
                has_id == sorted@.take(i as int).contains(id),
            decreases sorted.len() - i,
        {
            proof {
                let t0 = sorted@.take(i as int);
                let t1 = sorted@.take(i as int + 1);
                assert(t1 =~= t0.push(sorted@[i as int]));
                if t1.contains(id) && sorted@[i as int] != id {
                    let k = choose|k: int| 0 <= k < t1.len() && t1[k] == id;
                    assert(t0[k] == id);
                }
                if t0.contains(id) {
                    let k = choose|k: int| 0 <= k < t0.len() && t0[k] == id;
                    assert(t1[k] == id);
                }
                if sorted@[i as int] == id {
                    assert(t1[i as int] == id);
                }
            }
            if sorted[i] == id {
                has_id = true;
            }
            i = i + 1;
        }
        proof {
            assert(sorted@.take(sorted@.len() as int) =~= sorted@);
        }
        if sorted.len() < 3 || sorted.len() % 2 == 0 || !has_id || election_timeout == 0 || heartbeat_interval == 0 {
            return Err(ConsensusError::InvalidMembership);
        }
        let node = RaftNode {
            id,
            members: sorted,
            current_term: Term(0),
            voted_for: None,
            role: Role::Follower,
            leader_id: None,
            log: Vec::new(),
            commit_index: LogIndex(0),
            last_applied: LogIndex(0),
            next_index: BTreeMap::new(),
            match_index: BTreeMap::new(),
            votes_received: BTreeSet::new(),
            election_elapsed: 0,
            election_timeout,
            heartbeat_elapsed: 0,
            heartbeat_interval,
        };
        proof {
            assert(node@ =~= initial_node(id, node@.members, election_timeout, heartbeat_interval));
        }
        Ok(node)
    }

    pub fn id(&self) -> (r: NodeId)
        ensures
            r == self@.id,
    {
        self.id
    }

    pub fn term(&self) -> (r: Term)
        ensures
            r.0 == self@.term,
    {
        self.current_term
    }

    pub fn role(&self) -> (r: Role)
        ensures
            r == self@.role,
    {
        self.role
    }

    pub fn leader_id(&self) -> (r: Option<NodeId>)
        ensures
            r == self@.leader_id,
    {
        self.leader_id
    }

    pub fn commit_index(&self) -> (r: LogIndex)
        ensures
            r.0 == self@.commit_index,
    {
        self.commit_index
    }

    pub fn last_applied(&self) -> (r: LogIndex)
        ensures
            r.0 == self@.last_applied,
    {
        self.last_applied
    }

    /// Index of the last entry, 0 for an empty log.
    pub fn last_log_index(&self) -> (r: LogIndex)
        ensures
            r.0 == self@.log.len(),
    {
        LogIndex(self.log.len() as u64)
    }

    /// Term of the last entry, 0 for an empty log.
    pub fn last_log_term(&self) -> (r: Term)
        ensures
            r.0 == last_term(self@),
    {
        if self.log.len() == 0 {
            Term(0)
        } else {
            self.log[self.log.len() - 1].term
        }
    }

    pub fn log(&self) -> (r: &[LogEntry])
        ensures
            r@ == self@.log,
    {
        self.log.as_slice()
    }

    /// More than half the members.
    pub fn majority(&self) -> (r: usize)
        ensures
            r == majority_of(self@),
    {
        self.members.len() / 2 + 1
    }

    fn vote_actions(&self, request: RequestVote) -> (r: Vec<RaftAction>)
        requires
            request == vote_request(self@),
        ensures
            votes_to_peers(self@, r@),
    {
        let mut out: Vec<RaftAction> = Vec::new();
        let mut i: usize = 0;
        while i < self.members.len()
            invariant
                i <= self.members@.len(),
                request == vote_request(self@),
                out@.len() == peers(self@.members.take(i as int), self@.id).len(),
                forall|k: int| 0 <= k < out@.len() ==> #[trigger] out@[k] == (RaftAction::RequestVote { to: peers(self@.members.take(i as int), self@.id)[k], request: vote_request(self@) }),
            decreases self.members.len() - i,
        {
            proof {
                lemma_peers_step(self@.members, self@.id, i as int);
            }
            let peer = self.members[i];
            if peer != self.id {
                out.push(RaftAction::RequestVote { to: peer, request });
            }
            i = i + 1;
        }
        proof {
            assert(self@.members.take(self@.members.len() as int) =~= self@.members);
        }
        out
    }

    fn append_request_for(&self, peer: NodeId) -> (r: AppendEntries)
        requires
            next_for(self@, peer) <= self@.log.len() + 1,
        ensures
            append_for(self@, peer, r),
    {
        let next = match self.next_index.get(&peer.0) {
            Some(n) => *n,
            None => 1,
        };
        let prev: u64 = if next == 0 { 0 } else { next - 1 };
        let prev_term = if prev == 0 { Term(0) } else { self.log[(prev - 1) as usize].term };
        let mut entries: Vec<LogEntry> = Vec::new();
        let mut i: usize = 0;
        while i < self.log.len()
            invariant
                i <= self.log@.len(),
                entries@ == entries_from(self@.log.take(i as int), next),
            decreases self.log.len() - i,
        {
            proof {
                lemma_entries_step(self@.log, next, i as int);
            }
            if self.log[i].index.0 >= next {
                entries.push(self.log[i]);
            }
            i = i + 1;
        }
        proof {
            assert(self@.log.take(self@.log.len() as int) =~= self@.log);
        }
        AppendEntries {
            term: self.current_term,
            leader_id: self.id,
            prev_log_index: LogIndex(prev),
            prev_log_term: prev_term,
            entries,
            leader_commit: self.commit_index,
        }
    }

    /// An append request to every peer, in member order.
    fn heartbeat_actions(&self) -> (r: Vec<RaftAction>)
        requires
            self@.role == Role::Leader,
            raft_wf(self@),
        ensures
            appends_to_peers(self@, r@),
    {
        let mut out: Vec<RaftAction> = Vec::new();
        let mut i: usize = 0;
        while i < self.members.len()
            invariant
                i <= self.members@.len(),
                self@.role == Role::Leader,
                raft_wf(self@),
                out@.len() == peers(self@.members.take(i as int), self@.id).len(),
                forall|k: int| 0 <= k < out@.len() ==> (#[trigger] out@[k] matches RaftAction::AppendEntries { to, request }
                    && to == peers(self@.members.take(i as int), self@.id)[k] && append_for(self@, to, request)),
            decreases self.members.len() - i,
        {
            proof {
                lemma_peers_step(self@.members, self@.id, i as int);
            }
            let peer = self.members[i];
            if peer != self.id {
                let request = self.append_request_for(peer);
                out.push(RaftAction::AppendEntries { to: peer, request });
            }
            i = i + 1;
        }
        proof {
            assert(self@.members.take(self@.members.len() as int) =~= self@.members);
        }
        out
    }
}

/// What a tick does: the election timer advances; a leader whose
/// heartbeat interval has run out sends append requests to every peer; a
/// node whose election timer has run out starts an election.
pub open spec fn tick_outcome(s: RaftView, s2: RaftView, acts: Seq<RaftAction>) -> bool {
    let s1 = RaftView { election_elapsed: sat_inc(s.election_elapsed), ..s };
    if s.role == Role::Leader {
        let hb = sat_inc(s.heartbeat_elapsed);
        if hb >= s.heartbeat_interval {
            s2 == RaftView { heartbeat_elapsed: 0, ..s1 } && appends_to_peers(s2, acts)
        } else {
            s2 == RaftView { heartbeat_elapsed: hb, ..s1 } && acts.len() == 0
        }
    } else if s1.election_elapsed >= s.election_timeout {
        s2 == candidate_state(s1) && votes_to_peers(s2, acts)
    } else {
        s2 == s1 && acts.len() == 0
    }
}

/// Whether a tick starts an election, which needs a next term.
pub open spec fn tick_starts_election(s: RaftView) -> bool {
    s.role != Role::Leader && sat_inc(s.election_elapsed) >= s.election_timeout
}

impl RaftNode {
    fn step_down(&mut self, term: Term, leader: Option<NodeId>)
        ensures
            final(self)@ == become_follower(old(self)@, term.0, leader),
    {
        self.current_term = term;
        self.role = Role::Follower;
        self.voted_for = None;
        self.leader_id = leader;
        self.votes_received.clear();
        self.election_elapsed = 0;
        self.heartbeat_elapsed = 0;
        proof {
            assert(self@.votes =~= Set::<u64>::empty());
        }
    }

    /// Starts an election: a new term, a vote for itself, and a vote
    /// request to every peer.
    pub fn start_election(&mut self) -> (r: Vec<RaftAction>)
        requires
            old(self)@.term < u64::MAX,
            raft_wf(old(self)@),
        ensures
            final(self)@ == candidate_state(old(self)@),
            votes_to_peers(final(self)@, r@),
            raft_wf(final(self)@),
    {
        self.current_term = Term(self.current_term.0 + 1);
        self.role = Role::Candidate;
        self.leader_id = None;
        self.voted_for = Some(self.id);
        self.votes_received.clear();
        self.votes_received.insert(self.id.0);
        self.election_elapsed = 0;
        proof {
            assert(self@.votes =~= set![self@.id.0]);
            assert(self@ =~= candidate_state(old(self)@));
        }
        let request = RequestVote {
            term: self.current_term,
            candidate_id: self.id,
            last_log_index: self.last_log_index(),
            last_log_term: self.last_log_term(),
        };
        self.vote_actions(request)
    }

    /// Advances the timers by one tick.
    pub fn tick(&mut self) -> (r: Vec<RaftAction>)
        requires
            raft_wf(old(self)@),
            tick_starts_election(old(self)@) ==> old(self)@.term < u64::MAX,
        ensures
            tick_outcome(old(self)@, final(self)@, r@),
            raft_wf(final(self)@),
    {
        self.election_elapsed = self.election_elapsed.saturating_add(1);
        if self.role == Role::Leader {
            self.heartbeat_elapsed = self.heartbeat_elapsed.saturating_add(1);
            if self.heartbeat_elapsed >= self.heartbeat_interval {
                self.heartbeat_elapsed = 0;
                return self.heartbeat_actions();
            }
            return Vec::new();
        }
        if self.election_elapsed >= self.election_timeout {
            return self.start_election();
        }
        Vec::new()
    }

    /// Answers a vote request; see `spec_request_vote`.
    pub fn handle_request_vote(&mut self, request: RequestVote) -> (r: VoteResponse)
        requires
            raft_wf(old(self)@),
        ensures
            (final(self)@, r) == spec_request_vote(old(self)@, request),
            raft_wf(final(self)@),
    {
        if request.term.0 < self.current_term.0 {
            return VoteResponse { term: self.current_term, voter_id: self.id, granted: false };
        }
        if request.term.0 > self.current_term.0 {
            self.step_down(request.term, None);
        }
        let last_term = self.last_log_term();
        let last_index = self.last_log_index();
        let up_to_date = request.last_log_term.0 > last_term.0
            || (request.last_log_term.0 == last_term.0 && request.last_log_index.0 >= last_index.0);
        let can_vote = match self.voted_for {
            None => true,
            Some(v) => v == request.candidate_id,
        };
        let granted = can_vote && up_to_date;
        if granted {
            self.voted_for = Some(request.candidate_id);
            self.election_elapsed = 0;
        }
        VoteResponse { term: self.current_term, voter_id: self.id, granted }
    }

    /// Takes leadership: every peer is pointed just past the log and
    /// matches nothing yet, the leader matches its whole log, and every
    /// peer is sent an append request.
    fn become_leader(&mut self) -> (r: Vec<RaftAction>)
        requires
            old(self)@.log.len() < u64::MAX,
        ensures
            final(self)@ == leader_state(old(self)@),
            raft_wf(final(self)@),
            appends_to_peers(final(self)@, r@),
    {
        let ghost s = self@;
        self.role = Role::Leader;
        self.leader_id = Some(self.id);
        self.votes_received.clear();
        self.election_elapsed = 0;
        self.heartbeat_elapsed = 0;
        self.next_index.clear();
        self.match_index.clear();
        proof {
            assert(self@.votes =~= Set::<u64>::empty());
        }
        let ghost s0 = self@;
        let next: u64 = self.log.len() as u64 + 1;
        let mut i: usize = 0;
        while i < self.members.len()
            invariant
                i <= self.members@.len(),
                self.members@ == s.members,
                self.id == s.id,
                next == s.log.len() + 1,
                self@ == (RaftView { next_index: self@.next_index, match_index: self@.match_index, ..s0 }),
                s0 == (RaftView { next_index: s0.next_index, match_index: s0.match_index, ..leader_state(s) }),
                self.next_index@ == Map::new(|p: u64| peer_upto(s.members, s.id, i as int, p), |p: u64| next),
                self.match_index@ == Map::new(|p: u64| peer_upto(s.members, s.id, i as int, p), |p: u64| 0u64),
            decreases self.members.len() - i,
        {
            let peer = self.members[i];
            if peer != self.id {
                self.next_index.insert(peer.0, next);
                self.match_index.insert(peer.0, 0);
            }
            proof {
                assert forall|p: u64| #[trigger] peer_upto(s.members, s.id, i + 1, p)
                    <==> (peer_upto(s.members, s.id, i as int, p) || (peer != s.id && peer.0 == p)) by {
                    if peer != s.id && peer.0 == p {
                        assert(s.members[i as int].0 == p);
                    }
                    if peer_upto(s.members, s.id, i + 1, p) {
                        let k = choose|k: int| 0 <= k < i + 1 && s.members[k] != s.id && #[trigger] s.members[k].0 == p;
                        if k < i {
                            assert(peer_upto(s.members, s.id, i as int, p));
                        }
                    }
                }
                assert(self.next_index@ =~= Map::new(|p: u64| peer_upto(s.members, s.id, i + 1, p), |p: u64| next));
                assert(self.match_index@ =~= Map::new(|p: u64| peer_upto(s.members, s.id, i + 1, p), |p: u64| 0u64));
            }
            i = i + 1;
        }
        let last = self.log.len() as u64;
        self.match_index.insert(self.id.0, last);
        proof {
            assert(self.next_index@ =~= leader_state(s).next_index);
            assert(self.match_index@ =~= leader_state(s).match_index);
            assert(self@ =~= leader_state(s));
        }
        self.heartbeat_actions()
    }

    /// Counts a vote response; see `spec_vote_response`. A node that wins
    /// sends an append request to every peer.
    pub fn handle_vote_response(&mut self, response: VoteResponse) -> (r: Result<Vec<RaftAction>, ConsensusError>)
        requires
            raft_wf(old(self)@),
            old(self)@.log.len() < u64::MAX,
        ensures
            ({
                let (s2, res) = spec_vote_response(old(self)@, response);
                &&& final(self)@ == s2
                &&& match r {
                    Err(e) => res == Err::<bool, ConsensusError>(e),
                    Ok(acts) => res matches Ok(won) && (won ==> appends_to_peers(s2, acts@)) && (!won ==> acts@.len() == 0),
                }
            }),
            raft_wf(final(self)@),
    {
        if response.term.0 < self.current_term.0 {
            return Err(ConsensusError::StaleTerm);
        }
        if response.term.0 > self.current_term.0 {
            self.step_down(response.term, None);
            return Ok(Vec::new());
        }
        if self.role != Role::Candidate {
            return Ok(Vec::new());
        }
        if response.granted {
            self.votes_received.insert(response.voter_id.0);
            if self.votes_received.len() >= self.majority() {
                return Ok(self.become_leader());
            }
        }
        Ok(Vec::new())
    }

    /// Appends a command to a leader's log and sends it on to every peer.
    pub fn propose(&mut self, command: OrderCommand) -> (r: Result<Vec<RaftAction>, ConsensusError>)
        requires
            raft_wf(old(self)@),
            old(self)@.log.len() < u64::MAX,
        ensures
            old(self)@.role != Role::Leader ==> r == Err::<Vec<RaftAction>, ConsensusError>(ConsensusError::NotLeader { leader: old(self)@.leader_id })
                && final(self)@ == old(self)@,
            old(self)@.role == Role::Leader ==> {
                &&& final(self)@ == RaftView {
                    log: old(self)@.log.push(LogEntry { index: LogIndex((old(self)@.log.len() + 1) as u64), term: Term(old(self)@.term), command }),
                    ..old(self)@
                }
                &&& r matches Ok(acts) && appends_to_peers(final(self)@, acts@)
            },
            raft_wf(final(self)@),
    {
        if self.role != Role::Leader {
            return Err(ConsensusError::NotLeader { leader: self.leader_id });
        }
        let entry = LogEntry { index: LogIndex(self.log.len() as u64 + 1), term: self.current_term, command };
        self.log.push(entry);
        Ok(self.heartbeat_actions())
    }
}

impl RaftNode {
    /// Handles an append request; see `spec_append_entries`.
    pub fn handle_append_entries(&mut self, request: AppendEntries) -> (r: Result<AppendResponse, ConsensusError>)
        requires
            raft_wf(old(self)@),
        ensures
            (final(self)@, r) == spec_append_entries(old(self)@, request),
            raft_wf(final(self)@),
    {
        if request.term.0 < self.current_term.0 {
            return Ok(AppendResponse { term: self.current_term, follower_id: self.id, success: false, match_index: self.last_log_index() });
        }
        if request.term.0 > self.current_term.0 || self.role != Role::Follower {
            self.step_down(request.term, Some(request.leader_id));
        } else {
            self.leader_id = Some(request.leader_id);
            self.election_elapsed = 0;
        }
        let ghost s1 = self@;
        let len = self.log.len() as u64;
        if request.prev_log_index.0 > len {
            return Ok(AppendResponse { term: self.current_term, follower_id: self.id, success: false, match_index: self.last_log_index() });
        }
        if request.prev_log_index.0 > 0 {
            let local = self.log[(request.prev_log_index.0 - 1) as usize];
            if local.term != request.prev_log_term {
                self.log.truncate((request.prev_log_index.0 - 1) as usize);
                proof {
                    assert(self@ =~= RaftView { log: s1.log.take(request.prev_log_index.0 - 1), ..s1 });
                }
                return Ok(AppendResponse { term: self.current_term, follower_id: self.id, success: false, match_index: self.last_log_index() });
            }
        }
        let entries = &request.entries;
        let mut i: usize = 0;
        while i < entries.len()
            invariant
                i <= entries@.len(),
                entries@ == request.entries@,
                s1.role == Role::Follower,
                request.term.0 >= old(self)@.term,
                s1 == (if request.term.0 > old(self)@.term || old(self)@.role != Role::Follower {
                    become_follower(old(self)@, request.term.0, Some(request.leader_id))
                } else {
                    RaftView { leader_id: Some(request.leader_id), election_elapsed: 0, ..old(self)@ }
                }),
                request.prev_log_index.0 <= s1.log.len(),
                request.prev_log_index.0 > 0 ==> s1.log[request.prev_log_index.0 - 1].term == request.prev_log_term,
                append_all(s1.log, entries@.take(i as int)).1,
                self@ == (RaftView { log: append_all(s1.log, entries@.take(i as int)).0, ..s1 }),
            decreases entries.len() - i,
        {
            proof {
                assert(entries@.take(i as int + 1).drop_last() =~= entries@.take(i as int));
                assert(entries@.take(i as int + 1).last() == entries@[i as int]);
            }
            let entry = entries[i];
            let position: u64 = if entry.index.0 == 0 { 0 } else { entry.index.0 - 1 };
            let n = self.log.len() as u64;
            if position < n {
                let p = position as usize;
                if self.log[p].term != entry.term || self.log[p].command != entry.command {
                    self.log.truncate(p);
                    self.log.push(entry);
                }
            } else if position == n {
                self.log.push(entry);
            } else {
                proof {
                    assert(append_one(self@.log, entry) is None);
                    assert(append_all(s1.log, entries@.take(i as int + 1)).0 == append_all(s1.log, entries@.take(i as int)).0);
                    assert(!append_all(s1.log, entries@.take(i as int + 1)).1);
                    lemma_append_all_stops(s1.log, entries@, i as int + 1);
                    assert(entries@.take(entries@.len() as int) =~= entries@);
                }
                return Err(ConsensusError::InvalidAppend);
            }
            proof {
                assert(self@ =~= RaftView { log: append_all(s1.log, entries@.take(i as int + 1)).0, ..s1 });
            }
            i = i + 1;
        }
        proof {
            assert(entries@.take(entries@.len() as int) =~= entries@);
        }
        let last = self.log.len() as u64;
        let new_commit: u64 = if request.leader_commit.0 < last { request.leader_commit.0 } else { last };
        if new_commit > self.commit_index.0 {
            self.commit_index = LogIndex(new_commit);
        }
        Ok(AppendResponse { term: self.current_term, follower_id: self.id, success: true, match_index: LogIndex(last) })
    }
}

/// Once an entry could not be placed, later entries change nothing.
pub proof fn lemma_append_all_stops(log: Seq<LogEntry>, es: Seq<LogEntry>, i: int)
    requires
        0 <= i <= es.len(),
        !append_all(log, es.take(i)).1,
    ensures
        append_all(log, es) == append_all(log, es.take(i)),
    decreases es.len() - i,
{
    if i < es.len() {
        assert(es.take(i + 1).drop_last() =~= es.take(i));
        lemma_append_all_stops(log, es, i + 1);
    } else {
        assert(es.take(i) =~= es);
    }
}

/// A single append request to `peer`.
pub open spec fn retry_to(s: RaftView, peer: NodeId, acts: Seq<RaftAction>) -> bool {
    acts.len() == 1 && (acts[0] matches RaftAction::AppendEntries { to, request } && to == peer && append_for(s, peer, request))
}

impl RaftNode {
    /// Number of peers whose recorded match reaches `c`.
    fn count_matches(&self, c: u64) -> (r: usize)
        ensures
            r == match_count(self@.match_index, c),
    {
        let ghost m = self.match_index@;
        let total = self.match_index.len();
        let iter = self.match_index.values();
        let ghost vals = iter.remaining().unref();
        let ghost ks = choose|key_seq: Seq<u64>| {
            &&& vstd::std_specs::btree::increasing_seq(key_seq)
            &&& key_seq.to_set() == m.dom()
            &&& key_seq.no_duplicates()
            &&& iter.remaining() == key_seq.map(|i: int, k: u64| &m[k])
        };
        proof {
            assert(vals =~= ks.map_values(|k: u64| m[k]));
            lemma_count_keys(ks, m, c);
            assert(ks.to_set().filter(|k: u64| m[k] >= c) =~= m.dom().filter(|k: u64| m[k] >= c));
            assert(vals.len() == m.dom().len());
        }
        let mut count: usize = 0;
        for v in it: iter
            invariant
                it.seq().unref() == vals,
                vals.len() == total,
                count == count_at_least(vals.take(it.index()), c),
                count <= it.index(),
        {
            proof {
                let j = it.index();
                assert(vals.take(j + 1).drop_last() =~= vals.take(j));
                assert(vals.take(j + 1).last() == vals[j]);
                assert(vals[j] == *v);
            }
            if *v >= c {
                count = count + 1;
            }
        }
        proof {
            assert(vals.take(vals.len() as int) =~= vals);
        }
        count
    }

    /// Commits the highest index above the commit index that a majority
    /// holds and whose entry is of the current term, if any.
    fn advance_commit(&mut self)
        ensures
            final(self)@ == (RaftView { commit_index: best_commit(old(self)@, old(self)@.log.len() as u64), ..old(self)@ }),
    {
        let ghost s = self@;
        let last = self.log.len() as u64;
        let majority = self.majority();
        let mut candidate: u64 = self.commit_index.0;
        while candidate < last
            invariant
                s.commit_index <= candidate <= last || (candidate == s.commit_index && candidate >= last),
                last == s.log.len(),
                majority == majority_of(s),
                majority >= 1,
                self@ == (RaftView { commit_index: best_commit(s, candidate), ..s }),
                self.log@ == s.log,
                self.current_term.0 == s.term,
            decreases last - candidate,
        {
            candidate = candidate + 1;
            let replicated = self.count_matches(candidate);
            proof {
                assert(candidate - 1 < self.log.len());
            }
            let idx = (candidate - 1) as usize;
            if replicated >= majority - 1 && self.log[idx].term.0 == self.current_term.0 {
                self.commit_index = LogIndex(candidate);
            }
            proof {
                assert(commit_ok(s, candidate) == (replicated >= majority - 1 && s.log[candidate - 1].term.0 == s.term));
                assert(best_commit(s, candidate) == if commit_ok(s, candidate) { candidate } else { best_commit(s, (candidate - 1) as u64) });
                assert(self@.commit_index == best_commit(s, candidate));
                assert(self@ =~= (RaftView { commit_index: best_commit(s, candidate), ..s }));
            }
        }
        proof {
            if candidate != last {
                assert(candidate >= last);
                assert(best_commit(s, last) == s.commit_index);
            }
        }
    }

    /// Handles an append response; see `spec_append_response`. A refusal is
    /// answered with a retry to that peer.
    pub fn handle_append_response(&mut self, peer: NodeId, response: AppendResponse) -> (r: Result<Vec<RaftAction>, ConsensusError>)
        requires
            raft_wf(old(self)@),
            old(self)@.log.len() < u64::MAX,
            old(self)@.role == Role::Leader && response.term.0 == old(self)@.term && response.success
                ==> response.match_index.0 <= old(self)@.log.len(),
        ensures
            ({
                let (s2, res) = spec_append_response(old(self)@, peer, response);
                &&& final(self)@ == s2
                &&& match r {
                    Err(e) => res == Err::<bool, ConsensusError>(e),
                    Ok(acts) => res matches Ok(retry) && (retry ==> retry_to(s2, peer, acts@)) && (!retry ==> acts@.len() == 0),
                }
            }),
            raft_wf(final(self)@),
    {
        if response.term.0 < self.current_term.0 {
            return Err(ConsensusError::StaleTerm);
        }
        if response.term.0 > self.current_term.0 {
            self.step_down(response.term, None);
            return Ok(Vec::new());
        }
        if self.role != Role::Leader {
            return Ok(Vec::new());
        }
        if response.success {
            self.match_index.insert(peer.0, response.match_index.0);
            self.next_index.insert(peer.0, response.match_index.0 + 1);
            self.advance_commit();
            Ok(Vec::new())
        } else {
            let current = match self.next_index.get(&peer.0) {
                Some(n) => *n,
                None => 1,
            };
            let retry: u64 = if current <= 2 { 1 } else { current - 1 };
            self.next_index.insert(peer.0, retry);
            let request = self.append_request_for(peer);
            let out = vec![RaftAction::AppendEntries { to: peer, request }];
            proof {
                assert(out@ =~= seq![RaftAction::AppendEntries { to: peer, request }]);
            }
            Ok(out)
        }
    }

    /// Hands out the commands committed since the last call, in log order.
    pub fn take_committed(&mut self) -> (r: Vec<OrderCommand>)
        requires
            old(self)@.commit_index <= old(self)@.log.len(),
        ensures
            r@ == committed_commands(old(self)@),
            final(self)@ == (RaftView {
                last_applied: if old(self)@.last_applied < old(self)@.commit_index { old(self)@.commit_index } else { old(self)@.last_applied },
                ..old(self)@
            }),
    {
        let ghost s = self@;
        let mut commands: Vec<OrderCommand> = Vec::new();
        while self.last_applied.0 < self.commit_index.0
            invariant
                self@ == (RaftView { last_applied: self@.last_applied, ..s }),
                self.log@ == s.log,
                self.commit_index.0 == s.commit_index,
                s.commit_index <= s.log.len(),
                s.last_applied <= self@.last_applied <= s.commit_index || (self@.last_applied == s.last_applied),
                commands@ =~= Seq::new((self@.last_applied - s.last_applied) as nat, |i: int| s.log[s.last_applied + i].command),
                self@.last_applied >= s.last_applied,
            decreases self.commit_index.0 - self.last_applied.0,
        {
            proof {
                assert(self.last_applied.0 < self.log.len());
            }
            let idx = self.last_applied.0 as usize;
            let next = self.last_applied.0 + 1;
            let entry = self.log[idx];
            let ghost before = commands@;
            commands.push(entry.command);
            self.last_applied = LogIndex(next);
            proof {
                let n = (next - s.last_applied) as nat;
                assert(commands@ =~= Seq::new(n, |i: int| s.log[s.last_applied + i].command)) by {
                    assert forall|i: int| 0 <= i < n implies #[trigger] commands@[i] == s.log[s.last_applied + i].command by {
                        if i < n - 1 {
                            assert(commands@[i] == before[i]);
                        }
                    }
                }
            }
        }
        commands
    }
}

/// The commit search never goes below the commit index, and whatever
/// above it that it picks may be committed.
pub proof fn lemma_best_commit(s: RaftView, hi: u64)
    ensures
        best_commit(s, hi) >= s.commit_index,
        best_commit(s, hi) > s.commit_index ==> commit_ok(s, best_commit(s, hi)) && best_commit(s, hi) <= hi,
    decreases hi,
{
    if hi > s.commit_index && !commit_ok(s, hi) {
        lemma_best_commit(s, (hi - 1) as u64);
    }
}

/// A node votes for at most one candidate per term: once it has granted a
/// vote, a request of the same term from another candidate is refused.
pub proof fn lemma_one_vote_per_term(s: RaftView, r1: RequestVote, r2: RequestVote)
    requires
        spec_request_vote(s, r1).1.granted,
        r2.term == r1.term,
        r2.candidate_id != r1.candidate_id,
    ensures
        !spec_request_vote(spec_request_vote(s, r1).0, r2).1.granted,
{
}

/// A candidate becomes leader only on a majority of granted votes in its
/// own term.
pub proof fn lemma_leader_needs_majority(s: RaftView, r: VoteResponse)
    requires
        spec_vote_response(s, r).1 == Ok::<bool, ConsensusError>(true),
    ensures
        s.role == Role::Candidate,
        r.term.0 == s.term,
        r.granted,
        with_vote(s, r.voter_id).votes.len() >= majority_of(s),
        spec_vote_response(s, r).0.role == Role::Leader,
{
}

/// Messages from an older term are fenced off: they change nothing, vote
/// and append requests are refused, and responses are stale errors.
pub proof fn lemma_stale_term_fenced(s: RaftView, rv: RequestVote, vr: VoteResponse, ae: AppendEntries, peer: NodeId, ar: AppendResponse)
    ensures
        rv.term.0 < s.term ==> spec_request_vote(s, rv).0 == s && !spec_request_vote(s, rv).1.granted,
        vr.term.0 < s.term ==> spec_vote_response(s, vr) == (s, Err::<bool, ConsensusError>(ConsensusError::StaleTerm)),
        ae.term.0 < s.term ==> spec_append_entries(s, ae).0 == s && (spec_append_entries(s, ae).1 matches Ok(resp) && !resp.success),
        ar.term.0 < s.term ==> spec_append_response(s, peer, ar) == (s, Err::<bool, ConsensusError>(ConsensusError::StaleTerm)),
{
}

/// Terms only move forward, and a message from a newer term makes the node
/// a follower of that term.
pub proof fn lemma_term_monotone(s: RaftView, rv: RequestVote, vr: VoteResponse, ae: AppendEntries, peer: NodeId, ar: AppendResponse)
    ensures
        spec_request_vote(s, rv).0.term >= s.term,
        spec_vote_response(s, vr).0.term >= s.term,
        spec_append_entries(s, ae).0.term >= s.term,
        spec_append_response(s, peer, ar).0.term >= s.term,
        rv.term.0 > s.term ==> spec_request_vote(s, rv).0.term == rv.term.0 && spec_request_vote(s, rv).0.role == Role::Follower,
        vr.term.0 > s.term ==> spec_vote_response(s, vr).0.term == vr.term.0 && spec_vote_response(s, vr).0.role == Role::Follower,
        ae.term.0 > s.term ==> spec_append_entries(s, ae).0.term == ae.term.0 && spec_append_entries(s, ae).0.role == Role::Follower,
        ar.term.0 > s.term ==> spec_append_response(s, peer, ar).0.term == ar.term.0 && spec_append_response(s, peer, ar).0.role == Role::Follower,
{
}

/// The commit index never moves back, and a leader only moves it to an
/// entry of its own term that, counting itself, a majority holds.
pub proof fn lemma_commit_monotone(s: RaftView, ae: AppendEntries, peer: NodeId, ar: AppendResponse)
    ensures
        spec_append_entries(s, ae).0.commit_index >= s.commit_index,
        spec_append_response(s, peer, ar).0.commit_index >= s.commit_index,
        ({
            let s2 = spec_append_response(s, peer, ar).0;
            s2.commit_index > s.commit_index ==> {
                let s1 = RaftView {
                    match_index: s.match_index.insert(peer.0, ar.match_index.0),
                    next_index: s.next_index.insert(peer.0, (ar.match_index.0 + 1) as u64),
                    ..s
                };
                s.role == Role::Leader && commit_ok(s1, s2.commit_index)
            }
        }),
{
    let s1 = RaftView {
        match_index: s.match_index.insert(peer.0, ar.match_index.0),
        next_index: s.next_index.insert(peer.0, (ar.match_index.0 + 1) as u64),
        ..s
    };
    lemma_best_commit(s1, s1.log.len() as u64);
}


/// A candidate's log, ending at `last_log_term` and `last_log_index`, is at
/// least as up to date as the log `log`: its last term is later, or the
/// same with at least as many entries.
pub open spec fn log_up_to_date(last_log_term: u64, last_log_index: u64, log: Seq<LogEntry>) -> bool {
    let own_term: u64 = if log.len() == 0 { 0 } else { log[log.len() - 1].term.0 };
    last_log_term > own_term || (last_log_term == own_term && last_log_index >= log.len())
}

/// Raft's election restriction: a vote is granted exactly when the request
/// is not from an older term, the voter has not given its vote this term
/// to another candidate, and the candidate's log is at least as up to date
/// as the voter's. A granted vote is recorded for the candidate, and the
/// answer always carries the voter's id and its term after the request.
pub proof fn lemma_vote_rule(s: RaftView, req: RequestVote)
    ensures
        ({
            let (s2, resp) = spec_request_vote(s, req);
            let free = req.term.0 > s.term || s.voted_for is None || s.voted_for == Some(req.candidate_id);
            &&& resp.granted <==> (req.term.0 >= s.term && free
                && log_up_to_date(req.last_log_term.0, req.last_log_index.0, s.log))
            &&& resp.granted ==> s2.voted_for == Some(req.candidate_id)
            &&& s2.log == s.log
            &&& resp.voter_id == s.id
            &&& resp.term.0 == (if req.term.0 > s.term { req.term.0 } else { s.term })
            &&& s2.term == resp.term.0
            &&& req.term.0 > s.term ==> s2.role == Role::Follower
            &&& !resp.granted && req.term.0 <= s.term ==> s2 == s
        }),
{
}

/// A longer log never loses a vote a shorter one wins: if a candidate is
/// granted a vote, the same request from a candidate whose log has the same
/// last term and more entries is granted too.
pub proof fn lemma_vote_longer_log(s: RaftView, req: RequestVote, longer: u64)
    requires
        spec_request_vote(s, req).1.granted,
        longer >= req.last_log_index.0,
    ensures
        spec_request_vote(s, RequestVote { last_log_index: LogIndex(longer), ..req }).1.granted,
{
    lemma_vote_rule(s, req);
    lemma_vote_rule(s, RequestVote { last_log_index: LogIndex(longer), ..req });
}

} // verus!
