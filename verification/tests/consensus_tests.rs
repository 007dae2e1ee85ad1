use exchange_core::command::{NewOrder, OrderCommand, OrderSide};
use exchange_core::consensus::{
    AppendEntries, AppendResponse, ConsensusError, LogEntry, LogIndex, NodeId, RaftAction, RaftNode, RequestVote, Role,
    Term, VoteResponse,
};
use exchange_core::order::ClientOrderId;

fn members() -> Vec<NodeId> {
    vec![NodeId(1), NodeId(2), NodeId(3)]
}

fn command(id: u64) -> OrderCommand {
    OrderCommand::New(NewOrder {
        client_order_id: ClientOrderId(id),
        account_id: 1,
        instrument_id: 0,
        side: OrderSide::Buy,
        price: 100,
        quantity: 1,
        client_timestamp: id,
    })
}

#[test]
fn election_requires_majority_and_fences_stale_vote() {
    let mut leader = RaftNode::new(NodeId(1), members(), 3, 1).unwrap();
    let actions = leader.start_election();
    assert_eq!(leader.role(), Role::Candidate);
    assert_eq!(actions.len(), 2);
    let response = VoteResponse { term: leader.term(), voter_id: NodeId(2), granted: true };
    let actions = leader.handle_vote_response(response).unwrap();
    assert_eq!(leader.role(), Role::Leader);
    assert_eq!(actions.len(), 2);
    let stale = leader.handle_vote_response(VoteResponse { term: Term(0), voter_id: NodeId(3), granted: true });
    assert_eq!(stale, Err(ConsensusError::StaleTerm));
}

#[test]
fn follower_rejects_stale_leader_and_accepts_current_log() {
    let mut follower = RaftNode::new(NodeId(2), members(), 3, 1).unwrap();
    follower.start_election();
    let response = follower
        .handle_append_entries(AppendEntries {
            term: Term(0),
            leader_id: NodeId(1),
            prev_log_index: LogIndex(0),
            prev_log_term: Term(0),
            entries: Vec::new(),
            leader_commit: LogIndex(0),
        })
        .unwrap();
    assert!(!response.success);
    let response = follower
        .handle_append_entries(AppendEntries {
            term: Term(1),
            leader_id: NodeId(1),
            prev_log_index: LogIndex(0),
            prev_log_term: Term(0),
            entries: vec![LogEntry { index: LogIndex(1), term: Term(1), command: command(1) }],
            leader_commit: LogIndex(1),
        })
        .unwrap();
    assert!(response.success);
    assert_eq!(follower.commit_index(), LogIndex(1));
    assert_eq!(follower.take_committed(), vec![command(1)]);
}

#[test]
fn leader_replicates_and_commits_on_majority() {
    let mut leader = RaftNode::new(NodeId(1), members(), 3, 1).unwrap();
    leader.start_election();
    leader.handle_vote_response(VoteResponse { term: Term(1), voter_id: NodeId(2), granted: true }).unwrap();
    assert_eq!(leader.role(), Role::Leader);
    let actions = leader.propose(command(9)).unwrap();
    assert_eq!(actions.len(), 2);
    let append_to_two = match &actions[0] {
        RaftAction::AppendEntries { request, .. } => request.clone(),
        _ => unreachable!(),
    };
    let response = AppendResponse {
        term: Term(1),
        follower_id: NodeId(2),
        success: true,
        match_index: append_to_two.entries.last().unwrap().index,
    };
    leader.handle_append_response(NodeId(2), response).unwrap();
    assert_eq!(leader.commit_index(), LogIndex(1));
    assert_eq!(leader.take_committed(), vec![command(9)]);
}

#[test]
fn conflicting_suffix_is_replaced() {
    let mut follower = RaftNode::new(NodeId(2), members(), 3, 1).unwrap();
    let old = LogEntry { index: LogIndex(1), term: Term(1), command: command(1) };
    follower
        .handle_append_entries(AppendEntries {
            term: Term(1),
            leader_id: NodeId(1),
            prev_log_index: LogIndex(0),
            prev_log_term: Term(0),
            entries: vec![old],
            leader_commit: LogIndex(0),
        })
        .unwrap();
    let replacement = LogEntry { index: LogIndex(1), term: Term(2), command: command(2) };
    follower
        .handle_append_entries(AppendEntries {
            term: Term(2),
            leader_id: NodeId(1),
            prev_log_index: LogIndex(0),
            prev_log_term: Term(0),
            entries: vec![replacement],
            leader_commit: LogIndex(0),
        })
        .unwrap();
    assert_eq!(follower.log()[0].command, command(2));
    assert_eq!(follower.log()[0].term, Term(2));
}

#[test]
fn candidate_steps_down_on_higher_term() {
    let mut node = RaftNode::new(NodeId(1), members(), 3, 1).unwrap();
    node.start_election();
    let actions = node.handle_vote_response(VoteResponse { term: Term(2), voter_id: NodeId(2), granted: false }).unwrap();
    assert!(actions.is_empty());
    assert_eq!(node.role(), Role::Follower);
    assert_eq!(node.term(), Term(2));
}

#[test]
fn membership_must_be_odd_and_include_the_node() {
    assert_eq!(RaftNode::new(NodeId(1), vec![NodeId(1), NodeId(2)], 3, 1).err(), Some(ConsensusError::InvalidMembership));
    assert_eq!(RaftNode::new(NodeId(4), members(), 3, 1).err(), Some(ConsensusError::InvalidMembership));
    assert_eq!(RaftNode::new(NodeId(1), members(), 0, 1).err(), Some(ConsensusError::InvalidMembership));
    let node = RaftNode::new(NodeId(2), vec![NodeId(3), NodeId(1), NodeId(2), NodeId(3)], 3, 1).unwrap();
    assert_eq!(node.majority(), 2);
    assert_eq!(node.id(), NodeId(2));
    assert_eq!(node.last_log_index(), LogIndex(0));
    assert_eq!(node.last_log_term(), Term(0));
    assert_eq!(node.leader_id(), None);
    assert_eq!(node.last_applied(), LogIndex(0));
}

#[test]
fn ticks_start_elections_and_leaders_heartbeat() {
    let mut node = RaftNode::new(NodeId(1), members(), 2, 1).unwrap();
    assert!(node.tick().is_empty());
    let votes = node.tick();
    assert_eq!(votes.len(), 2);
    assert_eq!(node.role(), Role::Candidate);
    assert_eq!(node.term(), Term(1));
    assert!(matches!(votes[0], RaftAction::RequestVote { to: NodeId(2), request: RequestVote { term: Term(1), .. } }));
    node.handle_vote_response(VoteResponse { term: Term(1), voter_id: NodeId(3), granted: true }).unwrap();
    assert_eq!(node.leader_id(), Some(NodeId(1)));
    let beats = node.tick();
    assert_eq!(beats.len(), 2);
    assert_eq!(node.propose(command(5)).map(|a| a.len()), Ok(2));
    let mut follower = RaftNode::new(NodeId(2), members(), 2, 1).unwrap();
    assert_eq!(follower.propose(command(5)).err(), Some(ConsensusError::NotLeader { leader: None }));
}

#[test]
fn votes_go_once_per_term_to_up_to_date_candidates() {
    let mut voter = RaftNode::new(NodeId(3), members(), 3, 1).unwrap();
    let ask = |c: u64, term: u64| RequestVote {
        term: Term(term),
        candidate_id: NodeId(c),
        last_log_index: LogIndex(0),
        last_log_term: Term(0),
    };
    assert!(voter.handle_request_vote(ask(1, 1)).granted);
    assert!(!voter.handle_request_vote(ask(2, 1)).granted);
    assert!(voter.handle_request_vote(ask(1, 1)).granted);
    let stale = voter.handle_request_vote(ask(2, 0));
    assert!(!stale.granted);
    assert_eq!(stale.term, Term(1));
    assert!(voter.handle_request_vote(ask(2, 2)).granted);
    assert_eq!(voter.term(), Term(2));
}

#[test]
fn refused_append_steps_the_peer_back_and_retries() {
    let mut leader = RaftNode::new(NodeId(1), members(), 3, 1).unwrap();
    leader.start_election();
    leader.handle_vote_response(VoteResponse { term: Term(1), voter_id: NodeId(2), granted: true }).unwrap();
    leader.propose(command(1)).unwrap();
    leader.propose(command(2)).unwrap();
    let retry = leader
        .handle_append_response(NodeId(3), AppendResponse { term: Term(1), follower_id: NodeId(3), success: false, match_index: LogIndex(0) })
        .unwrap();
    assert_eq!(retry.len(), 1);
    match &retry[0] {
        RaftAction::AppendEntries { to, request } => {
            assert_eq!(*to, NodeId(3));
            assert_eq!(request.prev_log_index, LogIndex(0));
            assert_eq!(request.entries.len(), 2);
        },
        _ => unreachable!(),
    }
    assert_eq!(
        leader.handle_append_response(NodeId(3), AppendResponse { term: Term(0), follower_id: NodeId(3), success: true, match_index: LogIndex(0) }),
        Err(ConsensusError::StaleTerm)
    );
}
