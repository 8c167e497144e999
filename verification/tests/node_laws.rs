use rustyraftlab::raft::{
    Action, AppendEntries, AppendEntriesResponse, LogEntry, Message, ProposeError, RaftNode,
    RequestVote, RequestVoteResponse, Role,
};
use rustyraftlab::state_machine::Command;

fn entry(term: u64, command: Command) -> LogEntry {
    LogEntry {
        term,
        data: command.encode(),
    }
}

fn vote_request(term: u64, candidate_id: u64) -> RequestVote {
    RequestVote {
        term,
        candidate_id,
        last_log_index: 0,
        last_log_term: 0,
    }
}

fn leader_of(peers: Vec<u64>) -> RaftNode {
    let mut node = RaftNode::new(1, peers);
    node.start_election(0);
    let peers = node.peer_ids.clone();
    for peer in peers {
        if node.role == Role::Leader {
            break;
        }
        node.handle_request_vote_response(
            0,
            peer,
            RequestVoteResponse {
                term: node.term,
                vote_granted: true,
            },
        );
    }
    assert_eq!(node.role, Role::Leader);
    node
}

#[test]
fn new_node_starts_as_follower_with_sentinel_log() {
    let node = RaftNode::with_election_timeout(7, vec![8, 9], 90);
    assert_eq!(node.term, 0);
    assert_eq!(node.role, Role::Follower);
    assert_eq!(node.voted_for, None);
    assert_eq!(node.log, vec![LogEntry::sentinel()]);
    assert_eq!(node.last_log_index(), 0);
    assert_eq!(node.election_deadline, 90);
    assert_eq!(node.heartbeat_interval, 30);
    assert_eq!(RaftNode::with_election_timeout(1, vec![], 2).heartbeat_interval, 1);
    assert_eq!(RaftNode::new(1, vec![]).election_timeout, 150);
}

#[test]
fn log_term_at_is_zero_past_the_end() {
    let mut node = RaftNode::new(1, vec![]);
    node.log.push(entry(3, Command::set("a", "1")));
    assert_eq!(node.log_term_at(1), 3);
    assert_eq!(node.log_term_at(2), 0);
    assert_eq!(node.last_log_term(), 3);
}

#[test]
fn term_never_decreases_over_a_run_of_messages() {
    let mut node = RaftNode::new(1, vec![2, 3]);
    let mut last = node.term;
    let mut check = |node: &RaftNode| {
        assert!(node.term >= last);
        last = node.term;
    };
    node.handle_request_vote(0, vote_request(3, 2));
    check(&node);
    node.handle_request_vote(0, vote_request(1, 3));
    check(&node);
    node.handle_append_entries(
        0,
        AppendEntries {
            term: 2,
            leader_id: 3,
            prev_log_index: 0,
            prev_log_term: 0,
            entries: vec![],
            leader_commit_index: 0,
        },
    );
    check(&node);
    node.start_election(5);
    check(&node);
    assert_eq!(node.term, 4);
    node.handle_request_vote_response(5, 2, RequestVoteResponse { term: 1, vote_granted: true });
    check(&node);
    node.handle_append_entries_response(5, 2, AppendEntriesResponse { term: 9, success: false });
    check(&node);
    assert_eq!(node.term, 9);
    assert_eq!(node.role, Role::Follower);
}

#[test]
fn one_vote_per_term() {
    let mut node = RaftNode::new(1, vec![2, 3]);
    assert!(node.handle_request_vote(0, vote_request(1, 2)).vote_granted);
    assert_eq!(node.voted_for, Some(2));
    assert!(!node.handle_request_vote(0, vote_request(1, 3)).vote_granted);
    assert!(node.handle_request_vote(0, vote_request(1, 2)).vote_granted);
    assert_eq!(node.voted_for, Some(2));
    // A new term frees the vote.
    assert!(node.handle_request_vote(0, vote_request(2, 3)).vote_granted);
    assert_eq!(node.voted_for, Some(3));
}

#[test]
fn stale_request_vote_changes_nothing() {
    let mut node = RaftNode::new(1, vec![2]);
    node.term = 5;
    node.voted_for = Some(1);
    let deadline = node.election_deadline;
    let response = node.handle_request_vote(40, vote_request(4, 2));
    assert_eq!(response, RequestVoteResponse { term: 5, vote_granted: false });
    assert_eq!(node.voted_for, Some(1));
    assert_eq!(node.election_deadline, deadline);
}

#[test]
fn up_to_date_compares_last_term_then_index() {
    let mut node = RaftNode::new(1, vec![2]);
    node.log.push(entry(2, Command::set("a", "1")));
    node.log.push(entry(2, Command::set("b", "2")));
    let longer_older = RequestVote {
        term: 3,
        candidate_id: 2,
        last_log_index: 5,
        last_log_term: 1,
    };
    assert!(!node.handle_request_vote(0, longer_older).vote_granted);
    let shorter_newer = RequestVote {
        term: 3,
        candidate_id: 2,
        last_log_index: 1,
        last_log_term: 3,
    };
    assert!(node.handle_request_vote(0, shorter_newer).vote_granted);
}

#[test]
fn append_entries_with_mismatched_previous_term_fails_but_follows_leader() {
    let mut node = RaftNode::new(1, vec![2]);
    node.term = 1;
    node.role = Role::Candidate;
    let deadline = node.election_deadline;
    let response = node.handle_append_entries(
        20,
        AppendEntries {
            term: 1,
            leader_id: 2,
            prev_log_index: 3,
            prev_log_term: 1,
            entries: vec![entry(1, Command::set("a", "1"))],
            leader_commit_index: 0,
        },
    );
    assert_eq!(response, AppendEntriesResponse { term: 1, success: false });
    assert_eq!(node.role, Role::Follower);
    assert_eq!(node.term, 1);
    assert_eq!(node.log.len(), 1);
    assert_eq!(node.election_deadline, deadline);
}

#[test]
fn append_entries_keeps_matching_entries_and_appends_the_rest() {
    let mut node = RaftNode::new(1, vec![2]);
    node.log.push(entry(1, Command::set("a", "1")));
    node.log.push(entry(1, Command::set("b", "2")));
    let response = node.handle_append_entries(
        0,
        AppendEntries {
            term: 1,
            leader_id: 2,
            prev_log_index: 0,
            prev_log_term: 0,
            entries: vec![entry(1, Command::set("a", "1"))],
            leader_commit_index: 0,
        },
    );
    assert!(response.success);
    // A request that only repeats a prefix leaves later entries in place.
    assert_eq!(node.log.len(), 3);
    assert_eq!(node.log[2], entry(1, Command::set("b", "2")));
}

#[test]
fn commit_index_is_capped_by_the_log() {
    let mut node = RaftNode::new(1, vec![2]);
    let response = node.handle_append_entries(
        0,
        AppendEntries {
            term: 1,
            leader_id: 2,
            prev_log_index: 0,
            prev_log_term: 0,
            entries: vec![entry(1, Command::set("a", "1"))],
            leader_commit_index: 10,
        },
    );
    assert!(response.success);
    assert_eq!(node.commit_index, 1);
    assert_eq!(node.last_applied, 1);
    assert_eq!(node.state_machine.get("a"), Some("1"));
}

#[test]
fn leader_needs_a_majority_to_commit() {
    let mut leader = leader_of(vec![2, 3, 4, 5]);
    let actions = leader.propose_command(Command::set("x", "1")).unwrap();
    assert_eq!(actions.len(), 4);
    assert_eq!(leader.last_log_index(), 1);
    assert_eq!(leader.log[1].term, leader.term);

    let term = leader.term;
    leader.handle_append_entries_response(1, 2, AppendEntriesResponse { term, success: true });
    assert_eq!(leader.commit_index, 0);
    let actions =
        leader.handle_append_entries_response(1, 3, AppendEntriesResponse { term, success: true });
    assert_eq!(leader.commit_index, 1);
    assert_eq!(leader.last_applied, 1);
    assert!(matches!(
        &actions[0],
        Action::Apply { index: 1, command } if command == &Command::set("x", "1")
    ));
    // After the Apply come fresh AppendEntries for every peer.
    assert_eq!(actions.len(), 5);
}

#[test]
fn leader_does_not_commit_old_term_entries_by_counting() {
    let mut leader = RaftNode::new(1, vec![2, 3]);
    leader.log.push(entry(1, Command::set("old", "1")));
    leader.term = 1;
    leader.start_election(0);
    leader.handle_request_vote_response(0, 2, RequestVoteResponse { term: 2, vote_granted: true });
    assert_eq!(leader.role, Role::Leader);
    let term = leader.term;
    leader.match_index.insert(2, 0);
    leader.next_index.insert(2, 1);
    leader.handle_append_entries_response(1, 2, AppendEntriesResponse { term, success: true });
    // Index 1 holds an entry from term 1, not the leader's term 2.
    assert_eq!(leader.match_index.get(&2), Some(&1));
    assert_eq!(leader.commit_index, 0);
}

#[test]
fn failed_append_response_backs_off_and_retries() {
    let mut leader = leader_of(vec![2, 3]);
    leader.propose_command(Command::set("x", "1")).unwrap();
    let term = leader.term;
    assert_eq!(leader.next_index.get(&2), Some(&1));
    leader.handle_append_entries_response(1, 2, AppendEntriesResponse { term, success: true });
    assert_eq!(leader.next_index.get(&2), Some(&2));
    assert_eq!(leader.match_index.get(&2), Some(&1));
    let actions =
        leader.handle_append_entries_response(1, 2, AppendEntriesResponse { term, success: false });
    assert_eq!(leader.next_index.get(&2), Some(&1));
    assert_eq!(actions.len(), 1);
    match &actions[0] {
        Action::Send {
            to: 2,
            msg: Message::AppendEntries(request),
        } => {
            assert_eq!(request.prev_log_index, 0);
            assert_eq!(request.entries.len(), 1);
        }
        other => panic!("unexpected action {other:?}"),
    }
    // next_index never backs off below 1.
    leader.handle_append_entries_response(1, 2, AppendEntriesResponse { term, success: false });
    assert_eq!(leader.next_index.get(&2), Some(&1));
}

#[test]
fn responses_are_ignored_outside_their_role() {
    let mut node = RaftNode::new(1, vec![2]);
    let actions =
        node.handle_request_vote_response(0, 2, RequestVoteResponse { term: 0, vote_granted: true });
    assert!(actions.is_empty());
    assert_eq!(node.role, Role::Follower);
    let actions =
        node.handle_append_entries_response(0, 2, AppendEntriesResponse { term: 0, success: true });
    assert!(actions.is_empty());
    assert!(node.match_index.is_empty());
}

#[test]
fn propose_raw_bytes_requires_leadership() {
    let mut node = RaftNode::new(1, vec![]);
    assert_eq!(node.propose(vec![1, 2, 3]), Err(ProposeError::NotLeader));
    node.start_election(0);
    assert_eq!(node.role, Role::Leader);
    assert_eq!(node.propose(vec![1, 2, 3]), Ok(vec![]));
    assert_eq!(node.log.len(), 2);
}

#[test]
fn timers_fire_only_when_due() {
    let mut node = RaftNode::with_election_timeout(1, vec![2], 30);
    assert!(node.on_election_timeout(29).is_empty());
    assert_eq!(node.role, Role::Follower);
    assert!(!node.heartbeat_due(1000));
    assert!(node.on_heartbeat_tick(1000).is_empty());
    let actions = node.on_election_timeout(30);
    assert_eq!(actions.len(), 1);
    assert_eq!(node.election_deadline, 60);
}

#[test]
fn heartbeats_carry_commit_index_and_previous_entry() {
    let leader = leader_of(vec![2, 3]);
    let actions = leader.send_heartbeats();
    assert_eq!(actions, leader.replication_actions());
    assert_eq!(actions.len(), 2);
    match &actions[1] {
        Action::Send {
            to: 3,
            msg: Message::AppendEntries(request),
        } => {
            assert_eq!(request.term, leader.term);
            assert_eq!(request.leader_id, 1);
            assert_eq!(request.prev_log_index, 0);
            assert_eq!(request.prev_log_term, 0);
            assert!(request.entries.is_empty());
            assert_eq!(request.leader_commit_index, 0);
        }
        other => panic!("unexpected action {other:?}"),
    }
}

#[test]
fn leader_log_only_grows_while_it_leads() {
    let mut leader = leader_of(vec![2, 3]);
    let term = leader.term;
    let mut before = leader.log.clone();
    leader.propose_command(Command::set("a", "1")).unwrap();
    assert_eq!(leader.log[..before.len()], before[..]);
    before = leader.log.clone();
    leader.handle_append_entries_response(1, 2, AppendEntriesResponse { term, success: true });
    leader.handle_append_entries_response(1, 3, AppendEntriesResponse { term, success: false });
    leader.on_heartbeat_tick(1000);
    leader.handle_request_vote_response(1, 3, RequestVoteResponse { term, vote_granted: true });
    assert_eq!(leader.role, Role::Leader);
    assert_eq!(leader.log, before);
    leader.propose(vec![2, 0, 0, 0, 0]).unwrap();
    assert_eq!(leader.log[..before.len()], before[..]);
    assert_eq!(leader.log.len(), before.len() + 1);
}

#[test]
fn applied_commands_are_never_undone() {
    let mut node = RaftNode::new(1, vec![2]);
    node.handle_append_entries(
        0,
        AppendEntries {
            term: 1,
            leader_id: 2,
            prev_log_index: 0,
            prev_log_term: 0,
            entries: vec![entry(1, Command::set("a", "1")), entry(1, Command::set("b", "2"))],
            leader_commit_index: 2,
        },
    );
    let applied = node.state_machine.applied_commands().to_vec();
    assert_eq!(applied.len(), 2);
    // A later request replaces entry 2 in the log; what was applied stays applied.
    node.handle_append_entries(
        0,
        AppendEntries {
            term: 2,
            leader_id: 2,
            prev_log_index: 1,
            prev_log_term: 1,
            entries: vec![entry(2, Command::set("c", "3"))],
            leader_commit_index: 2,
        },
    );
    assert_eq!(node.log[2], entry(2, Command::set("c", "3")));
    assert_eq!(node.state_machine.applied_commands(), &applied[..]);
    assert_eq!(node.last_applied, 2);
}

#[test]
fn append_entries_past_the_log_end_is_refused() {
    let mut node = RaftNode::new(1, vec![2]);
    let response = node.handle_append_entries(
        0,
        AppendEntries {
            term: 1,
            leader_id: 2,
            prev_log_index: 5,
            prev_log_term: 0,
            entries: vec![entry(1, Command::set("a", "1"))],
            leader_commit_index: 0,
        },
    );
    assert_eq!(response, AppendEntriesResponse { term: 1, success: false });
    assert_eq!(node.log, vec![LogEntry::sentinel()]);
    assert_eq!(node.term, 1);
}

#[test]
fn one_append_entries_catches_a_follower_up() {
    let mut leader = leader_of(vec![2, 3]);
    leader.propose_command(Command::set("a", "1")).unwrap();
    leader.propose_command(Command::set("b", "2")).unwrap();
    let mut follower = RaftNode::new(2, vec![1, 3]);
    let request = leader
        .replication_actions()
        .into_iter()
        .find_map(|action| match action {
            Action::Send { to: 2, msg: Message::AppendEntries(request) } => Some(request),
            _ => None,
        })
        .expect("request for node 2");
    let response = follower.handle_append_entries(5, request);
    assert!(response.success);
    assert_eq!(follower.log, leader.log);
}
