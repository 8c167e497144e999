use rustyraftlab::raft::{
    AppendEntries, AppendEntriesResponse, LogEntry, RaftNode, RequestVote, RequestVoteResponse,
    Role,
};
use rustyraftlab::simulator::Simulator;
use rustyraftlab::state_machine::Command;

fn entry(term: u64, key: &str) -> LogEntry {
    LogEntry {
        term,
        data: Command::set(key, "v").encode(),
    }
}

fn leader_of(peers: Vec<u64>) -> RaftNode {
    let mut node = RaftNode::new(1, peers);
    node.start_election(0);
    let term = node.term;
    node.handle_request_vote_response(0, 2, RequestVoteResponse { term, vote_granted: true });
    assert_eq!(node.role, Role::Leader);
    node
}

#[test]
fn request_vote_in_a_newer_term_resets_the_node_and_grants() {
    let mut node = RaftNode::new(1, vec![2, 3]);
    node.term = 1;
    node.voted_for = Some(3);
    node.role = Role::Candidate;
    node.votes_granted.insert(1);
    let response = node.handle_request_vote(
        40,
        RequestVote { term: 2, candidate_id: 2, last_log_index: 0, last_log_term: 0 },
    );
    assert_eq!(response, RequestVoteResponse { term: 2, vote_granted: true });
    assert_eq!(node.term, 2);
    assert_eq!(node.voted_for, Some(2));
    assert_eq!(node.role, Role::Follower);
    assert!(node.votes_granted.is_empty());
    assert_eq!(node.election_deadline, 40 + node.election_timeout);
    assert_eq!(node.log, vec![LogEntry::sentinel()]);
}

#[test]
fn request_vote_from_a_shorter_log_forgets_the_old_vote_but_refuses() {
    let mut node = RaftNode::new(1, vec![2, 3]);
    node.term = 1;
    node.voted_for = Some(3);
    node.log.push(entry(1, "a"));
    let response = node.handle_request_vote(
        5,
        RequestVote { term: 2, candidate_id: 2, last_log_index: 0, last_log_term: 0 },
    );
    assert_eq!(response, RequestVoteResponse { term: 2, vote_granted: false });
    assert_eq!(node.term, 2);
    assert_eq!(node.voted_for, None);
    assert_eq!(node.election_deadline, 5 + node.election_timeout);
}

#[test]
fn vote_for_another_candidate_of_the_same_term_is_refused() {
    let mut node = RaftNode::new(1, vec![2, 3]);
    node.term = 4;
    node.voted_for = Some(3);
    let response = node.handle_request_vote(
        0,
        RequestVote { term: 4, candidate_id: 2, last_log_index: 9, last_log_term: 9 },
    );
    assert_eq!(response, RequestVoteResponse { term: 4, vote_granted: false });
    assert_eq!(node.term, 4);
    assert_eq!(node.voted_for, Some(3));
}

#[test]
fn conflicting_entry_cuts_the_log_after_the_request() {
    let mut node = RaftNode::new(1, vec![2]);
    node.log.push(entry(1, "a"));
    node.log.push(entry(1, "b"));
    node.log.push(entry(1, "c"));
    let response = node.handle_append_entries(
        0,
        AppendEntries {
            term: 2,
            leader_id: 2,
            prev_log_index: 1,
            prev_log_term: 1,
            entries: vec![entry(2, "x")],
            leader_commit_index: 0,
        },
    );
    assert!(response.success);
    assert_eq!(node.log.len(), 3);
    assert_eq!(node.log[1], entry(1, "a"));
    assert_eq!(node.log[2], entry(2, "x"));
}

#[test]
fn entries_past_the_log_extend_it() {
    let mut node = RaftNode::new(1, vec![2]);
    node.log.push(entry(1, "a"));
    let response = node.handle_append_entries(
        0,
        AppendEntries {
            term: 1,
            leader_id: 2,
            prev_log_index: 1,
            prev_log_term: 1,
            entries: vec![entry(1, "b"), entry(1, "c")],
            leader_commit_index: 0,
        },
    );
    assert!(response.success);
    assert_eq!(node.log.len(), 4);
    assert_eq!(node.log[0], LogEntry::sentinel());
    assert_eq!(node.log[3], entry(1, "c"));
}

#[test]
fn refused_append_entries_of_a_newer_term_still_moves_the_term() {
    let mut node = RaftNode::new(1, vec![2]);
    node.term = 1;
    node.voted_for = Some(1);
    let response = node.handle_append_entries(
        30,
        AppendEntries {
            term: 3,
            leader_id: 2,
            prev_log_index: 4,
            prev_log_term: 2,
            entries: vec![],
            leader_commit_index: 0,
        },
    );
    assert_eq!(response, AppendEntriesResponse { term: 3, success: false });
    assert_eq!(node.term, 3);
    assert_eq!(node.voted_for, None);
    assert_eq!(node.role, Role::Follower);
    assert_eq!(node.election_deadline, 30 + node.election_timeout);
}

#[test]
fn append_response_of_a_newer_term_makes_the_leader_follow() {
    let mut leader = leader_of(vec![2, 3]);
    let term = leader.term;
    let actions = leader.handle_append_entries_response(
        12,
        3,
        AppendEntriesResponse { term: term + 1, success: false },
    );
    assert!(actions.is_empty());
    assert_eq!(leader.term, term + 1);
    assert_eq!(leader.role, Role::Follower);
    assert_eq!(leader.voted_for, None);
    assert!(leader.next_index.is_empty());
    assert!(leader.match_index.is_empty());
    assert_eq!(leader.election_deadline, 12 + leader.election_timeout);
}

#[test]
fn successful_proposal_adds_one_entry_and_keeps_the_clock() {
    let mut sim = Simulator::new(&[1, 2, 3], 150);
    let leader = sim.run_until_leader(500).expect("leader elected");
    let before = sim.node(leader).log.len();
    let tick = sim.tick_count();
    let term = sim.node(leader).term;
    let data = Command::set("k", "v").encode();
    assert_eq!(sim.propose(leader, data.clone()), Ok(()));
    assert_eq!(sim.tick_count(), tick);
    assert_eq!(sim.node(leader).log.len(), before + 1);
    assert_eq!(sim.node(leader).log[before], LogEntry { term, data });
}

#[test]
fn string_slice_constructors_build_the_same_commands() {
    assert_eq!(Command::set_str("k", "v"), Command::set("k", "v"));
    assert_eq!(Command::delete_str("k"), Command::delete("k"));
    assert_eq!(
        Command::set_str("k", "v"),
        Command::Put { key: "k".to_string(), value: "v".to_string() }
    );
}

#[test]
fn a_fault_free_run_never_has_two_live_leaders() {
    let mut sim = Simulator::new(&[1, 2, 3, 4, 5], 40);
    for round in 0..1500u64 {
        sim.tick();
        assert!(sim.leaders().len() <= 1, "two leaders at tick {}", sim.tick_count());
        if round % 97 == 0 {
            if let Some(&leader) = sim.leaders().first() {
                let key = format!("k{round}");
                sim.propose(leader, Command::set(key.as_str(), "v").encode()).unwrap();
                assert!(sim.leaders().len() <= 1);
            }
        }
    }
    assert!(sim.leaders().len() == 1);
}
