use rustyraftlab::raft::Role;
use rustyraftlab::simulator::Simulator;
use rustyraftlab::state_machine::Command;

#[test]
fn new_cluster_has_no_leader_and_staggered_timeouts() {
    let sim = Simulator::new(&[3, 1, 2], 100);
    assert_eq!(sim.node_ids(), vec![1, 2, 3]);
    assert_eq!(sim.tick_count(), 0);
    assert!(sim.leaders().is_empty());
    assert!(!sim.has_stable_leader());
    assert_eq!(sim.node(1).election_timeout, 110);
    assert_eq!(sim.node(3).election_timeout, 130);
    assert_eq!(sim.node(2).peer_ids, vec![3, 1]);
}

#[test]
fn ticks_advance_the_clock() {
    let mut sim = Simulator::new(&[1, 2, 3], 150);
    sim.run_ticks(7);
    assert_eq!(sim.tick_count(), 7);
    sim.tick();
    assert_eq!(sim.tick_count(), 8);
}

#[test]
fn crashed_leader_is_not_counted_and_restart_keeps_log() {
    let mut sim = Simulator::new(&[1, 2, 3], 150);
    let leader = sim.run_until_leader(500).expect("leader elected");
    sim.propose_and_settle(leader, Command::set("a", "1"))
        .expect("proposal");
    let term = sim.node(leader).term;
    let log_len = sim.node(leader).log.len();

    sim.crash(leader);
    assert!(sim.is_crashed(leader));
    assert!(sim.leaders().is_empty());

    sim.restart(leader);
    assert!(!sim.is_crashed(leader));
    let node = sim.node(leader);
    assert_eq!(node.role, Role::Follower);
    assert_eq!(node.term, term);
    assert_eq!(node.log.len(), log_len);
    assert_eq!(node.commit_index, 0);
    assert_eq!(node.last_applied, 0);
    assert_eq!(node.state_machine.get("a"), None);

    sim.run_ticks(400);
    // A new leader commits the old entry once it commits one of its own term.
    let new_leader = sim.leaders()[0];
    sim.propose_and_settle(new_leader, Command::set("b", "2"))
        .expect("proposal under the new leader");
    for id in 1..=3 {
        assert_eq!(sim.node(id).state_machine.get("a"), Some("1"));
        assert_eq!(sim.node(id).state_machine.get("b"), Some("2"));
    }
}

#[test]
fn proposal_to_a_follower_is_rejected() {
    let mut sim = Simulator::new(&[1, 2, 3], 150);
    let leader = sim.run_until_leader(500).expect("leader elected");
    let follower = if leader == 1 { 2 } else { 1 };
    assert_eq!(
        sim.propose_command(follower, Command::set("x", "1")),
        Err(rustyraftlab::raft::ProposeError::NotLeader)
    );
    assert_eq!(sim.propose(follower, vec![9]), Err(rustyraftlab::raft::ProposeError::NotLeader));
}

#[test]
fn drop_every_zeroth_message_drops_nothing() {
    let mut sim = Simulator::new(&[1, 2, 3], 150);
    sim.set_drop_every_nth(Some(0));
    let leader = sim.run_until_leader(500).expect("leader elected");
    sim.propose_command(leader, Command::set("k", "v"))
        .expect("proposal");
    assert!(sim.cluster_state_matches());
    for id in 1..=3 {
        assert_eq!(sim.node(id).state_machine.get("k"), Some("v"));
    }
}

#[test]
fn message_delay_postpones_replication() {
    let mut sim = Simulator::new(&[1, 2, 3], 150);
    let leader = sim.run_until_leader(500).expect("leader elected");
    sim.set_message_delay(5);
    sim.propose_command(leader, Command::set("k", "v"))
        .expect("proposal");
    assert_eq!(sim.node(leader).commit_index, 0);
    sim.run_ticks(20);
    assert_eq!(sim.node(leader).commit_index, 1);
}

#[test]
fn partition_and_heal_are_symmetric() {
    let mut sim = Simulator::new(&[1, 2, 3], 150);
    sim.partition(2, 1);
    sim.partition(1, 3);
    sim.heal(1, 2);
    sim.heal(3, 1);
    let leader = sim.run_until_leader(500).expect("leader elected");
    assert_eq!(leader, 1);
}

#[test]
fn cluster_checks_hold_on_a_fresh_cluster() {
    let sim = Simulator::new(&[1, 2, 3], 150);
    assert!(sim.cluster_state_matches());
    assert!(sim.logs_satisfy_matching_property());
    assert!(sim.committed_prefix_matches());
}

#[test]
fn diverging_state_machines_are_detected() {
    let mut sim = Simulator::new(&[1, 2], 150);
    sim.node_mut(2).state_machine.apply(&Command::set("only", "here"));
    assert!(!sim.cluster_state_matches());
}

#[test]
fn diverging_logs_are_detected() {
    let mut sim = Simulator::new(&[1, 2], 150);
    sim.node_mut(1).log.push(rustyraftlab::raft::LogEntry {
        term: 1,
        data: Command::set("a", "1").encode(),
    });
    sim.node_mut(2).log.push(rustyraftlab::raft::LogEntry {
        term: 1,
        data: Command::set("a", "2").encode(),
    });
    assert!(!sim.logs_satisfy_matching_property());
    sim.node_mut(1).commit_index = 1;
    sim.node_mut(2).commit_index = 1;
    assert!(!sim.committed_prefix_matches());
}

fn assert_one_leader_per_term(sim: &Simulator) {
    let ids = sim.node_ids();
    for &a in &ids {
        for &b in &ids {
            let (na, nb) = (sim.node(a), sim.node(b));
            if a != b && na.role == Role::Leader && nb.role == Role::Leader {
                assert_ne!(na.term, nb.term, "nodes {a} and {b} lead the same term");
            }
        }
    }
}

#[test]
fn no_two_nodes_lead_the_same_term_under_faults() {
    let mut sim = Simulator::new(&[1, 2, 3, 4, 5], 150);
    let first = sim.run_until_leader(500).expect("leader elected");
    for other in sim.node_ids() {
        if other != first {
            sim.partition(first, other);
        }
    }
    for _ in 0..400 {
        sim.tick();
        assert_one_leader_per_term(&sim);
    }
    // The isolated old leader still believes it leads, in an older term.
    assert_eq!(sim.node(first).role, Role::Leader);
    assert_eq!(sim.leaders().len(), 2);
    for other in sim.node_ids() {
        sim.heal(first, other);
    }
    sim.set_message_delay(3);
    sim.set_drop_every_nth(Some(5));
    sim.crash(2);
    for _ in 0..600 {
        sim.tick();
        assert_one_leader_per_term(&sim);
    }
    sim.restart(2);
    for _ in 0..600 {
        sim.tick();
        assert_one_leader_per_term(&sim);
    }
}

fn assert_all_logs_match(sim: &Simulator) {
    let ids = sim.node_ids();
    for &a in &ids {
        for &b in &ids {
            let (la, lb) = (&sim.node(a).log, &sim.node(b).log);
            for i in 0..la.len().min(lb.len()) {
                if la[i].term == lb[i].term {
                    assert_eq!(la[..=i], lb[..=i], "logs of {a} and {b} differ up to index {i}");
                }
            }
        }
    }
}

fn assert_leaders_hold_their_entries(sim: &Simulator) {
    let ids = sim.node_ids();
    for &a in &ids {
        let leader = sim.node(a);
        if leader.role != Role::Leader {
            continue;
        }
        for &b in &ids {
            let log = &sim.node(b).log;
            for i in 0..log.len() {
                if log[i].term == leader.term {
                    assert!(i < leader.log.len(), "leader {a} lacks entry {i} of its term held by {b}");
                    assert_eq!(leader.log[..=i], log[..=i]);
                }
            }
        }
    }
}

#[test]
fn logs_match_under_partitions_crashes_and_delays() {
    let mut sim = Simulator::new(&[1, 2, 3, 4, 5], 150);
    let first = sim.run_until_leader(500).expect("leader elected");
    for round in 0..6u64 {
        let leaders = sim.leaders();
        if let Some(&leader) = leaders.last() {
            let _ = sim.propose_command(leader, Command::set(format!("r{round}"), "v"));
        }
        assert_all_logs_match(&sim);
        match round {
            1 => {
                sim.partition(first, 2);
                sim.partition(first, 3);
            }
            2 => {
                sim.set_message_delay(4);
                sim.set_drop_every_nth(Some(3));
            }
            3 => {
                sim.heal(first, 2);
                sim.heal(first, 3);
                sim.crash(4);
            }
            4 => sim.restart(4),
            _ => {}
        }
        for _ in 0..200 {
            sim.tick();
            assert_all_logs_match(&sim);
            assert_leaders_hold_their_entries(&sim);
        }
    }
    assert!(sim.logs_satisfy_matching_property());
}

// A successful AppendEntries response does not say how far it acknowledges, and the
// leader counts it as matching its whole current log. When a response is still in
// flight while the leader appends a new entry (possible only with a message delay),
// the leader commits an entry that no majority stores, and a later leader commits a
// different entry at that index.
#[test]
fn delayed_acknowledgement_can_commit_an_entry_a_majority_lacks() {
    let mut sim = Simulator::new(&[1, 2, 3], 150);
    let leader = sim.run_until_leader(500).expect("leader elected");
    assert_eq!(leader, 1);
    sim.propose_command(leader, Command::set("a", "1")).expect("proposal");
    sim.run_ticks(60);
    let (f, g) = (2, 3);
    sim.partition(leader, g);
    sim.set_message_delay(5);
    while !sim.node(leader).heartbeat_due(sim.tick_count() + 1) {
        sim.tick();
    }
    sim.tick();
    sim.run_ticks(2);
    sim.propose_command(leader, Command::set("k", "stale")).expect("proposal");
    sim.run_ticks(3);
    sim.partition(leader, f);
    sim.run_ticks(3);
    sim.heal(leader, f);
    sim.run_ticks(3);
    assert_eq!(sim.node(leader).commit_index, 2);
    assert_eq!(sim.node(f).last_log_index(), 1);
    assert_eq!(sim.node(g).last_log_index(), 1);

    sim.partition(leader, f);
    sim.set_message_delay(0);
    sim.run_ticks(400);
    let other = *sim.leaders().iter().find(|&&l| l != leader).expect("new leader");
    sim.propose_command(other, Command::set("k", "new")).expect("proposal");
    sim.run_ticks(60);
    assert_eq!(sim.node(leader).state_machine.get("k"), Some("stale"));
    assert_eq!(sim.node(f).state_machine.get("k"), Some("new"));
    assert!(!sim.committed_prefix_matches());
    assert!(!sim.cluster_state_matches());
    // Election safety and log matching still hold.
    assert!(sim.logs_satisfy_matching_property());
}
