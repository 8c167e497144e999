//! The executable Raft node operations, each proved to follow `model`.

use super::model::{
    advance_commit_step, append_entries_for, append_entries_ok, append_entries_step,
    append_response_ok, append_response_step, apply_step, become_candidate, become_follower,
    become_leader, can_apply, election_ok, election_timed_out, election_timeout_step,
    election_timer_reset, has_majority, heartbeat_due, heartbeat_step, highest_committable,
    initial, replicated, committable, assign_peers, new_commands, apply_actions, vote_request, last_index, last_term, merge_entries, propose_step, replication_actions,
    request_vote_actions, request_vote_step, term_at, up_to_date, vote_response_step,
};
use super::{
    lemma_entries_view_index, lemma_entries_view_add_take, lemma_actions_view_push, lemma_entries_view_push, actions_view, entries_view, Action, AppendEntries, AppendEntriesResponse, LogEntry, Message,
    ProposeError, RaftNode, RequestVote, RequestVoteResponse, Role,
};
use crate::state_machine::{copy_bytes, decoded, decodes, encode_spec, Command, StateMachine};
use std::collections::{HashMap, HashSet};
use vstd::prelude::*;

verus! {

broadcast use vstd::std_specs::hash::group_hash_axioms;

impl Clone for LogEntry {
    fn clone(&self) -> (r: Self)
        ensures
            r@ == self@,
    {
        LogEntry { term: self.term, data: copy_bytes(self.data.as_slice()) }
    }
}

/// A copy of a map from node ids to log indices.
fn copy_index_map(m: &HashMap<u64, u64>) -> (r: HashMap<u64, u64>)
    ensures
        r@ == m@,
{
    let mut r: HashMap<u64, u64> = HashMap::new();
    let ghost gm = m@;
    for k in it: m.keys()
        invariant
            gm == m@,
            it.seq().unref().to_set() == gm.dom(),
            forall|x: u64| #[trigger] r@.contains_key(x) <==> it.seq().unref().take(it.index()).contains(x),
            forall|x: u64| r@.contains_key(x) ==> r@[x] == gm[x],
            it.index() == it.seq().len() ==> (forall|x: u64| #[trigger] r@.contains_key(x) <==> gm.dom().contains(x)),
    {
        let ghost i = it.index();
        let ghost key = it.seq().unref()[i];
        assert(*k == key);
        assert(it.seq().unref().to_set().contains(key));
        let v = *m.get(k).unwrap();
        r.insert(*k, v);
        proof {
            assert forall|x: u64|
                it.seq().unref().take(i + 1).contains(x) <==> (it.seq().unref().take(i).contains(x)
                    || x == key) by {
                if it.seq().unref().take(i + 1).contains(x) && x != key {
                    let y = choose|y: int| 0 <= y < i + 1 && #[trigger] it.seq().unref().take(i + 1)[y] == x;
                    assert(it.seq().unref().take(i)[y] == x);
                }
                if it.seq().unref().take(i).contains(x) {
                    let y = choose|y: int| 0 <= y < i && #[trigger] it.seq().unref().take(i)[y] == x;
                    assert(it.seq().unref().take(i + 1)[y] == x);
                }
                if x == key {
                    assert(it.seq().unref().take(i + 1)[i] == x);
                }
            }
            assert(i + 1 == it.seq().len() ==> it.seq().unref().take(i + 1) =~= it.seq().unref());
            assert forall|x: u64| i + 1 == it.seq().len() implies (#[trigger] r@.contains_key(x)
                <==> gm.dom().contains(x)) by {
                if gm.dom().contains(x) {
                    assert(it.seq().unref().to_set().contains(x));
                }
            }
        }
    }
    proof {
        assert(r@ =~= gm);
    }
    r
}

/// A copy of a set of node ids.
fn copy_id_set(m: &HashSet<u64>) -> (r: HashSet<u64>)
    ensures
        r@ == m@,
{
    let mut r: HashSet<u64> = HashSet::new();
    let ghost gm = m@;
    for k in it: m.iter()
        invariant
            gm == m@,
            it.seq().unref().to_set() == gm,
            forall|x: u64| #[trigger] r@.contains(x) <==> it.seq().unref().take(it.index()).contains(x),
            it.index() == it.seq().len() ==> (forall|x: u64| #[trigger] r@.contains(x) <==> gm.contains(x)),
    {
        let ghost i = it.index();
        let ghost key = it.seq().unref()[i];
        assert(*k == key);
        r.insert(*k);
        proof {
            assert forall|x: u64|
                it.seq().unref().take(i + 1).contains(x) <==> (it.seq().unref().take(i).contains(x)
                    || x == key) by {
                if it.seq().unref().take(i + 1).contains(x) && x != key {
                    let y = choose|y: int| 0 <= y < i + 1 && #[trigger] it.seq().unref().take(i + 1)[y] == x;
                    assert(it.seq().unref().take(i)[y] == x);
                }
                if it.seq().unref().take(i).contains(x) {
                    let y = choose|y: int| 0 <= y < i && #[trigger] it.seq().unref().take(i)[y] == x;
                    assert(it.seq().unref().take(i + 1)[y] == x);
                }
                if x == key {
                    assert(it.seq().unref().take(i + 1)[i] == x);
                }
            }
            assert(i + 1 == it.seq().len() ==> it.seq().unref().take(i + 1) =~= it.seq().unref());
            assert forall|x: u64| i + 1 == it.seq().len() implies (#[trigger] r@.contains(x)
                <==> gm.contains(x)) by {
                if gm.contains(x) {
                    assert(it.seq().unref().to_set().contains(x));
                }
            }
        }
    }
    proof {
        assert(r@ =~= gm);
    }
    r
}

impl Clone for RaftNode {
    /// A node in the same state.
    fn clone(&self) -> (r: Self)
        ensures
            r@ == self@,
    {
        let log = copy_entries_from(&self.log, 0);
        let mut peer_ids: Vec<u64> = Vec::new();
        let mut i: usize = 0;
        while i < self.peer_ids.len()
            invariant
                i <= self.peer_ids@.len(),
                peer_ids@ == self.peer_ids@.take(i as int),
            decreases self.peer_ids@.len() - i,
        {
            peer_ids.push(self.peer_ids[i]);
            i = i + 1;
            assert(peer_ids@ =~= self.peer_ids@.take(i as int));
        }
        assert(peer_ids@ =~= self.peer_ids@);
        assert(entries_view(self.log@).skip(0) =~= entries_view(self.log@));
        RaftNode {
            id: self.id,
            term: self.term,
            role: self.role,
            voted_for: self.voted_for,
            log,
            commit_index: self.commit_index,
            last_applied: self.last_applied,
            next_index: copy_index_map(&self.next_index),
            match_index: copy_index_map(&self.match_index),
            peer_ids,
            election_timeout: self.election_timeout,
            election_deadline: self.election_deadline,
            votes_granted: copy_id_set(&self.votes_granted),
            heartbeat_interval: self.heartbeat_interval,
            heartbeat_deadline: self.heartbeat_deadline,
            state_machine: self.state_machine.clone(),
        }
    }
}

/// Copies of the entries of `src` from position `from` on.
fn copy_entries_from(src: &Vec<LogEntry>, from: usize) -> (r: Vec<LogEntry>)
    requires
        from <= src@.len(),
    ensures
        entries_view(r@) == entries_view(src@).skip(from as int),
{
    let mut r: Vec<LogEntry> = Vec::new();
    let mut j: usize = from;
    while j < src.len()
        invariant
            from <= j <= src@.len(),
            entries_view(r@) == entries_view(src@).subrange(from as int, j as int),
        decreases src@.len() - j,
    {
        let e = src[j].clone();
        assert(e@ == src@[j as int]@);
        let ghost r0 = r@;
        r.push(e);
        j = j + 1;
        proof {
            lemma_entries_view_push(r0, e);
            assert(entries_view(src@).subrange(from as int, j as int) =~= entries_view(src@).subrange(
                from as int,
                j - 1,
            ).push(entries_view(src@)[j - 1]));
        }
    }
    assert(entries_view(src@).subrange(from as int, j as int) =~= entries_view(src@).skip(
        from as int,
    ));
    r
}

impl Clone for AppendEntries {
    fn clone(&self) -> (r: Self)
        ensures
            r@ == self@,
    {
        AppendEntries {
            term: self.term,
            leader_id: self.leader_id,
            prev_log_index: self.prev_log_index,
            prev_log_term: self.prev_log_term,
            entries: {
                let e = copy_entries_from(&self.entries, 0);
                assert(entries_view(self.entries@).skip(0) =~= entries_view(self.entries@));
                e
            },
            leader_commit_index: self.leader_commit_index,
        }
    }
}

impl Clone for Message {
    fn clone(&self) -> (r: Self)
        ensures
            r@ == self@,
    {
        match self {
            Message::RequestVote(m) => Message::RequestVote(*m),
            Message::AppendEntries(m) => Message::AppendEntries(m.clone()),
            Message::RequestVoteResponse(m) => Message::RequestVoteResponse(*m),
            Message::AppendEntriesResponse(m) => Message::AppendEntriesResponse(*m),
        }
    }
}

impl Clone for Action {
    fn clone(&self) -> (r: Self)
        ensures
            r@ == self@,
    {
        match self {
            Action::Send { to, msg } => Action::Send { to: *to, msg: msg.clone() },
            Action::Apply { index, command } => Action::Apply { index: *index, command: command.clone() },
        }
    }
}

impl LogEntry {
    /// Sentinel entry at Raft index 0; never committed or applied.
    pub fn sentinel() -> (e: Self)
        ensures
            e@ == (super::LogEntryView { term: 0, data: Seq::empty() }),
    {
        Self { term: 0, data: Vec::new() }
    }
}

/// The value of a proposal's result.
pub open spec fn propose_result_view(r: Result<Vec<Action>, ProposeError>) -> Result<
    Seq<super::ActionView>,
    ProposeError,
> {
    match r {
        Ok(a) => Ok(actions_view(a@)),
        Err(e) => Err(e),
    }
}

impl RaftNode {
    /// A follower with the default election timeout of 150 ticks.
    pub fn new(id: u64, peer_ids: Vec<u64>) -> (n: Self)
        ensures
            n@ == initial(id, peer_ids@, 150),
    {
        Self::with_election_timeout(id, peer_ids, 150)
    }

    /// A follower in term 0 with only the sentinel entry, whose heartbeat interval is
    /// a third of the election timeout (at least 1) and whose election timer runs
    /// from tick 0.
    pub fn with_election_timeout(id: u64, peer_ids: Vec<u64>, election_timeout: u64) -> (n: Self)
        ensures
            n@ == initial(id, peer_ids@, election_timeout),
    {
        let heartbeat_interval = if election_timeout / 3 >= 1 {
            election_timeout / 3
        } else {
            1
        };
        let mut log: Vec<LogEntry> = Vec::new();
        log.push(LogEntry::sentinel());
        let mut node = Self {
            id,
            term: 0,
            role: Role::Follower,
            voted_for: None,
            log,
            commit_index: 0,
            last_applied: 0,
            next_index: HashMap::new(),
            match_index: HashMap::new(),
            peer_ids,
            election_timeout,
            election_deadline: 0,
            votes_granted: HashSet::new(),
            heartbeat_interval,
            heartbeat_deadline: 0,
            state_machine: StateMachine::new(),
        };
        node.reset_election_timer(0);
        assert(node@.log =~= initial(id, peer_ids@, election_timeout).log);
        node
    }

    /// Raft index of the last log entry.
    pub fn last_log_index(&self) -> (r: u64)
        ensures
            r == last_index(self@.log),
            r < u64::MAX,
    {
        let len: usize = self.log.len();
        if self.log.len() == 0 {
            0
        } else {
            (self.log.len() - 1) as u64
        }
    }

    /// A log index known to be in range, as a `usize`.
    fn log_position(&self, index: u64) -> (r: usize)
        requires
            index <= self.log@.len(),
        ensures
            r == index,
    {
        let len: usize = self.log.len();
        index as usize
    }

    /// Term of the last log entry.
    pub fn last_log_term(&self) -> (r: u64)
        ensures
            r == last_term(self@.log),
    {
        self.log_term_at(self.last_log_index())
    }

    /// Term of the log entry at the given Raft index.
    pub fn log_term_at(&self, index: u64) -> (r: u64)
        ensures
            r == term_at(self@.log, index),
    {
        if index < self.log.len() as u64 {
            self.log[index as usize].term
        } else {
            0
        }
    }

    /// Returns true if a follower/candidate should start an election at `now`.
    pub fn election_timed_out(&self, now: u64) -> (r: bool)
        ensures
            r == election_timed_out(self@, now),
    {
        self.role != Role::Leader && now >= self.election_deadline
    }

    /// Start an election after the timer fires. Returns outbound actions for the simulator.
    pub fn on_election_timeout(&mut self, now: u64) -> (r: Vec<Action>)
        requires
            election_timed_out(old(self)@, now) ==> election_ok(old(self)@, now),
        ensures
            (final(self)@, actions_view(r@)) == election_timeout_step(old(self)@, now),
    {
        if !self.election_timed_out(now) {
            let r = Vec::new();
            assert(actions_view(r@) =~= Seq::empty());
            return r;
        }
        self.start_election(now)
    }

    /// Returns true if the leader should send heartbeats at `now`.
    pub fn heartbeat_due(&self, now: u64) -> (r: bool)
        ensures
            r == heartbeat_due(self@, now),
    {
        self.role == Role::Leader && now >= self.heartbeat_deadline
    }

    /// Send periodic heartbeats when due. Returns outbound actions for the simulator.
    pub fn on_heartbeat_tick(&mut self, now: u64) -> (r: Vec<Action>)
        requires
            heartbeat_due(old(self)@, now) ==> now + old(self).heartbeat_interval <= u64::MAX,
        ensures
            (final(self)@, actions_view(r@)) == heartbeat_step(old(self)@, now),
    {
        if !self.heartbeat_due(now) {
            let r = Vec::new();
            assert(actions_view(r@) =~= Seq::empty());
            return r;
        }
        self.reset_heartbeat_timer(now);
        self.send_heartbeats()
    }

    /// Transition to candidate, request votes, and become leader immediately if alone in the cluster.
    pub fn start_election(&mut self, now: u64) -> (r: Vec<Action>)
        requires
            election_ok(old(self)@, now),
        ensures
            (final(self)@, actions_view(r@)) == become_candidate(old(self)@, now),
    {
        self.become_candidate(now)
    }

    /// Handle an incoming RequestVote RPC (follower/candidate side).
    pub fn handle_request_vote(&mut self, now: u64, request: RequestVote) -> (r: RequestVoteResponse)
        requires
            request.term >= old(self).term ==> now + old(self).election_timeout <= u64::MAX,
        ensures
            (final(self)@, r) == request_vote_step(old(self)@, now, request),
    {
        if request.term < self.term {
            return RequestVoteResponse { term: self.term, vote_granted: false };
        }
        if request.term > self.term {
            self.become_follower(request.term, now);
        }
        self.role = Role::Follower;
        self.votes_granted.clear();
        self.reset_election_timer(now);
        let up_to_date = Self::log_is_up_to_date(
            request.last_log_term,
            request.last_log_index,
            self.last_log_term(),
            self.last_log_index(),
        );
        let may_vote = match self.voted_for {
            None => true,
            Some(c) => c == request.candidate_id,
        };
        if up_to_date && may_vote {
            self.voted_for = Some(request.candidate_id);
            RequestVoteResponse { term: self.term, vote_granted: true }
        } else {
            RequestVoteResponse { term: self.term, vote_granted: false }
        }
    }

    /// Stores `entries` from Raft index `start` on: keeps those that match, and at
    /// the first conflict or at the end of the log cuts the log there and appends the rest.
    fn merge_entries(&mut self, start: u64, entries: &Vec<LogEntry>)
        requires
            entries@.len() > 0 ==> start >= 1,
        ensures
            final(self)@ == (super::RaftNodeView {
                log: merge_entries(old(self)@.log, start as int, entries_view(entries@), 0),
                ..old(self)@
            }),
    {
        let ghost old_log = self@.log;
        let ghost ev = entries_view(entries@);
        let ghost old_vec = self.log@;
        let log_len: usize = self.log.len();
        let mut i: usize = 0;
        let mut done = false;
        while i < entries.len() && !done
            invariant
                i <= entries@.len(),
                ev == entries_view(entries@),
                old_log == entries_view(old_vec),
                old_vec.len() == log_len,
                entries@.len() > 0 ==> start >= 1,
                i > 0 ==> start + i <= log_len,
                !done ==> self@ == old(self)@,
                !done ==> self.log@ == old_vec,
                !done ==> merge_entries(old_log, start as int, ev, i as int) == merge_entries(
                    old_log,
                    start as int,
                    ev,
                    0,
                ),
                done ==> final_merge(self@, old(self)@, merge_entries(old_log, start as int, ev, 0)),
            decreases entries@.len() - i + (if done {
                0int
            } else {
                1int
            }),
        {
            let ghost gi = i as int;
            let index: u64 = start + i as u64;
            if index < log_len as u64 {
                let at: usize = index as usize;
                assert(old_log[at as int] == old_vec[at as int]@);
                assert(ev[gi] == entries@[gi]@);
                if self.log[at].term != entries[i].term {
                    let ghost merged = merge_entries(old_log, start as int, ev, gi);
                    assert(merged == old_log.take(at as int) + ev.skip(gi));
                    self.log.truncate(at);
                    let mut tail = copy_entries_from(entries, i);
                    let ghost kept = self.log@;
                    let ghost tail_v = tail@;
                    self.log.append(&mut tail);
                    proof {
                        lemma_entries_view_add_take(old_vec, tail_v, at as int);
                        lemma_entries_view_add_take(kept, tail_v, 0);
                        assert(kept == old_vec.take(at as int));
                        assert(entries_view(self.log@) =~= merged);
                        assert(self@ =~= (super::RaftNodeView { log: merged, ..old(self)@ }));
                    }
                    done = true;
                } else {
                    i = i + 1;
                }
            } else {
                let ghost merged = merge_entries(old_log, start as int, ev, gi);
                assert(merged == old_log + ev.skip(gi));
                let mut tail = copy_entries_from(entries, i);
                let ghost tail_v = tail@;
                self.log.append(&mut tail);
                proof {
                    lemma_entries_view_add_take(old_vec, tail_v, 0);
                    assert(entries_view(self.log@) =~= merged);
                    assert(self@ =~= (super::RaftNodeView { log: merged, ..old(self)@ }));
                }
                done = true;
            }
        }
        proof {
            if !done {
                assert(merge_entries(old_log, start as int, ev, i as int) == old_log);
                assert(self@ =~= (super::RaftNodeView { log: old_log, ..old(self)@ }));
            }
        }
    }
}

impl RaftNode {
    /// Handle an incoming AppendEntries RPC (follower side).
    pub fn handle_append_entries(&mut self, now: u64, request: AppendEntries) -> (r:
        AppendEntriesResponse)
        requires
            append_entries_ok(old(self)@, now, request@),
        ensures
            (final(self)@, r) == append_entries_step(old(self)@, now, request@),
    {
        if request.term < self.term {
            return AppendEntriesResponse { term: self.term, success: false };
        }
        if request.term > self.term {
            self.become_follower(request.term, now);
        }
        self.role = Role::Follower;
        self.votes_granted.clear();
        if request.prev_log_index >= self.log.len() as u64 || self.log_term_at(request.prev_log_index)
            != request.prev_log_term {
            return AppendEntriesResponse { term: self.term, success: false };
        }
        self.reset_election_timer(now);
        if request.entries.len() > 0 {
            self.merge_entries(request.prev_log_index + 1, &request.entries);
        }
        if request.leader_commit_index > self.commit_index {
            let last = self.last_log_index();
            self.commit_index = if request.leader_commit_index <= last {
                request.leader_commit_index
            } else {
                last
            };
        }
        self.apply_committed_entries();
        AppendEntriesResponse { term: self.term, success: true }
    }

    /// Handle a RequestVote response (candidate side).
    pub fn handle_request_vote_response(
        &mut self,
        now: u64,
        from: u64,
        response: RequestVoteResponse,
    ) -> (r: Vec<Action>)
        requires
            response.term > old(self).term ==> now + old(self).election_timeout <= u64::MAX,
            (old(self).role == Role::Candidate && response.term == old(self).term
                && response.vote_granted) ==> {
                &&& now + old(self).heartbeat_interval <= u64::MAX
                &&& old(self).peer_ids@.len() < usize::MAX
            },
        ensures
            (final(self)@, actions_view(r@)) == vote_response_step(old(self)@, now, from, response),
    {
        if response.term > self.term {
            self.become_follower(response.term, now);
            let r = Vec::new();
            assert(actions_view(r@) =~= Seq::empty());
            return r;
        }
        if self.role != Role::Candidate || response.term < self.term {
            let r = Vec::new();
            assert(actions_view(r@) =~= Seq::empty());
            return r;
        }
        if response.vote_granted {
            self.votes_granted.insert(from);
            if self.has_election_majority() {
                return self.become_leader(now);
            }
        }
        let r = Vec::new();
        assert(actions_view(r@) =~= Seq::empty());
        r
    }

    /// Append a client command to the log and replicate it to followers (leader only).
    pub fn propose_command(&mut self, command: Command) -> (r: Result<Vec<Action>, ProposeError>)
        ensures
            (final(self)@, propose_result_view(r)) == propose_step(
                old(self)@,
                encode_spec(command@),
            ),
    {
        self.propose(command.encode())
    }

    /// Append raw log bytes to the log and replicate them to followers (leader only).
    pub fn propose(&mut self, data: Vec<u8>) -> (r: Result<Vec<Action>, ProposeError>)
        ensures
            (final(self)@, propose_result_view(r)) == propose_step(old(self)@, data@),
    {
        if self.role != Role::Leader {
            return Err(ProposeError::NotLeader);
        }
        let ghost old_log = self@.log;
        let ghost d = data@;
        self.log.push(LogEntry { term: self.term, data });
        assert(self@.log =~= old_log.push(super::LogEntryView { term: self.term, data: d }));
        Ok(self.replication_actions())
    }

    /// Handle an AppendEntries response (leader side).
    pub fn handle_append_entries_response(
        &mut self,
        now: u64,
        from: u64,
        response: AppendEntriesResponse,
    ) -> (r: Vec<Action>)
        requires
            append_response_ok(old(self)@, now, from, response),
        ensures
            (final(self)@, actions_view(r@)) == append_response_step(
                old(self)@,
                now,
                from,
                response,
            ),
    {
        if response.term > self.term {
            self.become_follower(response.term, now);
            let r = Vec::new();
            assert(actions_view(r@) =~= Seq::empty());
            return r;
        }
        if self.role != Role::Leader || response.term < self.term {
            let r = Vec::new();
            assert(actions_view(r@) =~= Seq::empty());
            return r;
        }
        let next_index: u64 = match self.next_index.get(&from) {
            Some(n) => *n,
            None => 1,
        };
        if response.success {
            let last = self.last_log_index();
            let matched = if next_index <= last {
                last
            } else if next_index == 0 {
                0
            } else {
                next_index - 1
            };
            self.match_index.insert(from, matched);
            self.next_index.insert(from, matched + 1);
            return self.advance_commit_index();
        }
        if next_index > 1 {
            self.next_index.insert(from, next_index - 1);
        }
        let mut r: Vec<Action> = Vec::new();
        r.push(
            Action::Send { to: from, msg: Message::AppendEntries(self.append_entries_for_peer(from)) },
        );
        assert(actions_view(r@) =~= append_response_step(old(self)@, now, from, response).1);
        r
    }

    /// Build AppendEntries RPCs for all peers (heartbeats or replication).
    pub fn replication_actions(&self) -> (r: Vec<Action>)
        ensures
            actions_view(r@) == replication_actions(self@),
    {
        let mut r: Vec<Action> = Vec::new();
        let mut j: usize = 0;
        while j < self.peer_ids.len()
            invariant
                j <= self.peer_ids@.len(),
                actions_view(r@) == replication_actions(self@).take(j as int),
            decreases self.peer_ids@.len() - j,
        {
            let to = self.peer_ids[j];
            let a = Action::Send { to, msg: Message::AppendEntries(self.append_entries_for_peer(to)) };
            let ghost r0 = r@;
            r.push(a);
            proof {
                lemma_actions_view_push(r0, a);
                assert(replication_actions(self@).take(j + 1) =~= replication_actions(self@).take(
                    j as int,
                ).push(replication_actions(self@)[j as int]));
            }
            j = j + 1;
        }
        assert(replication_actions(self@).take(j as int) =~= replication_actions(self@));
        r
    }

    /// Build heartbeat AppendEntries messages for all peers.
    pub fn send_heartbeats(&self) -> (r: Vec<Action>)
        ensures
            actions_view(r@) == replication_actions(self@),
    {
        self.replication_actions()
    }

    /// The AppendEntries request for `peer`, from its next index on.
    fn append_entries_for_peer(&self, peer: u64) -> (r: AppendEntries)
        ensures
            r@ == append_entries_for(self@, peer),
            r.term == self.term,
            r.leader_id == self.id,
            r.leader_commit_index == self.commit_index,
    {
        proof {
            super::messages::lemma_append_entries_describe_sender(self@, peer);
        }
        let next_index: u64 = match self.next_index.get(&peer) {
            Some(n) => *n,
            None => 1,
        };
        assert(next_index == (if self@.next_index.contains_key(peer) {
            self@.next_index[peer]
        } else {
            1
        }));
        let prev_log_index = if next_index == 0 {
            0
        } else {
            next_index - 1
        };
        let entries = if next_index <= self.last_log_index() {
            proof {
                lemma_entries_view_index(self.log@, 0);
            }
            let n: usize = self.log_position(next_index);
            copy_entries_from(&self.log, n)
        } else {
            let e: Vec<LogEntry> = Vec::new();
            assert(entries_view(e@) =~= Seq::empty());
            e
        };
        AppendEntries {
            term: self.term,
            leader_id: self.id,
            prev_log_index,
            prev_log_term: self.log_term_at(prev_log_index),
            entries,
            leader_commit_index: self.commit_index,
        }
    }

    /// Commit up to the highest index of the current term that a majority stores,
    /// apply, and tell the peers when the commit index moved.
    fn advance_commit_index(&mut self) -> (r: Vec<Action>)
        requires
            old(self).commit_index < u64::MAX,
            old(self).match_index@.len() < usize::MAX,
            old(self).peer_ids@.len() < usize::MAX,
            can_apply(
                old(self)@.log,
                old(self).last_applied,
                highest_committable(old(self)@, last_index(old(self)@.log) as int) as u64,
            ),
        ensures
            (final(self)@, actions_view(r@)) == advance_commit_step(old(self)@),
    {
        let old_commit_index = self.commit_index;
        let last = self.last_log_index();
        let majority = self.cluster_size() / 2 + 1;
        let mut commit = self.commit_index;
        let mut index = self.commit_index + 1;
        while index <= last
            invariant
                old_commit_index < index,
                old_commit_index == old(self).commit_index,
                index <= last + 1 || index == old_commit_index + 1,
                last < u64::MAX,
                last == last_index(self@.log),
                self@ == old(self)@,
                self.peer_ids@.len() < usize::MAX,
                self.match_index@.len() < usize::MAX,
                majority == (self.peer_ids@.len() + 1) / 2 + 1,
                commit == highest_committable(self@, index - 1),
            decreases last + 1 - index,
        {
            proof {
                lemma_entries_view_index(self.log@, index as int);
            }
            let at: usize = self.log_position(index);
            assert(index as int > self@.commit_index);
            assert(committable(self@, index as int) ==> highest_committable(self@, index as int)
                == index as int);
            assert(!committable(self@, index as int) ==> highest_committable(self@, index as int)
                == highest_committable(self@, index - 1));
            if self.log[at].term == self.term {
                let replicated = self.count_replicated(index);
                if replicated >= majority {
                    commit = index;
                } else {
                    assert(!committable(self@, index as int));
                }
            } else {
                assert(!committable(self@, index as int));
            }
            index = index + 1;
        }
        self.commit_index = commit;
        let mut actions = self.apply_committed_entries();
        if self.commit_index > old_commit_index {
            let mut more = self.replication_actions();
            let ghost a1 = actions@;
            let ghost a2 = more@;
            actions.append(&mut more);
            assert(actions_view(actions@) =~= actions_view(a1) + actions_view(a2));
        }
        actions
    }

    /// One (the leader) plus the number of followers whose match index reaches `index`.
    fn count_replicated(&self, index: u64) -> (r: usize)
        requires
            self.match_index@.len() < usize::MAX,
        ensures
            r == 1 + replicated(self.match_index@, index),
    {
        let mut count: usize = 1;
        let ghost m = self.match_index@;
        let ghost mut counted: Set<u64> = Set::empty();
        proof {
            assert(m.dom().finite());
        }
        for k in it: self.match_index.keys()
            invariant
                m == self.match_index@,
                m.dom().finite(),
                m.len() < usize::MAX,
                it.seq().unref().no_duplicates(),
                it.seq().unref().to_set() == m.dom(),
                it.seq().len() == m.dom().len(),
                counted.finite(),
                forall|x: u64| #[trigger]
                    counted.contains(x) <==> (it.seq().unref().take(it.index()).contains(x)
                        && m[x] >= index),
                count == 1 + counted.len(),
                counted.len() <= it.index(),
                it.index() == it.seq().len() ==> (forall|x: u64| #[trigger]
                    counted.contains(x) <==> (m.dom().contains(x) && m[x] >= index)),
        {
            let ghost i = it.index();
            let ghost key = it.seq().unref()[i];
            assert(*k == key);
            assert(it.seq().unref().to_set().contains(key));
            let v = *self.match_index.get(k).unwrap();
            if v >= index {
                proof {
                    assert(!counted.contains(key)) by {
                        if counted.contains(key) {
                            let j = choose|j: int| 0 <= j < i && it.seq().unref().take(i)[j] == key;
                            assert(it.seq().unref()[j] == it.seq().unref()[i]);
                        }
                    }
                    counted = counted.insert(*k);
                }
                count = count + 1;
            }
            proof {
                assert(it.seq().unref().take(i + 1) =~= it.seq().unref().take(i).push(key));
                assert forall|x: u64|
                    it.seq().unref().take(i + 1).contains(x) <==> (it.seq().unref().take(
                        i,
                    ).contains(x) || x == key) by {
                    if it.seq().unref().take(i + 1).contains(x) && x != key {
                        let y = choose|y: int|
                            0 <= y < i + 1 && #[trigger] it.seq().unref().take(i + 1)[y] == x;
                        assert(it.seq().unref().take(i)[y] == x);
                    }
                    if it.seq().unref().take(i).contains(x) {
                        let y = choose|y: int| 0 <= y < i && #[trigger] it.seq().unref().take(i)[y] == x;
                        assert(it.seq().unref().take(i + 1)[y] == x);
                    }
                    if x == key {
                        assert(it.seq().unref().take(i + 1)[i] == x);
                    }
                }
                assert(i + 1 == it.seq().len() ==> it.seq().unref().take(i + 1)
                    =~= it.seq().unref());
                assert forall|x: u64|
                    i + 1 == it.seq().len() implies (#[trigger] counted.contains(x) <==> (
                    m.dom().contains(x) && m[x] >= index)) by {
                    if m.dom().contains(x) {
                        assert(it.seq().unref().to_set().contains(x));
                    }
                }
            }
        }
        proof {
            assert(counted =~= m.dom().filter(|k: u64| m[k] >= index));
        }
        count
    }
}

impl RaftNode {
    /// Apply every committed entry not applied yet, in index order.
    fn apply_committed_entries(&mut self) -> (r: Vec<Action>)
        requires
            can_apply(old(self)@.log, old(self).last_applied, old(self).commit_index),
        ensures
            (final(self)@, actions_view(r@)) == apply_step(old(self)@),
    {
        let mut actions: Vec<Action> = Vec::new();
        let ghost s0 = self@;
        while self.last_applied < self.commit_index
            invariant
                s0.last_applied <= self.last_applied,
                self.log@ == old(self).log@,
                s0 == old(self)@,
                s0.last_applied < s0.commit_index ==> self.last_applied <= s0.commit_index,
                s0.last_applied >= s0.commit_index ==> self.last_applied == s0.last_applied,
                can_apply(s0.log, s0.last_applied, s0.commit_index),
                self@ == (super::RaftNodeView {
                    last_applied: self.last_applied,
                    state_machine: s0.state_machine + new_commands(
                        s0.log,
                        s0.last_applied,
                        self.last_applied,
                    ),
                    ..s0
                }),
                actions_view(actions@) == apply_actions(s0.log, s0.last_applied, self.last_applied),
            decreases self.commit_index - self.last_applied,
        {
            self.last_applied = self.last_applied + 1;
            let ghost i = self.last_applied as int;
            assert(s0.last_applied < i <= s0.commit_index);
            proof {
                lemma_entries_view_index(self.log@, i);
                assert(can_apply(s0.log, s0.last_applied, s0.commit_index));
                assert(decodes(s0.log[i].data));
                assert(i < s0.log.len());
            }
            let at: usize = self.log_position(self.last_applied);
            let command = Command::decode(self.log[at].data.as_slice()).unwrap();
            assert(command@ == decoded(s0.log[i].data));
            self.state_machine.apply(&command);
            let a = Action::Apply { index: self.last_applied, command };
            let ghost a0 = actions@;
            actions.push(a);
            proof {
                lemma_actions_view_push(a0, a);
                assert(new_commands(s0.log, s0.last_applied, self.last_applied) =~= new_commands(
                    s0.log,
                    s0.last_applied,
                    (self.last_applied - 1) as u64,
                ).push(command@));
                assert(actions_view(actions@) =~= apply_actions(
                    s0.log,
                    s0.last_applied,
                    self.last_applied,
                ));
            }
        }
        proof {
            if s0.last_applied >= s0.commit_index {
                assert(new_commands(s0.log, s0.last_applied, self.last_applied) =~= Seq::empty());
                assert(actions_view(actions@) =~= Seq::empty());
            }
        }
        actions
    }

    /// Step down to follower in `term`.
    fn become_follower(&mut self, term: u64, now: u64)
        requires
            now + old(self).election_timeout <= u64::MAX,
        ensures
            final(self)@ == become_follower(old(self)@, term, now),
    {
        self.term = term;
        self.role = Role::Follower;
        self.voted_for = None;
        self.votes_granted.clear();
        self.next_index.clear();
        self.match_index.clear();
        self.reset_election_timer(now);
    }

    /// Become candidate in the next term, voting for itself.
    fn become_candidate(&mut self, now: u64) -> (r: Vec<Action>)
        requires
            election_ok(old(self)@, now),
        ensures
            (final(self)@, actions_view(r@)) == become_candidate(old(self)@, now),
    {
        self.role = Role::Candidate;
        self.term = self.term + 1;
        self.voted_for = Some(self.id);
        self.votes_granted.clear();
        self.votes_granted.insert(self.id);
        self.next_index.clear();
        self.match_index.clear();
        self.reset_election_timer(now);
        if self.has_election_majority() {
            return self.become_leader(now);
        }
        self.request_vote_actions()
    }

    /// Become leader and send AppendEntries to every peer.
    fn become_leader(&mut self, now: u64) -> (r: Vec<Action>)
        requires
            now + old(self).heartbeat_interval <= u64::MAX,
        ensures
            (final(self)@, actions_view(r@)) == become_leader(old(self)@, now),
    {
        self.role = Role::Leader;
        self.votes_granted.clear();
        let next = self.last_log_index() + 1;
        let ghost s0 = self@;
        let mut j: usize = 0;
        proof {
            assert(assign_peers(s0.next_index, s0.peer_ids.take(0), next) =~= s0.next_index);
            assert(assign_peers(s0.match_index, s0.peer_ids.take(0), 0) =~= s0.match_index);
            assert(self@ =~= (super::RaftNodeView {
                next_index: assign_peers(s0.next_index, s0.peer_ids.take(0), next),
                match_index: assign_peers(s0.match_index, s0.peer_ids.take(0), 0),
                ..s0
            }));
        }
        while j < self.peer_ids.len()
            invariant
                j <= self.peer_ids@.len(),
                next == last_index(s0.log) + 1,
                self@ == (super::RaftNodeView {
                    next_index: assign_peers(s0.next_index, s0.peer_ids.take(j as int), next),
                    match_index: assign_peers(s0.match_index, s0.peer_ids.take(j as int), 0),
                    ..s0
                }),
            decreases self.peer_ids@.len() - j,
        {
            let peer = self.peer_ids[j];
            self.next_index.insert(peer, next);
            self.match_index.insert(peer, 0);
            j = j + 1;
            proof {
                let t = s0.peer_ids.take(j as int);
                assert(t =~= s0.peer_ids.take(j - 1).push(peer));
                assert forall|k: u64| t.contains(k) <==> (s0.peer_ids.take(j - 1).contains(k) || k
                    == peer) by {
                    if t.contains(k) && k != peer {
                        let x = choose|x: int| 0 <= x < t.len() && t[x] == k;
                        assert(s0.peer_ids.take(j - 1)[x] == k);
                    }
                    if s0.peer_ids.take(j - 1).contains(k) {
                        let x = choose|x: int| 0 <= x < j - 1 && #[trigger] s0.peer_ids.take(j - 1)[x] == k;
                        assert(t[x] == k);
                    }
                    if k == peer {
                        assert(t[j - 1] == k);
                    }
                }
                assert(self.next_index@ =~= assign_peers(s0.next_index, t, next));
                assert(self.match_index@ =~= assign_peers(s0.match_index, t, 0));
                assert(self@ =~= (super::RaftNodeView {
                    next_index: assign_peers(s0.next_index, t, next),
                    match_index: assign_peers(s0.match_index, t, 0),
                    ..s0
                }));
            }
        }
        assert(s0.peer_ids.take(j as int) =~= s0.peer_ids);
        self.reset_heartbeat_timer(now);
        self.send_heartbeats()
    }

    /// RequestVote sends to every peer for the current term.
    fn request_vote_actions(&self) -> (r: Vec<Action>)
        ensures
            actions_view(r@) == request_vote_actions(self@),
            r@.len() == self.peer_ids@.len(),
            1 <= self.log@.len() <= u64::MAX ==> forall|k: int|
                0 <= k < r@.len() ==> (#[trigger] r@[k] matches Action::Send {
                    to,
                    msg: Message::RequestVote(q),
                } && to == self.peer_ids@[k] && q.term == self.term && q.candidate_id == self.id
                    && q.last_log_index == self.log@.len() - 1 && q.last_log_term == self.log@[self.log@.len()
                    - 1].term),
    {
        let request = RequestVote {
            term: self.term,
            candidate_id: self.id,
            last_log_index: self.last_log_index(),
            last_log_term: self.last_log_term(),
        };
        let mut r: Vec<Action> = Vec::new();
        let mut j: usize = 0;
        while j < self.peer_ids.len()
            invariant
                j <= self.peer_ids@.len(),
                request == vote_request(self@),
                actions_view(r@) == request_vote_actions(self@).take(j as int),
            decreases self.peer_ids@.len() - j,
        {
            let a = Action::Send { to: self.peer_ids[j], msg: Message::RequestVote(request) };
            let ghost r0 = r@;
            r.push(a);
            proof {
                lemma_actions_view_push(r0, a);
                assert(request_vote_actions(self@).take(j + 1) =~= request_vote_actions(self@).take(
                    j as int,
                ).push(request_vote_actions(self@)[j as int]));
            }
            j = j + 1;
        }
        assert(request_vote_actions(self@).take(j as int) =~= request_vote_actions(self@));
        proof {
            let len = self.log@.len() as int;
            lemma_entries_view_index(self.log@, len - 1);
            if 1 <= len <= u64::MAX {
                super::messages::lemma_vote_request_states_log(self@);
                assert forall|k: int| 0 <= k < r@.len() implies (#[trigger] r@[k] matches Action::Send {
                    to,
                    msg: Message::RequestVote(q),
                } && to == self.peer_ids@[k] && q.term == self.term && q.candidate_id == self.id
                    && q.last_log_index == len - 1 && q.last_log_term == self.log@[len - 1].term) by {
                    assert(actions_view(r@)[k] == r@[k]@);
                    assert(request_vote_actions(self@)[k] == actions_view(r@)[k]);
                }
            }
        }
        r
    }

    /// Restart the election timer at `now`.
    fn reset_election_timer(&mut self, now: u64)
        requires
            now + old(self).election_timeout <= u64::MAX,
        ensures
            final(self)@ == election_timer_reset(old(self)@, now),
    {
        self.election_deadline = now + self.election_timeout;
    }

    /// Restart the heartbeat timer at `now`.
    fn reset_heartbeat_timer(&mut self, now: u64)
        requires
            now + old(self).heartbeat_interval <= u64::MAX,
        ensures
            final(self)@ == (super::RaftNodeView {
                heartbeat_deadline: (now + old(self).heartbeat_interval) as u64,
                ..old(self)@
            }),
    {
        self.heartbeat_deadline = now + self.heartbeat_interval;
    }

    /// Number of servers in the cluster, this one included.
    fn cluster_size(&self) -> (r: usize)
        requires
            self.peer_ids@.len() < usize::MAX,
        ensures
            r == self.peer_ids@.len() + 1,
    {
        self.peer_ids.len() + 1
    }

    /// The votes received reach a majority of the cluster.
    fn has_election_majority(&self) -> (r: bool)
        requires
            self.peer_ids@.len() < usize::MAX,
        ensures
            r == has_majority(self@),
    {
        self.votes_granted.len() >= self.cluster_size() / 2 + 1
    }

    /// Returns true if the candidate log is at least as up-to-date as the receiver log.
    /// Compare `(last_log_term, last_log_index)` lexicographically.
    fn log_is_up_to_date(
        candidate_last_term: u64,
        candidate_last_index: u64,
        receiver_last_term: u64,
        receiver_last_index: u64,
    ) -> (r: bool)
        ensures
            r == up_to_date(
                candidate_last_term,
                candidate_last_index,
                receiver_last_term,
                receiver_last_index,
            ),
            r == (candidate_last_term > receiver_last_term || (candidate_last_term
                == receiver_last_term && candidate_last_index >= receiver_last_index)),
    {
        candidate_last_term > receiver_last_term || (candidate_last_term == receiver_last_term
            && candidate_last_index >= receiver_last_index)
    }
}

/// The node value is the old one with only the log replaced by `log`.
pub open spec fn final_merge(
    s: super::RaftNodeView,
    old: super::RaftNodeView,
    log: Seq<super::LogEntryView>,
) -> bool {
    s == (super::RaftNodeView { log, ..old })
}

} // verus!
