//! What each Raft node operation does, stated as functions from the node's value
//! (and the event) to its next value and the actions it emits.

use super::{
    ActionView, AppendEntriesResponse, AppendEntriesView, LogEntryView, MessageView, ProposeError,
    RaftNodeView, RequestVote, RequestVoteResponse, Role,
};
use crate::state_machine::{decoded, decodes, CommandView};
use vstd::prelude::*;

verus! {

/// Raft index of the last log entry (0 for an empty log).
pub open spec fn last_index(log: Seq<LogEntryView>) -> u64 {
    if log.len() == 0 {
        0
    } else {
        (log.len() - 1) as u64
    }
}

/// Term of the log entry at `index`, or 0 where there is none.
pub open spec fn term_at(log: Seq<LogEntryView>, index: u64) -> u64 {
    if index < log.len() {
        log[index as int].term
    } else {
        0
    }
}

/// Term of the last log entry.
pub open spec fn last_term(log: Seq<LogEntryView>) -> u64 {
    term_at(log, last_index(log))
}

/// A candidate log, given by its last term and index, is at least as up-to-date as
/// the receiver's: `(term, index)` compared lexicographically.
pub open spec fn up_to_date(
    candidate_last_term: u64,
    candidate_last_index: u64,
    receiver_last_term: u64,
    receiver_last_index: u64,
) -> bool {
    candidate_last_term > receiver_last_term || (candidate_last_term == receiver_last_term
        && candidate_last_index >= receiver_last_index)
}

/// Votes (or replicas) needed for a majority of a cluster with `n_peers` peers
/// besides the node itself.
pub open spec fn majority(n_peers: int) -> int {
    (n_peers + 1) / 2 + 1
}

/// The node holds votes from a majority of the cluster.
pub open spec fn has_majority(s: RaftNodeView) -> bool {
    s.votes_granted.len() >= majority(s.peer_ids.len() as int)
}

/// The election timer restarted at `now`.
pub open spec fn election_timer_reset(s: RaftNodeView, now: u64) -> RaftNodeView {
    RaftNodeView { election_deadline: (now + s.election_timeout) as u64, ..s }
}

/// Step down to follower in `term`: no vote, no votes received, no leader progress,
/// election timer restarted.
pub open spec fn become_follower(s: RaftNodeView, term: u64, now: u64) -> RaftNodeView {
    RaftNodeView {
        term,
        role: Role::Follower,
        voted_for: None,
        votes_granted: Set::empty(),
        next_index: Map::empty(),
        match_index: Map::empty(),
        election_deadline: (now + s.election_timeout) as u64,
        ..s
    }
}

/// The state of a node just built with the given id, peers and election timeout.
pub open spec fn initial(id: u64, peer_ids: Seq<u64>, election_timeout: u64) -> RaftNodeView {
    RaftNodeView {
        id,
        term: 0,
        role: Role::Follower,
        voted_for: None,
        log: seq![LogEntryView { term: 0, data: Seq::empty() }],
        commit_index: 0,
        last_applied: 0,
        next_index: Map::empty(),
        match_index: Map::empty(),
        peer_ids,
        election_timeout,
        election_deadline: election_timeout,
        votes_granted: Set::empty(),
        heartbeat_interval: if election_timeout / 3 >= 1 {
            (election_timeout / 3) as u64
        } else {
            1
        },
        heartbeat_deadline: 0,
        state_machine: Seq::empty(),
    }
}

/// What a RequestVote does to the receiver and what it answers.
pub open spec fn request_vote_step(s: RaftNodeView, now: u64, req: RequestVote) -> (
    RaftNodeView,
    RequestVoteResponse,
) {
    if req.term < s.term {
        (s, RequestVoteResponse { term: s.term, vote_granted: false })
    } else {
        let s1 = if req.term > s.term {
            become_follower(s, req.term, now)
        } else {
            s
        };
        let s2 = RaftNodeView {
            role: Role::Follower,
            votes_granted: Set::empty(),
            election_deadline: (now + s.election_timeout) as u64,
            ..s1
        };
        if up_to_date(req.last_log_term, req.last_log_index, last_term(s2.log), last_index(s2.log))
            && (s2.voted_for is None || s2.voted_for == Some(req.candidate_id)) {
            (
                RaftNodeView { voted_for: Some(req.candidate_id), ..s2 },
                RequestVoteResponse { term: s2.term, vote_granted: true },
            )
        } else {
            (s2, RequestVoteResponse { term: s2.term, vote_granted: false })
        }
    }
}

/// The log after storing `entries` from Raft index `start` on, looking from the
/// `i`-th entry: the first entry whose index is past the log, or whose term differs
/// from the entry already there, cuts the log at that index and the remaining
/// entries are appended; entries that already match are kept.
pub open spec fn merge_entries(log: Seq<LogEntryView>, start: int, entries: Seq<LogEntryView>, i: int) -> Seq<
    LogEntryView,
>
    decreases entries.len() - i,
{
    if i < 0 || i >= entries.len() {
        log
    } else if start + i < log.len() {
        if log[start + i].term != entries[i].term {
            log.take(start + i) + entries.skip(i)
        } else {
            merge_entries(log, start, entries, i + 1)
        }
    } else {
        log + entries.skip(i)
    }
}

/// The log holds an entry at the request's previous index, and it has the request's
/// previous term.
pub open spec fn prev_matches(log: Seq<LogEntryView>, req: AppendEntriesView) -> bool {
    req.prev_log_index < log.len() && log[req.prev_log_index as int].term == req.prev_log_term
}

/// The log after an accepted AppendEntries request.
pub open spec fn appended_log(log: Seq<LogEntryView>, req: AppendEntriesView) -> Seq<LogEntryView> {
    merge_entries(log, req.prev_log_index + 1, req.entries, 0)
}

/// The commit index after an accepted AppendEntries request: the leader's commit
/// index capped by the new last index, when the leader's is higher.
pub open spec fn commit_after_append(s: RaftNodeView, req: AppendEntriesView) -> u64 {
    if req.leader_commit_index > s.commit_index {
        let last = last_index(appended_log(s.log, req));
        if req.leader_commit_index <= last {
            req.leader_commit_index
        } else {
            last
        }
    } else {
        s.commit_index
    }
}

/// Every entry from just after `last_applied` up to `commit` exists and decodes to
/// a command.
pub open spec fn can_apply(log: Seq<LogEntryView>, last_applied: u64, commit: u64) -> bool {
    forall|i: int| last_applied < i <= commit ==> i < log.len() && decodes(#[trigger] log[i].data)
}

/// The commands of the entries just after `from` up to `to`, in order.
pub open spec fn new_commands(log: Seq<LogEntryView>, from: u64, to: u64) -> Seq<CommandView> {
    Seq::new((to - from) as nat, |i: int| decoded(log[from + 1 + i].data))
}

/// One `Apply` action per entry just after `from` up to `to`, in order.
pub open spec fn apply_actions(log: Seq<LogEntryView>, from: u64, to: u64) -> Seq<ActionView> {
    Seq::new(
        (to - from) as nat,
        |i: int|
            ActionView::Apply { index: (from + 1 + i) as u64, command: decoded(log[from + 1 + i].data) },
    )
}

/// Apply every committed entry not applied yet, in index order.
pub open spec fn apply_step(s: RaftNodeView) -> (RaftNodeView, Seq<ActionView>) {
    if s.last_applied < s.commit_index {
        (
            RaftNodeView {
                last_applied: s.commit_index,
                state_machine: s.state_machine + new_commands(s.log, s.last_applied, s.commit_index),
                ..s
            },
            apply_actions(s.log, s.last_applied, s.commit_index),
        )
    } else {
        (s, Seq::empty())
    }
}

/// What an AppendEntries request does to the receiver and what it answers.
pub open spec fn append_entries_step(s: RaftNodeView, now: u64, req: AppendEntriesView) -> (
    RaftNodeView,
    AppendEntriesResponse,
) {
    if req.term < s.term {
        (s, AppendEntriesResponse { term: s.term, success: false })
    } else {
        let s1 = if req.term > s.term {
            become_follower(s, req.term, now)
        } else {
            s
        };
        let s2 = RaftNodeView { role: Role::Follower, votes_granted: Set::empty(), ..s1 };
        if !prev_matches(s2.log, req) {
            (s2, AppendEntriesResponse { term: s2.term, success: false })
        } else {
            let s3 = RaftNodeView {
                election_deadline: (now + s.election_timeout) as u64,
                log: appended_log(s2.log, req),
                commit_index: commit_after_append(s2, req),
                ..s2
            };
            (apply_step(s3).0, AppendEntriesResponse { term: s2.term, success: true })
        }
    }
}

/// The AppendEntries request can be handled without an arithmetic overflow and
/// without meeting a committed entry that is missing or does not decode.
pub open spec fn append_entries_ok(s: RaftNodeView, now: u64, req: AppendEntriesView) -> bool {
    req.term >= s.term ==> {
        &&& now + s.election_timeout <= u64::MAX
        &&& (prev_matches(s.log, req) ==> {
            &&& (req.entries.len() > 0 ==> req.prev_log_index < u64::MAX)
            &&& can_apply(appended_log(s.log, req), s.last_applied, commit_after_append(s, req))
        })
    }
}

/// `m` with every peer mapped to `v`.
pub open spec fn assign_peers(m: Map<u64, u64>, peers: Seq<u64>, v: u64) -> Map<u64, u64> {
    m.union_prefer_right(Map::new(|k: u64| peers.contains(k), |k: u64| v))
}

/// The AppendEntries request a leader sends `peer`: everything from the peer's
/// next index (1 when unknown) on, after the entry just before it.
pub open spec fn append_entries_for(s: RaftNodeView, peer: u64) -> AppendEntriesView {
    let next = if s.next_index.contains_key(peer) {
        s.next_index[peer]
    } else {
        1
    };
    let prev: u64 = if next == 0 {
        0
    } else {
        (next - 1) as u64
    };
    AppendEntriesView {
        term: s.term,
        leader_id: s.id,
        prev_log_index: prev,
        prev_log_term: term_at(s.log, prev),
        entries: if next <= last_index(s.log) {
            s.log.skip(next as int)
        } else {
            Seq::empty()
        },
        leader_commit_index: s.commit_index,
    }
}

/// One AppendEntries send per peer, in peer order.
pub open spec fn replication_actions(s: RaftNodeView) -> Seq<ActionView> {
    s.peer_ids.map_values(
        |to: u64| ActionView::Send { to, msg: MessageView::AppendEntries(append_entries_for(s, to)) },
    )
}

/// The RequestVote a candidate sends.
pub open spec fn vote_request(s: RaftNodeView) -> RequestVote {
    RequestVote {
        term: s.term,
        candidate_id: s.id,
        last_log_index: last_index(s.log),
        last_log_term: last_term(s.log),
    }
}

/// One RequestVote send per peer, in peer order.
pub open spec fn request_vote_actions(s: RaftNodeView) -> Seq<ActionView> {
    s.peer_ids.map_values(
        |to: u64| ActionView::Send { to, msg: MessageView::RequestVote(vote_request(s)) },
    )
}

/// Become leader: progress of every peer reset to the end of the log, heartbeat
/// timer restarted, and AppendEntries sent to every peer.
pub open spec fn become_leader(s: RaftNodeView, now: u64) -> (RaftNodeView, Seq<ActionView>) {
    let next = (last_index(s.log) + 1) as u64;
    let s1 = RaftNodeView {
        role: Role::Leader,
        votes_granted: Set::empty(),
        next_index: assign_peers(s.next_index, s.peer_ids, next),
        match_index: assign_peers(s.match_index, s.peer_ids, 0),
        heartbeat_deadline: (now + s.heartbeat_interval) as u64,
        ..s
    };
    (s1, replication_actions(s1))
}

/// Become candidate in the next term voting for itself; lead at once when that
/// vote is already a majority, else ask every peer for its vote.
pub open spec fn become_candidate(s: RaftNodeView, now: u64) -> (RaftNodeView, Seq<ActionView>) {
    let s1 = RaftNodeView {
        role: Role::Candidate,
        term: (s.term + 1) as u64,
        voted_for: Some(s.id),
        votes_granted: Set::empty().insert(s.id),
        next_index: Map::empty(),
        match_index: Map::empty(),
        election_deadline: (now + s.election_timeout) as u64,
        ..s
    };
    if has_majority(s1) {
        become_leader(s1, now)
    } else {
        (s1, request_vote_actions(s1))
    }
}

/// Starting an election can be done without an arithmetic overflow.
pub open spec fn election_ok(s: RaftNodeView, now: u64) -> bool {
    &&& s.term < u64::MAX
    &&& now + s.election_timeout <= u64::MAX
    &&& now + s.heartbeat_interval <= u64::MAX
    &&& s.peer_ids.len() < usize::MAX
}

/// A follower or candidate whose election deadline has come.
pub open spec fn election_timed_out(s: RaftNodeView, now: u64) -> bool {
    s.role != Role::Leader && now >= s.election_deadline
}

/// A leader whose heartbeat deadline has come.
pub open spec fn heartbeat_due(s: RaftNodeView, now: u64) -> bool {
    s.role == Role::Leader && now >= s.heartbeat_deadline
}

/// Start an election when the election timer has fired; otherwise nothing.
pub open spec fn election_timeout_step(s: RaftNodeView, now: u64) -> (RaftNodeView, Seq<ActionView>) {
    if election_timed_out(s, now) {
        become_candidate(s, now)
    } else {
        (s, Seq::empty())
    }
}

/// Send heartbeats and restart the heartbeat timer when due; otherwise nothing.
pub open spec fn heartbeat_step(s: RaftNodeView, now: u64) -> (RaftNodeView, Seq<ActionView>) {
    if heartbeat_due(s, now) {
        let s1 = RaftNodeView { heartbeat_deadline: (now + s.heartbeat_interval) as u64, ..s };
        (s1, replication_actions(s1))
    } else {
        (s, Seq::empty())
    }
}

/// What a RequestVote response does to the candidate and what it sends.
pub open spec fn vote_response_step(
    s: RaftNodeView,
    now: u64,
    from: u64,
    resp: RequestVoteResponse,
) -> (RaftNodeView, Seq<ActionView>) {
    if resp.term > s.term {
        (become_follower(s, resp.term, now), Seq::empty())
    } else if s.role != Role::Candidate || resp.term < s.term {
        (s, Seq::empty())
    } else if resp.vote_granted {
        let s1 = RaftNodeView { votes_granted: s.votes_granted.insert(from), ..s };
        if has_majority(s1) {
            become_leader(s1, now)
        } else {
            (s1, Seq::empty())
        }
    } else {
        (s, Seq::empty())
    }
}

/// A leader appends an entry of its term holding `data` and replicates; any other
/// role refuses.
pub open spec fn propose_step(s: RaftNodeView, data: Seq<u8>) -> (
    RaftNodeView,
    Result<Seq<ActionView>, ProposeError>,
) {
    if s.role != Role::Leader {
        (s, Err(ProposeError::NotLeader))
    } else {
        let s1 = RaftNodeView { log: s.log.push(LogEntryView { term: s.term, data }), ..s };
        (s1, Ok(replication_actions(s1)))
    }
}

/// Number of followers whose match index reaches `index`.
pub open spec fn replicated(match_index: Map<u64, u64>, index: u64) -> nat {
    match_index.dom().filter(|k: u64| match_index[k] >= index).len()
}

/// The entry at `index` is of the current term and stored on a majority (the
/// leader counted once, plus every follower whose match index reaches it).
pub open spec fn committable(s: RaftNodeView, index: int) -> bool {
    &&& 0 <= index < s.log.len()
    &&& s.log[index].term == s.term
    &&& 1 + replicated(s.match_index, index as u64) >= majority(s.peer_ids.len() as int)
}

/// The highest committable index in `(commit_index, hi]`, or the commit index
/// when there is none.
pub open spec fn highest_committable(s: RaftNodeView, hi: int) -> int
    decreases hi - s.commit_index,
{
    if hi <= s.commit_index {
        s.commit_index as int
    } else if committable(s, hi) {
        hi
    } else {
        highest_committable(s, hi - 1)
    }
}

/// Commit up to the highest committable index, apply what became committed, and,
/// when the commit index moved, tell every peer.
pub open spec fn advance_commit_step(s: RaftNodeView) -> (RaftNodeView, Seq<ActionView>) {
    let s1 = RaftNodeView {
        commit_index: highest_committable(s, last_index(s.log) as int) as u64,
        ..s
    };
    let (s2, applied) = apply_step(s1);
    if s1.commit_index > s.commit_index {
        (s2, applied + replication_actions(s2))
    } else {
        (s2, applied)
    }
}

/// What an AppendEntries response does to the leader and what it sends.
pub open spec fn append_response_step(
    s: RaftNodeView,
    now: u64,
    from: u64,
    resp: AppendEntriesResponse,
) -> (RaftNodeView, Seq<ActionView>) {
    if resp.term > s.term {
        (become_follower(s, resp.term, now), Seq::empty())
    } else if s.role != Role::Leader || resp.term < s.term {
        (s, Seq::empty())
    } else {
        let next = if s.next_index.contains_key(from) {
            s.next_index[from]
        } else {
            1
        };
        if resp.success {
            advance_commit_step(append_response_step_matched(s, from))
        } else {
            let s1 = if next > 1 {
                RaftNodeView { next_index: s.next_index.insert(from, (next - 1) as u64), ..s }
            } else {
                s
            };
            (
                s1,
                seq![
                    ActionView::Send {
                        to: from,
                        msg: MessageView::AppendEntries(append_entries_for(s1, from)),
                    },
                ],
            )
        }
    }
}

/// The AppendEntries response can be handled without an arithmetic overflow and
/// without meeting a committed entry that is missing or does not decode.
pub open spec fn append_response_ok(
    s: RaftNodeView,
    now: u64,
    from: u64,
    resp: AppendEntriesResponse,
) -> bool {
    &&& resp.term > s.term ==> now + s.election_timeout <= u64::MAX
    &&& (resp.term == s.term && s.role == Role::Leader && resp.success) ==> {
        let s1 = append_response_step_matched(s, from);
        &&& s1.commit_index < u64::MAX
        &&& s1.match_index.len() < usize::MAX
        &&& s1.peer_ids.len() < usize::MAX
        &&& can_apply(
            s1.log,
            s1.last_applied,
            highest_committable(s1, last_index(s1.log) as int) as u64,
        )
    }
}

/// The leader's state after a successful AppendEntries response from `from`
/// updated that follower's progress, before the commit index moves.
pub open spec fn append_response_step_matched(s: RaftNodeView, from: u64) -> RaftNodeView {
    let next = if s.next_index.contains_key(from) {
        s.next_index[from]
    } else {
        1
    };
    let matched: u64 = if next <= last_index(s.log) {
        last_index(s.log)
    } else if next == 0 {
        0
    } else {
        (next - 1) as u64
    };
    RaftNodeView {
        match_index: s.match_index.insert(from, matched),
        next_index: s.next_index.insert(from, (matched + 1) as u64),
        ..s
    }
}

} // verus!
