//! What stays true of a simulator as long as its nodes are only driven through it,
//! and the proofs that every simulator step keeps it and meets what the node
//! operations require.

use super::model::{
    blocked, deliver_spec, drain_spec, enqueue_spec, heartbeats_spec, pos, rebooted, send_spec, strictly_increasing,
    timeouts_spec, with_node, PendingView, SimView,
};
use crate::raft::model::{
    advance_commit_step, append_entries_for, append_entries_ok, append_entries_step,
    append_response_ok, append_response_step, append_response_step_matched, appended_log,
    apply_step, assign_peers, become_candidate, become_follower, become_leader, can_apply,
    commit_after_append, election_ok, election_timeout_step, heartbeat_step, highest_committable,
    last_index, merge_entries, propose_step, replication_actions, request_vote_actions,
    request_vote_step, vote_response_step,
};
use crate::raft::{ActionView, AppendEntriesView, RequestVoteResponse, AppendEntriesResponse, LogEntryView, MessageView, RaftNodeView, RequestVote};
use crate::state_machine::decodes;
use vstd::prelude::*;

verus! {

/// Every entry after the sentinel decodes to a command.
pub open spec fn log_decodes(log: Seq<LogEntryView>) -> bool {
    forall|i: int| 1 <= i < log.len() ==> decodes(#[trigger] log[i].data)
}

/// Every entry decodes to a command.
pub open spec fn entries_decode(entries: Seq<LogEntryView>) -> bool {
    forall|i: int| 0 <= i < entries.len() ==> decodes(#[trigger] entries[i].data)
}

/// The parts of the node invariant that do not concern what is committed: term and
/// timers within bounds, a non-empty decodable log, peers and followers that are
/// nodes of the cluster, and next indices of at least 1.
pub open spec fn node_shape(n: RaftNodeView, ids: Seq<u64>, tick: u64) -> bool {
    &&& n.term <= tick
    &&& tick + n.election_timeout <= u64::MAX
    &&& tick + n.heartbeat_interval <= u64::MAX
    &&& 1 <= n.log.len() <= usize::MAX
    &&& log_decodes(n.log)
    &&& n.peer_ids.len() < usize::MAX
    &&& forall|k: int| 0 <= k < n.peer_ids.len() ==> ids.contains(#[trigger] n.peer_ids[k])
    &&& forall|k: u64| #[trigger] n.match_index.contains_key(k) ==> ids.contains(k)
    &&& forall|k: u64| #[trigger] n.next_index.contains_key(k) ==> n.next_index[k] >= 1
}

/// A node that the simulator can drive at `tick` without an overflow or a
/// committed entry that does not decode: its shape is right and it has applied
/// everything committed.
pub open spec fn node_inv(n: RaftNodeView, ids: Seq<u64>, tick: u64) -> bool {
    &&& node_shape(n, ids, tick)
    &&& n.commit_index <= n.last_applied
    &&& n.last_applied < u64::MAX
}

/// The term a message carries.
pub open spec fn msg_term(m: MessageView) -> u64 {
    match m {
        MessageView::RequestVote(r) => r.term,
        MessageView::AppendEntries(a) => a.term,
        MessageView::RequestVoteResponse(r) => r.term,
        MessageView::AppendEntriesResponse(r) => r.term,
    }
}

/// A message to `to` that a node of the cluster can receive at `tick`.
pub open spec fn msg_ok(to: u64, m: MessageView, ids: Seq<u64>, tick: u64) -> bool {
    &&& ids.contains(to)
    &&& msg_term(m) <= tick
    &&& (m matches MessageView::AppendEntries(a) ==> {
        &&& entries_decode(a.entries)
        &&& (a.entries.len() > 0 ==> a.prev_log_index < u64::MAX)
    })
}

/// A queued message between nodes of the cluster that its receiver can handle.
pub open spec fn pending_ok(p: PendingView, ids: Seq<u64>, tick: u64) -> bool {
    ids.contains(p.from) && msg_ok(p.to, p.msg, ids, tick)
}

/// Every message among the actions can be queued.
pub open spec fn actions_ok(acts: Seq<ActionView>, ids: Seq<u64>, tick: u64) -> bool {
    forall|k: int|
        0 <= k < acts.len() ==> (#[trigger] acts[k] matches ActionView::Send { to, msg } ==> msg_ok(
            to,
            msg,
            ids,
            tick,
        ))
}

/// Every queued message can be handled.
pub open spec fn inbox_ok(inbox: Seq<PendingView>, ids: Seq<u64>, tick: u64) -> bool {
    forall|k: int| 0 <= k < inbox.len() ==> pending_ok(#[trigger] inbox[k], ids, tick)
}

/// The simulator invariant.
pub open spec fn sim_inv(s: SimView) -> bool {
    &&& s.nodes.len() == s.ids.len()
    &&& s.crashed.len() == s.ids.len()
    &&& s.ids.len() < usize::MAX
    &&& strictly_increasing(s.ids)
    &&& forall|j: int| 0 <= j < s.nodes.len() ==> node_inv(#[trigger] s.nodes[j], s.ids, s.tick)
    &&& inbox_ok(s.inbox, s.ids, s.tick)
}

/// Every node's timers can be restarted at tick `t` without an overflow.
pub open spec fn timers_fit(s: SimView, t: int) -> bool {
    forall|j: int|
        0 <= j < s.nodes.len() ==> t + (#[trigger] s.nodes[j]).election_timeout <= u64::MAX && t
            + s.nodes[j].heartbeat_interval <= u64::MAX
}

/// The parts of the simulator that sending, queueing and draining leave alone.
pub open spec fn same_frame(a: SimView, b: SimView) -> bool {
    &&& a.tick == b.tick
    &&& a.ids == b.ids
    &&& a.crashed == b.crashed
    &&& a.partitions == b.partitions
    &&& a.message_delay == b.message_delay
    &&& a.drop_every_nth == b.drop_every_nth
}

/// Both simulators have the same nodes' timer settings, position by position.
pub open spec fn same_timers(a: SimView, b: SimView) -> bool {
    &&& a.nodes.len() == b.nodes.len()
    &&& forall|j: int|
        0 <= j < a.nodes.len() ==> (#[trigger] a.nodes[j]).election_timeout
            == b.nodes[j].election_timeout && a.nodes[j].heartbeat_interval
            == b.nodes[j].heartbeat_interval
}

/// The node at `id` is at its position.
pub proof fn lemma_pos(ids: Seq<u64>, id: u64, j: int)
    requires
        strictly_increasing(ids),
        0 <= j < ids.len(),
        ids[j] == id,
    ensures
        pos(ids, id) == j,
{
    let p = pos(ids, id);
    assert(ids.contains(id));
    assert(0 <= p < ids.len() && ids[p] == id);
    if p < j {
        assert(ids[p] < ids[j]);
    } else if p > j {
        assert(ids[j] < ids[p]);
    }
}

/// Sending a message the cluster can handle keeps the invariant.
pub proof fn lemma_send(s: SimView, from: u64, to: u64, m: MessageView)
    requires
        sim_inv(s),
        s.ids.contains(from),
        msg_ok(to, m, s.ids, s.tick),
    ensures
        sim_inv(send_spec(s, from, to, m)),
        same_frame(send_spec(s, from, to, m), s),
        send_spec(s, from, to, m).nodes == s.nodes,
{
    let r = send_spec(s, from, to, m);
    assert forall|k: int| 0 <= k < r.inbox.len() implies pending_ok(#[trigger] r.inbox[k], r.ids, r.tick) by {
        if k < s.inbox.len() {
            assert(pending_ok(s.inbox[k], s.ids, s.tick));
        }
    }
}

/// Queueing the messages of a node's actions keeps the invariant.
pub proof fn lemma_enqueue(s: SimView, from: u64, acts: Seq<ActionView>)
    requires
        sim_inv(s),
        s.ids.contains(from),
        actions_ok(acts, s.ids, s.tick),
    ensures
        sim_inv(enqueue_spec(s, from, acts)),
        same_frame(enqueue_spec(s, from, acts), s),
        enqueue_spec(s, from, acts).nodes == s.nodes,
    decreases acts.len(),
{
    if acts.len() > 0 {
        let a = acts[0];
        let s1 = match a {
            ActionView::Send { to, msg } => send_spec(s, from, to, msg),
            ActionView::Apply { .. } => s,
        };
        match a {
            ActionView::Send { to, msg } => {
                lemma_send(s, from, to, msg);
            },
            ActionView::Apply { .. } => {},
        }
        assert forall|k: int| 0 <= k < acts.drop_first().len() implies (
        #[trigger] acts.drop_first()[k] matches ActionView::Send { to, msg } ==> msg_ok(
            to,
            msg,
            s1.ids,
            s1.tick,
        )) by {
            assert(acts.drop_first()[k] == acts[k + 1]);
        }
        lemma_enqueue(s1, from, acts.drop_first());
    }
}

/// Strictly increasing ids hold no duplicates.
pub proof fn lemma_ids_distinct(ids: Seq<u64>)
    requires
        strictly_increasing(ids),
    ensures
        ids.no_duplicates(),
        ids.to_set().len() == ids.len(),
{
    assert forall|a: int, b: int| 0 <= a < ids.len() && 0 <= b < ids.len() && a != b implies ids[a]
        != ids[b] by {
        if a < b {
            assert(ids[a] < ids[b]);
        } else {
            assert(ids[b] < ids[a]);
        }
    }
    ids.unique_seq_to_set();
}

/// A map whose keys are node ids has fewer keys than `usize::MAX`.
pub proof fn lemma_keys_fit(m: Map<u64, u64>, ids: Seq<u64>)
    requires
        strictly_increasing(ids),
        ids.len() < usize::MAX,
        forall|k: u64| #[trigger] m.contains_key(k) ==> ids.contains(k),
    ensures
        m.dom().finite(),
        m.len() < usize::MAX,
{
    lemma_ids_distinct(ids);
    assert(m.dom().subset_of(ids.to_set()));
    vstd::set_lib::lemma_len_subset(m.dom(), ids.to_set());
}

/// The AppendEntries requests a node satisfying the invariant sends can be handled.
pub proof fn lemma_replication_ok(n: RaftNodeView, ids: Seq<u64>, tick: u64)
    requires
        node_inv(n, ids, tick),
    ensures
        actions_ok(replication_actions(n), ids, tick),
{
    let acts = replication_actions(n);
    assert forall|k: int| 0 <= k < acts.len() implies (#[trigger] acts[k] matches ActionView::Send {
        to,
        msg,
    } ==> msg_ok(to, msg, ids, tick)) by {
        let to = n.peer_ids[k];
        let ae = append_entries_for(n, to);
        assert(acts[k] == ActionView::Send { to, msg: MessageView::AppendEntries(ae) });
        assert(ids.contains(to));
        let next = if n.next_index.contains_key(to) {
            n.next_index[to]
        } else {
            1
        };
        assert(next >= 1);
        if next <= last_index(n.log) {
            assert forall|i: int| 0 <= i < ae.entries.len() implies decodes(
                #[trigger] ae.entries[i].data,
            ) by {
                assert(ae.entries[i] == n.log[next + i]);
            }
        }
    }
}

/// The RequestVote requests a node satisfying the invariant sends can be handled.
pub proof fn lemma_request_votes_ok(n: RaftNodeView, ids: Seq<u64>, tick: u64)
    requires
        node_inv(n, ids, tick),
    ensures
        actions_ok(request_vote_actions(n), ids, tick),
{
    let acts = request_vote_actions(n);
    assert forall|k: int| 0 <= k < acts.len() implies (#[trigger] acts[k] matches ActionView::Send {
        to,
        msg,
    } ==> msg_ok(to, msg, ids, tick)) by {
        assert(ids.contains(n.peer_ids[k]));
    }
}

/// Becoming leader keeps the node invariant and sends only messages that can be handled.
pub proof fn lemma_leader(n: RaftNodeView, ids: Seq<u64>, tick: u64)
    requires
        node_inv(n, ids, tick),
    ensures
        node_inv(become_leader(n, tick).0, ids, tick),
        actions_ok(become_leader(n, tick).1, ids, tick),
{
    let s1 = become_leader(n, tick).0;
    let next = (last_index(n.log) + 1) as u64;
    assert(last_index(n.log) + 1 <= u64::MAX);
    assert forall|k: u64| #[trigger] s1.next_index.contains_key(k) implies s1.next_index[k] >= 1 by {
        if !n.peer_ids.contains(k) {
            assert(n.next_index.contains_key(k));
        }
    }
    assert forall|k: u64| #[trigger] s1.match_index.contains_key(k) implies ids.contains(k) by {
        if n.peer_ids.contains(k) {
            let x = choose|x: int| 0 <= x < n.peer_ids.len() && n.peer_ids[x] == k;
            assert(ids.contains(n.peer_ids[x]));
        } else {
            assert(n.match_index.contains_key(k));
        }
    }
    lemma_replication_ok(s1, ids, tick);
}

/// Stepping down keeps the node invariant.
pub proof fn lemma_follower(n: RaftNodeView, term: u64, ids: Seq<u64>, tick: u64)
    requires
        node_inv(n, ids, tick),
        term <= tick,
    ensures
        node_inv(become_follower(n, term, tick), ids, tick),
{
}

/// Starting an election at `tick` from a term below `tick` can be done and keeps the
/// node invariant; what it sends can be handled.
pub proof fn lemma_candidate(n: RaftNodeView, ids: Seq<u64>, tick: u64)
    requires
        node_inv(n, ids, tick),
        n.term < tick,
    ensures
        election_ok(n, tick),
        node_inv(become_candidate(n, tick).0, ids, tick),
        actions_ok(become_candidate(n, tick).1, ids, tick),
{
    let s1 = RaftNodeView {
        role: crate::raft::Role::Candidate,
        term: (n.term + 1) as u64,
        voted_for: Some(n.id),
        votes_granted: Set::empty().insert(n.id),
        next_index: Map::empty(),
        match_index: Map::empty(),
        election_deadline: (tick + n.election_timeout) as u64,
        ..n
    };
    assert(node_inv(s1, ids, tick));
    lemma_leader(s1, ids, tick);
    lemma_request_votes_ok(s1, ids, tick);
}

/// Applying what is committed keeps the node invariant, once the commit index lies
/// within the log.
pub proof fn lemma_apply(n: RaftNodeView, ids: Seq<u64>, tick: u64)
    requires
        node_shape(n, ids, tick),
        n.last_applied < u64::MAX,
        n.commit_index <= n.last_applied || n.commit_index <= last_index(n.log),
    ensures
        can_apply(n.log, n.last_applied, n.commit_index),
        node_inv(apply_step(n).0, ids, tick),
        apply_step(n).0.log == n.log,
        apply_step(n).0.term == n.term,
{
    assert forall|i: int| n.last_applied < i <= n.commit_index implies i < n.log.len()
        && decodes(#[trigger] n.log[i].data) by {
        assert(1 <= i < n.log.len());
    }
    assert(last_index(n.log) < u64::MAX);
    let r = apply_step(n).0;
    assert(r.commit_index <= r.last_applied);
    assert(r.last_applied < u64::MAX);
    assert(log_decodes(r.log));
    assert(r.term <= tick);
    assert(r.match_index == n.match_index);
    assert(r.next_index == n.next_index);
    assert(node_shape(r, ids, tick));
}

/// Handling a RequestVote keeps the node invariant; the response's term is within bounds.
pub proof fn lemma_request_vote(n: RaftNodeView, ids: Seq<u64>, tick: u64, req: RequestVote)
    requires
        node_inv(n, ids, tick),
        req.term <= tick,
    ensures
        node_inv(request_vote_step(n, tick, req).0, ids, tick),
        request_vote_step(n, tick, req).1.term <= tick,
{
    let r = request_vote_step(n, tick, req).0;
    if req.term >= n.term {
        assert(r.match_index == n.match_index || r.match_index == Map::<u64, u64>::empty());
        assert(r.next_index == n.next_index || r.next_index == Map::<u64, u64>::empty());
    }
}

/// Storing entries from an index of at least 1 keeps every entry after the
/// sentinel decodable, when the stored entries decode; the log stays non-empty.
pub proof fn lemma_merge_decodes(log: Seq<LogEntryView>, start: int, entries: Seq<LogEntryView>, i: int)
    requires
        start >= 1,
        log.len() >= 1,
        0 <= i,
        log_decodes(log),
        entries_decode(entries),
    ensures
        log_decodes(merge_entries(log, start, entries, i)),
        merge_entries(log, start, entries, i).len() >= 1,
    decreases entries.len() - i,
{
    let m = merge_entries(log, start, entries, i);
    if i >= entries.len() {
    } else if start + i < log.len() {
        if log[start + i].term != entries[i].term {
            assert forall|k: int| 1 <= k < m.len() implies decodes(#[trigger] m[k].data) by {
                if k < start + i {
                    assert(m[k] == log[k]);
                } else {
                    assert(m[k] == entries[k - start]);
                }
            }
        } else {
            lemma_merge_decodes(log, start, entries, i + 1);
        }
    } else {
        assert forall|k: int| 1 <= k < m.len() implies decodes(#[trigger] m[k].data) by {
            if k < log.len() {
                assert(m[k] == log[k]);
            } else {
                assert(m[k] == entries[k - log.len() + i]);
            }
        }
    }
}

/// Handling an AppendEntries request that can be received meets what the handler
/// requires and, once the new log fits a vector, keeps the node invariant.
pub proof fn lemma_append_entries(n: RaftNodeView, ids: Seq<u64>, tick: u64, req: AppendEntriesView)
    requires
        node_inv(n, ids, tick),
        req.term <= tick,
        entries_decode(req.entries),
        req.entries.len() > 0 ==> req.prev_log_index < u64::MAX,
    ensures
        append_entries_ok(n, tick, req),
        append_entries_step(n, tick, req).1.term <= tick,
        append_entries_step(n, tick, req).0.log.len() <= usize::MAX ==> node_inv(
            append_entries_step(n, tick, req).0,
            ids,
            tick,
        ),
{
    if req.term >= n.term {
        let s1 = if req.term > n.term {
            become_follower(n, req.term, tick)
        } else {
            n
        };
        let s2 = RaftNodeView { role: crate::raft::Role::Follower, votes_granted: Set::empty(), ..s1 };
        if crate::raft::model::prev_matches(s2.log, req) {
            let log2 = appended_log(s2.log, req);
            lemma_merge_decodes(s2.log, req.prev_log_index + 1, req.entries, 0);
            let c = commit_after_append(s2, req);
            let s3 = RaftNodeView {
                election_deadline: (tick + n.election_timeout) as u64,
                log: log2,
                commit_index: c,
                ..s2
            };
            assert(s3.match_index == n.match_index || s3.match_index == Map::<u64, u64>::empty());
            assert(s3.next_index == n.next_index || s3.next_index == Map::<u64, u64>::empty());
            assert(node_shape(RaftNodeView { log: n.log, ..s3 }, ids, tick));
            if log2.len() <= usize::MAX {
                assert(node_shape(s3, ids, tick));
                lemma_apply(s3, ids, tick);
            }
            assert forall|i: int| s3.last_applied < i <= s3.commit_index implies i < s3.log.len()
                && decodes(#[trigger] s3.log[i].data) by {
                assert(1 <= i < s3.log.len());
            }
        }
    }
}

/// Handling a RequestVote response keeps the node invariant and sends only
/// messages that can be handled.
pub proof fn lemma_vote_response(
    n: RaftNodeView,
    ids: Seq<u64>,
    tick: u64,
    from: u64,
    resp: crate::raft::RequestVoteResponse,
)
    requires
        node_inv(n, ids, tick),
        resp.term <= tick,
    ensures
        node_inv(vote_response_step(n, tick, from, resp).0, ids, tick),
        actions_ok(vote_response_step(n, tick, from, resp).1, ids, tick),
{
    if resp.term > n.term {
        lemma_follower(n, resp.term, ids, tick);
    } else if n.role == crate::raft::Role::Candidate && resp.term == n.term && resp.vote_granted {
        let s1 = RaftNodeView { votes_granted: n.votes_granted.insert(from), ..n };
        assert(node_inv(s1, ids, tick));
        lemma_leader(s1, ids, tick);
    }
}

/// Handling an AppendEntries response from a node of the cluster meets what the
/// handler requires, keeps the node invariant and sends only messages that can be
/// handled.
pub proof fn lemma_append_response(
    n: RaftNodeView,
    ids: Seq<u64>,
    tick: u64,
    from: u64,
    resp: crate::raft::AppendEntriesResponse,
)
    requires
        node_inv(n, ids, tick),
        strictly_increasing(ids),
        ids.len() < usize::MAX,
        ids.contains(from),
        resp.term <= tick,
    ensures
        append_response_ok(n, tick, from, resp),
        node_inv(append_response_step(n, tick, from, resp).0, ids, tick),
        actions_ok(append_response_step(n, tick, from, resp).1, ids, tick),
{
    if resp.term > n.term {
        lemma_follower(n, resp.term, ids, tick);
    } else if n.role == crate::raft::Role::Leader && resp.term == n.term {
        let next = if n.next_index.contains_key(from) {
            n.next_index[from]
        } else {
            1
        };
        assert(last_index(n.log) < u64::MAX);
        if resp.success {
            let s1 = append_response_step_matched(n, from);
            assert forall|k: u64| #[trigger] s1.match_index.contains_key(k) implies ids.contains(
                k,
            ) by {
                if k != from {
                    assert(n.match_index.contains_key(k));
                }
            }
            assert forall|k: u64| #[trigger] s1.next_index.contains_key(k) implies s1.next_index[k]
                >= 1 by {
                if k != from {
                    assert(n.next_index.contains_key(k));
                }
            }
            lemma_keys_fit(s1.match_index, ids);
            assert(node_shape(s1, ids, tick));
            let h = highest_committable(s1, last_index(s1.log) as int);
            crate::raft::laws::lemma_highest_committable_bounds(s1, last_index(s1.log) as int);
            let s2 = RaftNodeView { commit_index: h as u64, ..s1 };
            assert(node_shape(s2, ids, tick));
            lemma_apply(s2, ids, tick);
            lemma_replication_ok(apply_step(s2).0, ids, tick);
            let acts = advance_commit_step(s1).1;
            assert forall|k: int| 0 <= k < acts.len() implies (#[trigger] acts[k] matches ActionView::Send {
                to,
                msg,
            } ==> msg_ok(to, msg, ids, tick)) by {
                let ap = apply_step(s2).1;
                if k < ap.len() {
                    assert(acts[k] == ap[k]);
                } else {
                    assert(acts[k] == replication_actions(apply_step(s2).0)[k - ap.len()]);
                }
            }
        } else {
            let s1 = if next > 1 {
                RaftNodeView { next_index: n.next_index.insert(from, (next - 1) as u64), ..n }
            } else {
                n
            };
            assert forall|k: u64| #[trigger] s1.next_index.contains_key(k) implies s1.next_index[k]
                >= 1 by {
                if k != from {
                    assert(n.next_index.contains_key(k));
                }
            }
            assert(node_inv(s1, ids, tick));
            lemma_replication_ok(s1, ids, tick);
            let ae = append_entries_for(s1, from);
            let acts = append_response_step(n, tick, from, resp).1;
            assert(acts[0] == ActionView::Send { to: from, msg: MessageView::AppendEntries(ae) });
            let nx = if s1.next_index.contains_key(from) {
                s1.next_index[from]
            } else {
                1
            };
            if nx <= last_index(s1.log) {
                assert forall|i: int| 0 <= i < ae.entries.len() implies decodes(
                    #[trigger] ae.entries[i].data,
                ) by {
                    assert(ae.entries[i] == s1.log[nx + i]);
                }
            }
        }
    }
}

/// The heartbeat timer keeps the node invariant and sends only messages that can be handled.
pub proof fn lemma_heartbeat(n: RaftNodeView, ids: Seq<u64>, tick: u64)
    requires
        node_inv(n, ids, tick),
    ensures
        node_inv(heartbeat_step(n, tick).0, ids, tick),
        actions_ok(heartbeat_step(n, tick).1, ids, tick),
        heartbeat_step(n, tick).0.term == n.term,
{
    let s1 = RaftNodeView { heartbeat_deadline: (tick + n.heartbeat_interval) as u64, ..n };
    assert(node_inv(s1, ids, tick));
    lemma_replication_ok(s1, ids, tick);
}

/// The election timer, on a node whose term is below `tick`, meets what starting
/// an election requires, keeps the node invariant and sends only messages that can
/// be handled.
pub proof fn lemma_election_timer(n: RaftNodeView, ids: Seq<u64>, tick: u64)
    requires
        node_inv(n, ids, tick),
        n.term < tick,
    ensures
        crate::raft::model::election_timed_out(n, tick) ==> election_ok(n, tick),
        node_inv(election_timeout_step(n, tick).0, ids, tick),
        actions_ok(election_timeout_step(n, tick).1, ids, tick),
{
    lemma_candidate(n, ids, tick);
}

/// A proposal of decodable bytes keeps the node invariant once the new log fits a
/// vector, and sends only messages that can be handled.
pub proof fn lemma_propose(n: RaftNodeView, ids: Seq<u64>, tick: u64, data: Seq<u8>)
    requires
        node_inv(n, ids, tick),
        decodes(data),
    ensures
        propose_step(n, data).0.log.len() <= usize::MAX ==> node_inv(propose_step(n, data).0, ids, tick),
        propose_step(n, data).1 matches Ok(acts) ==> (propose_step(n, data).0.log.len() <= usize::MAX
            ==> actions_ok(acts, ids, tick)),
{
    let r = propose_step(n, data).0;
    if n.role == crate::raft::Role::Leader && r.log.len() <= usize::MAX {
        assert forall|i: int| 1 <= i < r.log.len() implies decodes(#[trigger] r.log[i].data) by {
            if i < n.log.len() {
                assert(r.log[i] == n.log[i]);
            }
        }
        assert(node_inv(r, ids, tick));
        lemma_replication_ok(r, ids, tick);
    }
}

/// A restarted node satisfies the invariant.
pub proof fn lemma_reboot(n: RaftNodeView, ids: Seq<u64>, tick: u64)
    requires
        node_inv(n, ids, tick),
    ensures
        node_inv(rebooted(n, tick), ids, tick),
{
}

/// A simulator whose invariant holds keeps it with one node replaced by a node
/// satisfying the node invariant.
pub proof fn lemma_with_node(s: SimView, j: int, n: RaftNodeView)
    requires
        sim_inv(s),
        0 <= j < s.nodes.len(),
        node_inv(n, s.ids, s.tick),
    ensures
        sim_inv(with_node(s, j, n)),
        same_frame(with_node(s, j, n), s),
{
}

/// The invariant holds one tick later when every node's timers fit then.
pub proof fn lemma_next_tick(s: SimView)
    requires
        sim_inv(s),
        timers_fit(s, s.tick + 1),
        s.tick < u64::MAX,
    ensures
        sim_inv(SimView { tick: (s.tick + 1) as u64, ..s }),
{
    let t = SimView { tick: (s.tick + 1) as u64, ..s };
    assert forall|j: int| 0 <= j < t.nodes.len() implies node_inv(#[trigger] t.nodes[j], t.ids, t.tick) by {
        assert(node_inv(s.nodes[j], s.ids, s.tick));
    }
    assert forall|k: int| 0 <= k < t.inbox.len() implies pending_ok(#[trigger] t.inbox[k], t.ids, t.tick) by {
        assert(pending_ok(s.inbox[k], s.ids, s.tick));
    }
}

} // verus!
