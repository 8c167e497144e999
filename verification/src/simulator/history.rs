//! The records behind the cluster-wide laws, and the proofs that every simulator
//! operation keeps a fitting pair of them.
//!
//! A simulator is `history_consistent` when some record of the votes cast and some
//! record of the entries created fit it together (`history_fit`). `Simulator::new`
//! establishes it and every operation but `node_mut` keeps it; election safety and
//! log matching follow from it.

use super::election::{
    acts_votes_ok, cluster_ok, elected, lemma_append_entries_votes, lemma_append_response_votes,
    lemma_elected_grows, lemma_elected_unique, lemma_election_timer_votes, lemma_heartbeat_votes, lemma_msg_grows, lemma_one_leader_per_term, lemma_pos_of,
    lemma_propose_votes, lemma_reboot_votes, lemma_request_vote_votes, lemma_send_votes,
    lemma_vote_response_votes, lemma_with_node_votes, msg_votes_ok, node_votes_ok,
    one_leader_per_term, record_vote, sent_ok, votes_consistent, votes_fit,
};
use super::matching::{
    acts_log_ok, append_bounded, append_fits, cand_mono, fresh_leader_ok, lemma_append_entries_log,
    lemma_append_fits_grows, lemma_append_response_log, lemma_election_timer_log,
    lemma_fitting_logs_match, lemma_heartbeat_log, lemma_log_fits_grows, lemma_propose_log,
    lemma_reboot_log, lemma_request_vote_log, lemma_vote_response_log, node_log_ok, prefix_ok,
    record_entry,
};
use super::model::{
    deliver_spec, drain_spec, enqueue_spec, heartbeats_spec, logs_match, matching_property, pos,
    propose_spec, rebooted, send_spec, tick_spec, timeouts_spec, with_node, PendingView, SimView,
};
use super::safety::sim_inv;
use crate::raft::{ActionView, LogEntryView, MessageView, RaftNodeView, Role};
use vstd::prelude::*;

verus! {

/// What the entry record says of a message from `from` to `to`: it is not sent to
/// its sender, and an AppendEntries fits the record and a vector and comes from a
/// node elected in its term.
pub open spec fn sent_log_ok(
    from: u64,
    to: u64,
    msg: MessageView,
    ids: Seq<u64>,
    h: Map<(u64, u64), u64>,
    e: Map<(u64, int), Seq<LogEntryView>>,
) -> bool {
    &&& from != to
    &&& (msg matches MessageView::AppendEntries(a) ==> {
        &&& append_fits(e, a)
        &&& append_bounded(a)
        &&& elected(ids, h, from, a.term)
    })
}

/// What the entry record says of a message in flight.
pub open spec fn msg_log_ok(p: PendingView, ids: Seq<u64>, h: Map<(u64, u64), u64>, e: Map<(u64, int), Seq<LogEntryView>>) -> bool {
    sent_log_ok(p.from, p.to, p.msg, ids, h, e)
}

/// The node at position `j` can be the one that created the entries of term `t`:
/// it was elected in `t`, has reached `t`, and has not stood for election again in
/// `t`.
pub open spec fn creator_at(s: SimView, h: Map<(u64, u64), u64>, j: int, t: u64) -> bool {
    &&& elected(s.ids, h, s.ids[j], t)
    &&& s.nodes[j].term >= t
    &&& (s.nodes[j].term == t ==> s.nodes[j].role != Role::Candidate)
}

/// The entry record fits the simulator: it is well formed, fits every node and
/// every message in flight, and every recorded entry past index 0 has a creator.
pub open spec fn logs_fit(s: SimView, h: Map<(u64, u64), u64>, e: Map<(u64, int), Seq<LogEntryView>>) -> bool {
    &&& prefix_ok(e)
    &&& forall|j: int| 0 <= j < s.nodes.len() ==> node_log_ok(#[trigger] s.nodes[j], s.ids[j], e)
    &&& forall|k: int| 0 <= k < s.inbox.len() ==> msg_log_ok(#[trigger] s.inbox[k], s.ids, h, e)
    &&& forall|t: u64, i: int|
        #[trigger] e.contains_key((t, i)) && i >= 1 ==> exists|j: int|
            0 <= j < s.nodes.len() && #[trigger] creator_at(s, h, j, t)
}

/// A record of votes and a record of entries that fit the simulator together.
pub open spec fn history_fit(s: SimView, h: Map<(u64, u64), u64>, e: Map<(u64, int), Seq<LogEntryView>>) -> bool {
    &&& votes_fit(s, h)
    &&& logs_fit(s, h, e)
}

/// Some record of the votes cast and some record of the entries created fit the
/// simulator.
pub open spec fn history_consistent(s: SimView) -> bool {
    exists|h: Map<(u64, u64), u64>, e: Map<(u64, int), Seq<LogEntryView>>| #[trigger] history_fit(s, h, e)
}

/// Every two nodes' logs, crashed nodes included, satisfy log matching.
pub open spec fn all_logs_match(s: SimView) -> bool {
    forall|a: int, b: int|
        0 <= a < s.nodes.len() && 0 <= b < s.nodes.len() ==> logs_match(
            (#[trigger] s.nodes[a]).log,
            (#[trigger] s.nodes[b]).log,
        )
}

/// Records that keep `h` and `e` fit every message they fit.
proof fn lemma_msg_log_grows(
    p: PendingView,
    ids: Seq<u64>,
    h: Map<(u64, u64), u64>,
    h2: Map<(u64, u64), u64>,
    e: Map<(u64, int), Seq<LogEntryView>>,
    e2: Map<(u64, int), Seq<LogEntryView>>,
)
    requires
        msg_log_ok(p, ids, h, e),
        h.submap_of(h2),
        e.submap_of(e2),
    ensures
        msg_log_ok(p, ids, h2, e2),
{
    if let MessageView::AppendEntries(a) = p.msg {
        lemma_append_fits_grows(e, e2, a);
        lemma_elected_grows(ids, h, h2, p.from, a.term);
    }
}

/// A creator stays one when a node steps per `cand_mono` and the vote record grows.
proof fn lemma_creator_kept(s: SimView, h: Map<(u64, u64), u64>, h2: Map<(u64, u64), u64>, t: u64, jc: int, j: int, n2: RaftNodeView)
    requires
        0 <= j < s.nodes.len(),
        0 <= jc < s.nodes.len(),
        creator_at(s, h, jc, t),
        h.submap_of(h2),
        cand_mono(s.nodes[j], n2),
    ensures
        creator_at(with_node(s, j, n2), h2, jc, t),
{
    lemma_elected_grows(s.ids, h, h2, s.ids[jc], t);
}

/// Replacing node `j` by a node that both records, with its vote and any new entry
/// written in, fit keeps the records fitting.
proof fn lemma_with_node_hist(
    s: SimView,
    j: int,
    n2: RaftNodeView,
    h: Map<(u64, u64), u64>,
    e: Map<(u64, int), Seq<LogEntryView>>,
    e2: Map<(u64, int), Seq<LogEntryView>>,
)
    requires
        cluster_ok(s),
        history_fit(s, h, e),
        0 <= j < s.nodes.len(),
        node_votes_ok(n2, s.ids[j], s.ids, record_vote(h, s.ids[j], n2)),
        h.submap_of(record_vote(h, s.ids[j], n2)),
        prefix_ok(e2),
        e.submap_of(e2),
        node_log_ok(n2, s.ids[j], e2),
        cand_mono(s.nodes[j], n2),
        forall|i: int| 0 <= i < s.nodes.len() && i != j ==> node_log_ok(#[trigger] s.nodes[i], s.ids[i], e2),
        forall|t: u64, x: int|
            #[trigger] e2.contains_key((t, x)) && x >= 1 && !e.contains_key((t, x)) ==> creator_at(
                with_node(s, j, n2),
                record_vote(h, s.ids[j], n2),
                j,
                t,
            ),
    ensures
        history_fit(with_node(s, j, n2), record_vote(h, s.ids[j], n2), e2),
{
    let h2 = record_vote(h, s.ids[j], n2);
    let t2 = with_node(s, j, n2);
    lemma_with_node_votes(s, j, n2, h);
    assert forall|i: int| 0 <= i < t2.nodes.len() implies node_log_ok(#[trigger] t2.nodes[i], t2.ids[i], e2) by {
        if i != j {
            assert(t2.nodes[i] == s.nodes[i]);
        }
    }
    assert forall|k: int| 0 <= k < t2.inbox.len() implies msg_log_ok(#[trigger] t2.inbox[k], t2.ids, h2, e2) by {
        lemma_msg_log_grows(s.inbox[k], s.ids, h, h2, e, e2);
    }
    assert forall|t: u64, x: int| #[trigger] e2.contains_key((t, x)) && x >= 1 implies exists|jc: int|
        0 <= jc < t2.nodes.len() && #[trigger] creator_at(t2, h2, jc, t) by {
        if e.contains_key((t, x)) {
            let jc = choose|jc: int| 0 <= jc < s.nodes.len() && #[trigger] creator_at(s, h, jc, t);
            lemma_creator_kept(s, h, h2, t, jc, j, n2);
        } else {
            assert(creator_at(t2, h2, j, t));
        }
    }
}

/// Replacing node `j` by a node that the records, with its vote written in, fit keeps
/// them fitting.
proof fn lemma_with_node_same(s: SimView, j: int, n2: RaftNodeView, h: Map<(u64, u64), u64>, e: Map<(u64, int), Seq<LogEntryView>>)
    requires
        cluster_ok(s),
        history_fit(s, h, e),
        0 <= j < s.nodes.len(),
        node_votes_ok(n2, s.ids[j], s.ids, record_vote(h, s.ids[j], n2)),
        h.submap_of(record_vote(h, s.ids[j], n2)),
        node_log_ok(n2, s.ids[j], e),
        cand_mono(s.nodes[j], n2),
    ensures
        history_fit(with_node(s, j, n2), record_vote(h, s.ids[j], n2), e),
{
    lemma_with_node_hist(s, j, n2, h, e, e);
}

/// Sending a message the records fit keeps them fitting.
proof fn lemma_send_hist(s: SimView, from: u64, to: u64, msg: MessageView, h: Map<(u64, u64), u64>, e: Map<(u64, int), Seq<LogEntryView>>)
    requires
        history_fit(s, h, e),
        sent_ok(from, to, msg, s.ids, h),
        sent_log_ok(from, to, msg, s.ids, h, e),
    ensures
        history_fit(send_spec(s, from, to, msg), h, e),
        send_spec(s, from, to, msg).nodes == s.nodes,
        send_spec(s, from, to, msg).ids == s.ids,
        send_spec(s, from, to, msg).tick == s.tick,
        send_spec(s, from, to, msg).crashed == s.crashed,
{
    let t2 = send_spec(s, from, to, msg);
    lemma_send_votes(s, from, to, msg, h);
    assert forall|k: int| 0 <= k < t2.inbox.len() implies msg_log_ok(#[trigger] t2.inbox[k], t2.ids, h, e) by {
        if k < s.inbox.len() {
            assert(t2.inbox[k] == s.inbox[k]);
        }
    }
    assert forall|t: u64, x: int| #[trigger] e.contains_key((t, x)) && x >= 1 implies exists|jc: int|
        0 <= jc < t2.nodes.len() && #[trigger] creator_at(t2, h, jc, t) by {
        let jc = choose|jc: int| 0 <= jc < s.nodes.len() && #[trigger] creator_at(s, h, jc, t);
        assert(creator_at(t2, h, jc, t));
    }
}

/// Sending the messages of a node's actions keeps fitting records fitting.
proof fn lemma_enqueue_hist(s: SimView, from: u64, acts: Seq<ActionView>, h: Map<(u64, u64), u64>, e: Map<(u64, int), Seq<LogEntryView>>)
    requires
        history_fit(s, h, e),
        s.ids.contains(from),
        acts_votes_ok(acts, from, s.ids),
        acts_log_ok(acts, from, s.ids, h, e),
    ensures
        history_fit(enqueue_spec(s, from, acts), h, e),
        enqueue_spec(s, from, acts).nodes == s.nodes,
        enqueue_spec(s, from, acts).ids == s.ids,
        enqueue_spec(s, from, acts).tick == s.tick,
        enqueue_spec(s, from, acts).crashed == s.crashed,
    decreases acts.len(),
{
    if acts.len() > 0 {
        let s1 = match acts[0] {
            ActionView::Send { to, msg } => send_spec(s, from, to, msg),
            ActionView::Apply { .. } => s,
        };
        if let ActionView::Send { to, msg } = acts[0] {
            lemma_send_hist(s, from, to, msg, h, e);
        }
        assert forall|k: int| 0 <= k < acts.drop_first().len() implies (#[trigger] acts.drop_first()[k] matches ActionView::Send { to, msg } ==> {
            &&& s1.ids.contains(to)
            &&& (msg matches MessageView::RequestVote(r) ==> r.candidate_id == from)
            &&& !(msg is RequestVoteResponse)
        }) by {
            assert(acts.drop_first()[k] == acts[k + 1]);
        }
        assert forall|k: int| 0 <= k < acts.drop_first().len() implies (#[trigger] acts.drop_first()[k] matches ActionView::Send { to, msg } ==> {
            &&& to != from
            &&& (msg matches MessageView::AppendEntries(a) ==> {
                &&& append_fits(e, a)
                &&& append_bounded(a)
                &&& elected(s1.ids, h, from, a.term)
            })
        }) by {
            assert(acts.drop_first()[k] == acts[k + 1]);
        }
        lemma_enqueue_hist(s1, from, acts.drop_first(), h, e);
    }
}

/// A node made leader by a vote response had been a candidate in that term.
proof fn lemma_vote_response_role(n: RaftNodeView, tick: u64, from: u64, resp: crate::raft::RequestVoteResponse)
    ensures
        ({
            let n2 = crate::raft::model::vote_response_step(n, tick, from, resp).0;
            n2.role == Role::Leader && n.role != Role::Leader ==> n.role == Role::Candidate && n2.term == n.term
        }),
{
}

/// A node made leader by its election timer moved to a later term.
proof fn lemma_election_timer_role(n: RaftNodeView, tick: u64)
    requires
        n.term < u64::MAX,
    ensures
        ({
            let n2 = crate::raft::model::election_timeout_step(n, tick).0;
            n2.role == Role::Leader && n.role != Role::Leader ==> n2.term > n.term
        }),
{
}

/// A node that becomes leader, as a candidate of its term or in a later term, finds
/// no recorded entry of its new term past index 0: their creator would be itself,
/// elected in that term, yet still or again a candidate.
proof fn lemma_fresh_leader(s: SimView, h: Map<(u64, u64), u64>, h2: Map<(u64, u64), u64>, e: Map<(u64, int), Seq<LogEntryView>>, j: int, n2: RaftNodeView)
    requires
        cluster_ok(s),
        logs_fit(s, h, e),
        0 <= j < s.nodes.len(),
        h.submap_of(h2),
        n2.role == Role::Leader ==> elected(s.ids, h2, s.ids[j], n2.term),
        n2.role == Role::Leader && s.nodes[j].role != Role::Leader ==> (s.nodes[j].role == Role::Candidate
            && n2.term == s.nodes[j].term) || n2.term > s.nodes[j].term,
    ensures
        fresh_leader_ok(s.nodes[j], n2, e),
{
    let n = s.nodes[j];
    if n2.role == Role::Leader && n.role != Role::Leader {
        assert forall|i: int| i >= 1 implies !#[trigger] e.contains_key((n2.term, i)) by {
            if e.contains_key((n2.term, i)) {
                let t = n2.term;
                let jc = choose|jc: int| 0 <= jc < s.nodes.len() && #[trigger] creator_at(s, h, jc, t);
                lemma_elected_grows(s.ids, h, h2, s.ids[jc], t);
                lemma_elected_unique(s.ids, h2, s.ids[jc], s.ids[j], t);
                if jc < j {
                    assert(s.ids[jc] < s.ids[j]);
                } else if j < jc {
                    assert(s.ids[j] < s.ids[jc]);
                }
            }
        }
    }
}

/// Delivering a message the records fit turns the vote record into one that fits
/// after, with the same entry record.
proof fn lemma_deliver_hist(s: SimView, p: PendingView, h: Map<(u64, u64), u64>, e: Map<(u64, int), Seq<LogEntryView>>) -> (h2: Map<(u64, u64), u64>)
    requires
        cluster_ok(s),
        history_fit(s, h, e),
        msg_votes_ok(p, s.ids, h),
        msg_log_ok(p, s.ids, h, e),
    ensures
        history_fit(deliver_spec(s, p), h2, e),
        h.submap_of(h2),
        cluster_ok(deliver_spec(s, p)),
        deliver_spec(s, p).ids == s.ids,
        deliver_spec(s, p).tick == s.tick,
        deliver_spec(s, p).crashed == s.crashed,
{
    lemma_pos_of(s.ids, p.to);
    let j = pos(s.ids, p.to);
    let n = s.nodes[j];
    assert(node_votes_ok(n, s.ids[j], s.ids, h));
    assert(node_log_ok(n, s.ids[j], e));
    match p.msg {
        MessageView::RequestVote(req) => {
            let (n2, resp) = crate::raft::model::request_vote_step(n, s.tick, req);
            lemma_request_vote_votes(n, p.to, s.ids, h, s.tick, req);
            lemma_request_vote_log(n, p.to, e, s.tick, req);
            let h2 = record_vote(h, p.to, n2);
            lemma_with_node_same(s, j, n2, h, e);
            lemma_send_hist(with_node(s, j, n2), p.to, p.from, MessageView::RequestVoteResponse(resp), h2, e);
            h2
        },
        MessageView::AppendEntries(req) => {
            let (n2, resp) = crate::raft::model::append_entries_step(n, s.tick, req);
            if n.role == Role::Leader && req.term == n.term {
                assert(elected(s.ids, h, p.to, n.term));
                lemma_elected_unique(s.ids, h, p.from, p.to, n.term);
            }
            lemma_append_entries_votes(n, p.to, s.ids, h, s.tick, req);
            lemma_append_entries_log(n, p.to, e, s.tick, req);
            let h2 = record_vote(h, p.to, n2);
            lemma_with_node_same(s, j, n2, h, e);
            lemma_send_hist(with_node(s, j, n2), p.to, p.from, MessageView::AppendEntriesResponse(resp), h2, e);
            h2
        },
        MessageView::RequestVoteResponse(resp) => {
            let (n2, acts) = crate::raft::model::vote_response_step(n, s.tick, p.from, resp);
            lemma_vote_response_votes(n, p.to, s.ids, h, s.tick, p.from, resp);
            let h2 = record_vote(h, p.to, n2);
            lemma_vote_response_role(n, s.tick, p.from, resp);
            lemma_fresh_leader(s, h, h2, e, j, n2);
            lemma_vote_response_log(n, p.to, s.ids, h2, e, s.tick, p.from, resp);
            lemma_with_node_same(s, j, n2, h, e);
            lemma_enqueue_hist(with_node(s, j, n2), p.to, acts, h2, e);
            h2
        },
        MessageView::AppendEntriesResponse(resp) => {
            let (n2, acts) = crate::raft::model::append_response_step(n, s.tick, p.from, resp);
            lemma_append_response_votes(n, p.to, s.ids, h, s.tick, p.from, resp);
            let h2 = record_vote(h, p.to, n2);
            lemma_append_response_log(n, p.to, s.ids, h2, e, s.tick, p.from, resp);
            lemma_with_node_same(s, j, n2, h, e);
            lemma_enqueue_hist(with_node(s, j, n2), p.to, acts, h2, e);
            h2
        },
    }
}

/// Draining the network keeps fitting records fitting, the messages set aside
/// included.
proof fn lemma_drain_hist(s: SimView, waiting: Seq<PendingView>, budget: nat, h: Map<(u64, u64), u64>, e: Map<(u64, int), Seq<LogEntryView>>) -> (h2: Map<(u64, u64), u64>)
    requires
        cluster_ok(s),
        history_fit(s, h, e),
        forall|k: int| 0 <= k < waiting.len() ==> msg_votes_ok(#[trigger] waiting[k], s.ids, h) && msg_log_ok(waiting[k], s.ids, h, e),
    ensures
        history_fit(drain_spec(s, waiting, budget), h2, e),
        cluster_ok(drain_spec(s, waiting, budget)),
        drain_spec(s, waiting, budget).ids == s.ids,
    decreases budget,
{
    if budget == 0 || s.inbox.len() == 0 {
        let t = SimView { inbox: waiting + s.inbox, ..s };
        assert forall|k: int| 0 <= k < t.inbox.len() implies msg_votes_ok(#[trigger] t.inbox[k], t.ids, h) && msg_log_ok(t.inbox[k], t.ids, h, e) by {
            if k < waiting.len() {
                assert(t.inbox[k] == waiting[k]);
            } else {
                assert(t.inbox[k] == s.inbox[k - waiting.len()]);
            }
        }
        assert forall|tm: u64, x: int| #[trigger] e.contains_key((tm, x)) && x >= 1 implies exists|jc: int|
            0 <= jc < t.nodes.len() && #[trigger] creator_at(t, h, jc, tm) by {
            let jc = choose|jc: int| 0 <= jc < s.nodes.len() && #[trigger] creator_at(s, h, jc, tm);
            assert(creator_at(t, h, jc, tm));
        }
        h
    } else {
        let p = s.inbox[0];
        let s1 = SimView { inbox: s.inbox.drop_first(), ..s };
        assert(msg_votes_ok(p, s.ids, h) && msg_log_ok(p, s.ids, h, e));
        assert forall|k: int| 0 <= k < s1.inbox.len() implies msg_votes_ok(#[trigger] s1.inbox[k], s1.ids, h) && msg_log_ok(s1.inbox[k], s1.ids, h, e) by {
            assert(s1.inbox[k] == s.inbox[k + 1]);
        }
        assert forall|tm: u64, x: int| #[trigger] e.contains_key((tm, x)) && x >= 1 implies exists|jc: int|
            0 <= jc < s1.nodes.len() && #[trigger] creator_at(s1, h, jc, tm) by {
            let jc = choose|jc: int| 0 <= jc < s.nodes.len() && #[trigger] creator_at(s, h, jc, tm);
            assert(creator_at(s1, h, jc, tm));
        }
        assert(history_fit(s1, h, e));
        if p.deliver_at > s.tick {
            let w = waiting.push(p);
            assert forall|k: int| 0 <= k < w.len() implies msg_votes_ok(#[trigger] w[k], s1.ids, h) && msg_log_ok(w[k], s1.ids, h, e) by {
                if k < waiting.len() {
                    assert(w[k] == waiting[k]);
                }
            }
            lemma_drain_hist(s1, w, (budget - 1) as nat, h, e)
        } else if super::model::blocked(s1, p.from, p.to) {
            lemma_drain_hist(s1, waiting, (budget - 1) as nat, h, e)
        } else {
            let h1 = lemma_deliver_hist(s1, p, h, e);
            let s2 = deliver_spec(s1, p);
            assert forall|k: int| 0 <= k < waiting.len() implies msg_votes_ok(#[trigger] waiting[k], s2.ids, h1) && msg_log_ok(waiting[k], s2.ids, h1, e) by {
                lemma_msg_grows(waiting[k], s.ids, h, h1);
                lemma_msg_log_grows(waiting[k], s.ids, h, h1, e, e);
            }
            lemma_drain_hist(s2, waiting, (budget - 1) as nat, h1, e)
        }
    }
}

/// The heartbeat timers keep fitting records fitting and every term.
proof fn lemma_heartbeats_hist(s: SimView, j: int, end: int, h: Map<(u64, u64), u64>, e: Map<(u64, int), Seq<LogEntryView>>) -> (h2: Map<(u64, u64), u64>)
    requires
        cluster_ok(s),
        history_fit(s, h, e),
    ensures
        history_fit(heartbeats_spec(s, j, end), h2, e),
        cluster_ok(heartbeats_spec(s, j, end)),
        heartbeats_spec(s, j, end).ids == s.ids,
        heartbeats_spec(s, j, end).tick == s.tick,
        heartbeats_spec(s, j, end).crashed == s.crashed,
        forall|k: int| 0 <= k < s.nodes.len() ==> (#[trigger] heartbeats_spec(s, j, end).nodes[k]).term == s.nodes[k].term,
    decreases end - j,
{
    if j < 0 || j >= end || j >= s.nodes.len() {
        h
    } else if s.crashed[j] {
        lemma_heartbeats_hist(s, j + 1, end, h, e)
    } else {
        let n = s.nodes[j];
        let (n2, acts) = crate::raft::model::heartbeat_step(n, s.tick);
        assert(node_votes_ok(n, s.ids[j], s.ids, h));
        assert(node_log_ok(n, s.ids[j], e));
        lemma_heartbeat_votes(n, s.ids[j], s.ids, h, s.tick);
        lemma_heartbeat_log(n, s.ids[j], s.ids, h, e, s.tick);
        let h1 = record_vote(h, s.ids[j], n2);
        lemma_with_node_same(s, j, n2, h, e);
        let s1 = with_node(s, j, n2);
        assert(n2 == n || n2.voted_for == n.voted_for);
        assert(acts_log_ok(acts, s.ids[j], s.ids, h1, e)) by {
            assert forall|k: int| 0 <= k < acts.len() implies (#[trigger] acts[k] matches ActionView::Send { to, msg } ==> {
                &&& to != s.ids[j]
                &&& (msg matches MessageView::AppendEntries(a) ==> {
                    &&& append_fits(e, a)
                    &&& append_bounded(a)
                    &&& elected(s.ids, h1, s.ids[j], a.term)
                })
            }) by {
                if let ActionView::Send { to, msg } = acts[k] {
                    if let MessageView::AppendEntries(a) = msg {
                        lemma_elected_grows(s.ids, h, h1, s.ids[j], a.term);
                    }
                }
            }
        }
        lemma_enqueue_hist(s1, s.ids[j], acts, h1, e);
        let s2 = enqueue_spec(s1, s.ids[j], acts);
        let h2 = lemma_heartbeats_hist(s2, j + 1, end, h1, e);
        assert forall|k: int| 0 <= k < s.nodes.len() implies (#[trigger] heartbeats_spec(s, j, end).nodes[k]).term == s.nodes[k].term by {
            assert(s2.nodes[k].term == s.nodes[k].term);
        }
        h2
    }
}

/// The election timers of nodes whose terms can still grow keep fitting records
/// fitting.
proof fn lemma_timeouts_hist(s: SimView, j: int, end: int, h: Map<(u64, u64), u64>, e: Map<(u64, int), Seq<LogEntryView>>) -> (h2: Map<(u64, u64), u64>)
    requires
        cluster_ok(s),
        history_fit(s, h, e),
        forall|k: int| j <= k < s.nodes.len() ==> (#[trigger] s.nodes[k]).term < u64::MAX,
    ensures
        history_fit(timeouts_spec(s, j, end), h2, e),
        cluster_ok(timeouts_spec(s, j, end)),
        timeouts_spec(s, j, end).ids == s.ids,
    decreases end - j,
{
    if j < 0 || j >= end || j >= s.nodes.len() {
        h
    } else if s.crashed[j] {
        lemma_timeouts_hist(s, j + 1, end, h, e)
    } else {
        let n = s.nodes[j];
        let (n2, acts) = crate::raft::model::election_timeout_step(n, s.tick);
        assert(node_votes_ok(n, s.ids[j], s.ids, h));
        assert(node_log_ok(n, s.ids[j], e));
        lemma_election_timer_votes(n, s.ids[j], s.ids, h, s.tick);
        let h1 = record_vote(h, s.ids[j], n2);
        lemma_election_timer_role(n, s.tick);
        lemma_fresh_leader(s, h, h1, e, j, n2);
        lemma_election_timer_log(n, s.ids[j], s.ids, h1, e, s.tick);
        lemma_with_node_same(s, j, n2, h, e);
        let s1 = with_node(s, j, n2);
        lemma_enqueue_hist(s1, s.ids[j], acts, h1, e);
        let s2 = enqueue_spec(s1, s.ids[j], acts);
        assert forall|k: int| j + 1 <= k < s2.nodes.len() implies (#[trigger] s2.nodes[k]).term < u64::MAX by {
            assert(s2.nodes[k] == s.nodes[k]);
        }
        lemma_timeouts_hist(s2, j + 1, end, h1, e)
    }
}

/// A simulator tick keeps the history consistent.
pub proof fn lemma_tick_keeps_history(s: SimView)
    requires
        sim_inv(s),
        s.tick < u64::MAX,
        history_consistent(s),
    ensures
        history_consistent(tick_spec(s)),
{
    let (h, e) = choose|h: Map<(u64, u64), u64>, e: Map<(u64, int), Seq<LogEntryView>>| history_fit(s, h, e);
    let s1 = SimView { tick: (s.tick + 1) as u64, ..s };
    assert forall|t: u64, x: int| #[trigger] e.contains_key((t, x)) && x >= 1 implies exists|jc: int|
        0 <= jc < s1.nodes.len() && #[trigger] creator_at(s1, h, jc, t) by {
        let jc = choose|jc: int| 0 <= jc < s.nodes.len() && #[trigger] creator_at(s, h, jc, t);
        assert(creator_at(s1, h, jc, t));
    }
    assert(history_fit(s1, h, e));
    let h2 = lemma_heartbeats_hist(s1, 0, s1.nodes.len() as int, h, e);
    let s2 = heartbeats_spec(s1, 0, s1.nodes.len() as int);
    assert forall|k: int| 0 <= k < s2.nodes.len() implies (#[trigger] s2.nodes[k]).term < u64::MAX by {
        assert(super::safety::node_inv(s.nodes[k], s.ids, s.tick));
        assert(s2.nodes[k].term == s1.nodes[k].term);
    }
    let h3 = lemma_timeouts_hist(s2, 0, s2.nodes.len() as int, h2, e);
    let s3 = timeouts_spec(s2, 0, s2.nodes.len() as int);
    let h4 = lemma_drain_hist(s3, Seq::empty(), super::model::DELIVERY_BUDGET as nat, h3, e);
    assert(history_fit(tick_spec(s), h4, e));
}

/// A proposal, through a node whose log still fits a vector afterwards, keeps the
/// history consistent.
pub proof fn lemma_propose_keeps_history(s: SimView, leader: u64, data: Seq<u8>)
    requires
        cluster_ok(s),
        s.ids.contains(leader),
        s.nodes[pos(s.ids, leader)].role == Role::Leader ==> s.nodes[pos(s.ids, leader)].log.len() < usize::MAX,
        history_consistent(s),
    ensures
        history_consistent(propose_spec(s, leader, data).0),
{
    let (h, e) = choose|h: Map<(u64, u64), u64>, e: Map<(u64, int), Seq<LogEntryView>>| history_fit(s, h, e);
    lemma_pos_of(s.ids, leader);
    let j = pos(s.ids, leader);
    let n = s.nodes[j];
    let (n2, r) = crate::raft::model::propose_step(n, data);
    assert(node_votes_ok(n, s.ids[j], s.ids, h));
    assert(node_log_ok(n, s.ids[j], e));
    lemma_propose_votes(n, leader, s.ids, h, data);
    lemma_propose_log(n, leader, s.ids, h, e, data);
    if let Ok(acts) = r {
        let e2 = record_entry(e, n, data);
        let h1 = record_vote(h, leader, n2);
        assert forall|i: int| 0 <= i < s.nodes.len() && i != j implies node_log_ok(#[trigger] s.nodes[i], s.ids[i], e2) by {
            let m = s.nodes[i];
            assert(node_log_ok(m, s.ids[i], e));
            lemma_log_fits_grows(e, e2, m.log);
            if m.role == Role::Leader && m.term == n.term {
                assert(node_votes_ok(m, s.ids[i], s.ids, h));
                lemma_elected_unique(s.ids, h, s.ids[i], s.ids[j], n.term);
                if i < j {
                    assert(s.ids[i] < s.ids[j]);
                } else {
                    assert(s.ids[j] < s.ids[i]);
                }
            }
            if m.role == Role::Leader {
                assert forall|x: int| #[trigger] e2.contains_key((m.term, x)) implies x < m.log.len() && m.log[x].term == m.term by {
                    assert(e.contains_key((m.term, x)));
                }
            }
        }
        assert forall|t: u64, x: int| #[trigger] e2.contains_key((t, x)) && x >= 1 && !e.contains_key((t, x)) implies creator_at(
            with_node(s, j, n2),
            h1,
            j,
            t,
        ) by {
            lemma_elected_grows(s.ids, h, h1, leader, n.term);
        }
        lemma_with_node_hist(s, j, n2, h, e, e2);
        let s1 = with_node(s, j, n2);
        assert(acts_log_ok(acts, leader, s.ids, h1, e2)) by {
            assert forall|k: int| 0 <= k < acts.len() implies (#[trigger] acts[k] matches ActionView::Send { to, msg } ==> {
                &&& to != leader
                &&& (msg matches MessageView::AppendEntries(a) ==> {
                    &&& append_fits(e2, a)
                    &&& append_bounded(a)
                    &&& elected(s.ids, h1, leader, a.term)
                })
            }) by {
                if let ActionView::Send { to, msg } = acts[k] {
                    if let MessageView::AppendEntries(a) = msg {
                        lemma_elected_grows(s.ids, h, h1, leader, a.term);
                    }
                }
            }
        }
        lemma_enqueue_hist(s1, leader, acts, h1, e2);
        let h2 = lemma_drain_hist(enqueue_spec(s1, leader, acts), Seq::empty(), super::model::DELIVERY_BUDGET as nat, h1, e2);
        assert(history_fit(propose_spec(s, leader, data).0, h2, e2));
    } else {
        assert(history_fit(propose_spec(s, leader, data).0, h, e));
    }
}

/// Restarting a node keeps the history consistent.
pub proof fn lemma_restart_keeps_history(s: SimView, j: int)
    requires
        cluster_ok(s),
        0 <= j < s.nodes.len(),
        history_consistent(s),
    ensures
        history_consistent(SimView {
            crashed: s.crashed.update(j, false),
            nodes: s.nodes.update(j, rebooted(s.nodes[j], s.tick)),
            ..s
        }),
{
    let (h, e) = choose|h: Map<(u64, u64), u64>, e: Map<(u64, int), Seq<LogEntryView>>| history_fit(s, h, e);
    let t = SimView {
        crashed: s.crashed.update(j, false),
        nodes: s.nodes.update(j, rebooted(s.nodes[j], s.tick)),
        ..s
    };
    let n = s.nodes[j];
    assert(node_votes_ok(n, s.ids[j], s.ids, h));
    assert(node_log_ok(n, s.ids[j], e));
    lemma_reboot_votes(n, s.ids[j], s.ids, h, s.tick);
    lemma_reboot_log(n, s.ids[j], e, s.tick);
    assert(votes_fit(t, h));
    assert forall|tm: u64, x: int| #[trigger] e.contains_key((tm, x)) && x >= 1 implies exists|jc: int|
        0 <= jc < t.nodes.len() && #[trigger] creator_at(t, h, jc, tm) by {
        let jc = choose|jc: int| 0 <= jc < s.nodes.len() && #[trigger] creator_at(s, h, jc, tm);
        assert(creator_at(t, h, jc, tm));
    }
    assert(history_fit(t, h, e));
}

/// Changing only what is crashed, which links are blocked and how messages are
/// delayed or dropped keeps the history consistent.
pub proof fn lemma_network_change_keeps_history(s: SimView, t: SimView)
    requires
        history_consistent(s),
        t.nodes == s.nodes,
        t.ids == s.ids,
        t.inbox == s.inbox,
    ensures
        history_consistent(t),
{
    let (h, e) = choose|h: Map<(u64, u64), u64>, e: Map<(u64, int), Seq<LogEntryView>>| history_fit(s, h, e);
    assert forall|tm: u64, x: int| #[trigger] e.contains_key((tm, x)) && x >= 1 implies exists|jc: int|
        0 <= jc < t.nodes.len() && #[trigger] creator_at(t, h, jc, tm) by {
        let jc = choose|jc: int| 0 <= jc < s.nodes.len() && #[trigger] creator_at(s, h, jc, tm);
        assert(creator_at(t, h, jc, tm));
    }
    assert(history_fit(t, h, e));
}

/// Election safety: in a simulator with a consistent history, no two nodes are
/// leaders of the same term.
pub proof fn lemma_history_one_leader_per_term(s: SimView)
    requires
        sim_inv(s),
        history_consistent(s),
    ensures
        one_leader_per_term(s),
{
    let (h, e) = choose|h: Map<(u64, u64), u64>, e: Map<(u64, int), Seq<LogEntryView>>| history_fit(s, h, e);
    assert(votes_consistent(s));
    lemma_one_leader_per_term(s);
}

/// A leader holds every entry of its own term that any node's log holds.
pub open spec fn leaders_hold_their_entries(s: SimView) -> bool {
    forall|a: int, b: int, i: int|
        #![trigger s.nodes[a], s.nodes[b].log[i]]
        0 <= a < s.nodes.len() && 0 <= b < s.nodes.len() && s.nodes[a].role == Role::Leader
            && 0 <= i < s.nodes[b].log.len() && s.nodes[b].log[i].term == s.nodes[a].term
            ==> i < s.nodes[a].log.len() && s.nodes[a].log.take(i + 1) == s.nodes[b].log.take(i + 1)
}

/// Entries of a term come only from that term's leader: in a simulator with a
/// consistent history, a leader holds, with the same log up to it, every entry of
/// its term that any node's log holds.
pub proof fn lemma_leaders_hold_their_entries(s: SimView)
    requires
        history_consistent(s),
    ensures
        leaders_hold_their_entries(s),
{
    let (h, e) = choose|h: Map<(u64, u64), u64>, e: Map<(u64, int), Seq<LogEntryView>>| history_fit(s, h, e);
    assert forall|a: int, b: int, i: int|
        #![trigger s.nodes[a], s.nodes[b].log[i]]
        0 <= a < s.nodes.len() && 0 <= b < s.nodes.len() && s.nodes[a].role == Role::Leader
            && 0 <= i < s.nodes[b].log.len() && s.nodes[b].log[i].term
            == s.nodes[a].term implies i < s.nodes[a].log.len() && s.nodes[a].log.take(i + 1)
        == s.nodes[b].log.take(i + 1) by {
        assert(node_log_ok(s.nodes[a], s.ids[a], e));
        assert(node_log_ok(s.nodes[b], s.ids[b], e));
        let lb = s.nodes[b].log[i];
        assert(e.contains_key((lb.term, i)));
        let la = s.nodes[a].log[i];
    }
}

/// Log matching: in a simulator with a consistent history, wherever two nodes' logs
/// hold entries of the same term at an index, they are identical up to that index;
/// so in particular the live nodes' logs satisfy the matching property.
pub proof fn lemma_log_matching(s: SimView)
    requires
        history_consistent(s),
    ensures
        all_logs_match(s),
        matching_property(s),
{
    let (h, e) = choose|h: Map<(u64, u64), u64>, e: Map<(u64, int), Seq<LogEntryView>>| history_fit(s, h, e);
    assert forall|a: int, b: int| 0 <= a < s.nodes.len() && 0 <= b < s.nodes.len() implies logs_match(
        (#[trigger] s.nodes[a]).log,
        (#[trigger] s.nodes[b]).log,
    ) by {
        assert(node_log_ok(s.nodes[a], s.ids[a], e));
        assert(node_log_ok(s.nodes[b], s.ids[b], e));
        lemma_fitting_logs_match(e, s.nodes[a].log, s.nodes[b].log);
    }
}

} // verus!
