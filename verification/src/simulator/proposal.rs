//! What a proposal does to the proposing leader's log: delivering the replication
//! traffic it starts never changes that log, so a successful proposal adds exactly
//! one entry to it.

use super::election::{lemma_pos_of, node_votes_ok};
use super::history::{history_consistent, history_fit};
use super::matching::node_log_ok;
use super::model::{
    blocked, deliver_spec, drain_spec, enqueue_spec, pos, propose_spec, send_spec, with_node,
    PendingView, SimView,
};
use crate::raft::model::{
    append_entries_step, append_response_step, append_response_step_matched,
    apply_step, highest_committable, last_index, propose_step, replication_actions,
};
use crate::raft::{ActionView, LogEntryView, MessageView, RaftNodeView, Role};
use vstd::prelude::*;

verus! {

/// A message between two nodes of the cluster that is either an AppendEntries from
/// `l` to another node or an AppendEntries response to `l` from another node.
pub open spec fn replication_msg(p: PendingView, ids: Seq<u64>, l: u64) -> bool {
    &&& ids.contains(p.from)
    &&& ids.contains(p.to)
    &&& ((p.from == l && p.to != l && p.msg is AppendEntries) || (p.to == l && p.from != l
        && p.msg is AppendEntriesResponse))
}

/// Everything in flight is replication traffic of `l`.
pub open spec fn replication_traffic(s: SimView, l: u64) -> bool {
    forall|k: int| 0 <= k < s.inbox.len() ==> replication_msg(#[trigger] s.inbox[k], s.ids, l)
}

/// `l` is a node of the cluster whose peers are other nodes of the cluster.
pub open spec fn leader_frame(s: SimView, l: u64) -> bool {
    &&& s.ids.contains(l)
    &&& s.nodes.len() == s.ids.len()
    &&& forall|k: int|
        0 <= k < s.nodes[pos(s.ids, l)].peer_ids.len() ==> s.ids.contains(
            #[trigger] s.nodes[pos(s.ids, l)].peer_ids[k],
        ) && s.nodes[pos(s.ids, l)].peer_ids[k] != l
}

/// The messages among `acts` are AppendEntries from `l` to other nodes of the cluster.
pub open spec fn replication_sends(acts: Seq<ActionView>, ids: Seq<u64>, l: u64) -> bool {
    forall|k: int|
        0 <= k < acts.len() ==> (#[trigger] acts[k] matches ActionView::Send { to, msg } ==> {
            &&& ids.contains(to)
            &&& to != l
            &&& msg is AppendEntries
        })
}

/// Handling an AppendEntries response keeps the log and the peers, and sends only
/// AppendEntries, to the responder or to peers.
proof fn lemma_response_keeps_log(n: RaftNodeView, now: u64, from: u64, resp: crate::raft::AppendEntriesResponse)
    ensures
        append_response_step(n, now, from, resp).0.log == n.log,
        append_response_step(n, now, from, resp).0.peer_ids == n.peer_ids,
        forall|k: int|
            0 <= k < append_response_step(n, now, from, resp).1.len() ==> (
            #[trigger] append_response_step(n, now, from, resp).1[k] matches ActionView::Send {
                to,
                msg,
            } ==> msg is AppendEntries && (to == from || n.peer_ids.contains(to))),
{
    let acts = append_response_step(n, now, from, resp).1;
    if resp.term == n.term && n.role == Role::Leader && resp.success {
        let s0 = append_response_step_matched(n, from);
        let s1 = RaftNodeView {
            commit_index: highest_committable(s0, last_index(s0.log) as int) as u64,
            ..s0
        };
        let (s2, applied) = apply_step(s1);
        assert forall|k: int| 0 <= k < acts.len() implies (#[trigger] acts[k] matches ActionView::Send {
            to,
            msg,
        } ==> msg is AppendEntries && (to == from || n.peer_ids.contains(to))) by {
            if k < applied.len() {
                assert(acts[k] == applied[k]);
            } else {
                let i = k - applied.len();
                assert(acts[k] == replication_actions(s2)[i]);
                assert(n.peer_ids[i] == s2.peer_ids[i]);
            }
        }
    }
}

/// Sending replication traffic of `l` keeps everything in flight replication
/// traffic of `l` and leaves the nodes and the clock alone.
proof fn lemma_enqueue_traffic(s: SimView, l: u64, acts: Seq<ActionView>)
    requires
        replication_traffic(s, l),
        s.ids.contains(l),
        replication_sends(acts, s.ids, l),
    ensures
        replication_traffic(enqueue_spec(s, l, acts), l),
        enqueue_spec(s, l, acts).nodes == s.nodes,
        enqueue_spec(s, l, acts).ids == s.ids,
        enqueue_spec(s, l, acts).tick == s.tick,
    decreases acts.len(),
{
    if acts.len() > 0 {
        let s1 = match acts[0] {
            ActionView::Send { to, msg } => send_spec(s, l, to, msg),
            ActionView::Apply { .. } => s,
        };
        assert(replication_traffic(s1, l)) by {
            if let ActionView::Send { to, msg } = acts[0] {
                assert forall|k: int| 0 <= k < s1.inbox.len() implies replication_msg(
                    #[trigger] s1.inbox[k],
                    s1.ids,
                    l,
                ) by {
                    if k < s.inbox.len() {
                        assert(s1.inbox[k] == s.inbox[k]);
                    }
                }
            }
        }
        assert forall|k: int| 0 <= k < acts.drop_first().len() implies (
        #[trigger] acts.drop_first()[k] matches ActionView::Send { to, msg } ==> {
            &&& s1.ids.contains(to)
            &&& to != l
            &&& msg is AppendEntries
        }) by {
            assert(acts.drop_first()[k] == acts[k + 1]);
        }
        lemma_enqueue_traffic(s1, l, acts.drop_first());
    }
}

/// Delivering one message of `l`'s replication traffic leaves `l`'s log alone and
/// everything in flight replication traffic of `l`.
proof fn lemma_deliver_traffic(s: SimView, p: PendingView, l: u64)
    requires
        leader_frame(s, l),
        replication_traffic(s, l),
        replication_msg(p, s.ids, l),
    ensures
        leader_frame(deliver_spec(s, p), l),
        replication_traffic(deliver_spec(s, p), l),
        deliver_spec(s, p).nodes[pos(s.ids, l)].log == s.nodes[pos(s.ids, l)].log,
        deliver_spec(s, p).ids == s.ids,
        deliver_spec(s, p).tick == s.tick,
{
    let d = deliver_spec(s, p);
    let jl = pos(s.ids, l);
    let i = pos(s.ids, p.to);
    lemma_pos_of(s.ids, l);
    lemma_pos_of(s.ids, p.to);
    let n = s.nodes[i];
    if p.to != l {
        assert(i != jl);
        if let MessageView::AppendEntries(req) = p.msg {
            let (n2, resp) = append_entries_step(n, s.tick, req);
            let s1 = with_node(s, i, n2);
            assert(s1.nodes[jl] == s.nodes[jl]);
            let msg = MessageView::AppendEntriesResponse(resp);
            assert(d == send_spec(s1, p.to, p.from, msg));
            assert forall|k: int| 0 <= k < d.inbox.len() implies replication_msg(
                #[trigger] d.inbox[k],
                d.ids,
                l,
            ) by {
                if k < s1.inbox.len() {
                    assert(d.inbox[k] == s1.inbox[k]);
                }
            }
        }
    } else {
        assert(i == jl);
        if let MessageView::AppendEntriesResponse(resp) = p.msg {
            let (n2, acts) = append_response_step(n, s.tick, p.from, resp);
            lemma_response_keeps_log(n, s.tick, p.from, resp);
            let s1 = with_node(s, i, n2);
            assert(replication_traffic(s1, l));
            assert(replication_sends(acts, s1.ids, l)) by {
                assert forall|k: int| 0 <= k < acts.len() implies (#[trigger] acts[k] matches ActionView::Send {
                    to,
                    msg,
                } ==> {
                    &&& s1.ids.contains(to)
                    &&& to != l
                    &&& msg is AppendEntries
                }) by {
                    if let ActionView::Send { to, msg } = acts[k] {
                        if to != p.from {
                            let q = choose|q: int| 0 <= q < n.peer_ids.len() && n.peer_ids[q] == to;
                            assert(s.nodes[jl].peer_ids[q] == to);
                        }
                    }
                }
            }
            lemma_enqueue_traffic(s1, l, acts);
        }
    }
}

/// Draining the network while everything in flight is replication traffic of `l`
/// leaves `l`'s log and the clock alone.
proof fn lemma_drain_keeps_log(s: SimView, waiting: Seq<PendingView>, budget: nat, l: u64)
    requires
        leader_frame(s, l),
        replication_traffic(s, l),
    ensures
        drain_spec(s, waiting, budget).nodes[pos(s.ids, l)].log == s.nodes[pos(s.ids, l)].log,
        drain_spec(s, waiting, budget).tick == s.tick,
    decreases budget,
{
    if budget > 0 && s.inbox.len() > 0 {
        let p = s.inbox[0];
        let s1 = SimView { inbox: s.inbox.drop_first(), ..s };
        assert(replication_traffic(s1, l)) by {
            assert forall|k: int| 0 <= k < s1.inbox.len() implies replication_msg(
                #[trigger] s1.inbox[k],
                s1.ids,
                l,
            ) by {
                assert(s1.inbox[k] == s.inbox[k + 1]);
            }
        }
        assert(replication_msg(s.inbox[0], s.ids, l));
        if p.deliver_at > s.tick {
            lemma_drain_keeps_log(s1, waiting.push(p), (budget - 1) as nat, l);
        } else if blocked(s1, p.from, p.to) {
            lemma_drain_keeps_log(s1, waiting, (budget - 1) as nat, l);
        } else {
            lemma_deliver_traffic(s1, p, l);
            lemma_drain_keeps_log(deliver_spec(s1, p), waiting, (budget - 1) as nat, l);
        }
    }
}

/// A successful proposal through a node adds exactly one entry to the end of that
/// node's log, of its term and holding the proposed bytes, when everything in
/// flight beforehand is that node's replication traffic (for instance when nothing
/// is in flight): delivering what the proposal sends never changes the proposer's
/// log. A proposal never moves the clock.
pub proof fn lemma_propose_appends_one(s: SimView, leader: u64, data: Seq<u8>)
    requires
        history_consistent(s),
        s.ids.contains(leader),
        s.nodes.len() == s.ids.len(),
        replication_traffic(s, leader),
    ensures
        propose_spec(s, leader, data).0.tick == s.tick,
        propose_spec(s, leader, data).1 is Ok ==> propose_spec(s, leader, data).0.nodes[pos(
            s.ids,
            leader,
        )].log == s.nodes[pos(s.ids, leader)].log.push(
            LogEntryView { term: s.nodes[pos(s.ids, leader)].term, data },
        ),
{
    let (h, e) = choose|h: Map<(u64, u64), u64>, e: Map<(u64, int), Seq<LogEntryView>>|
        history_fit(s, h, e);
    lemma_pos_of(s.ids, leader);
    let j = pos(s.ids, leader);
    let n = s.nodes[j];
    assert(node_votes_ok(n, s.ids[j], s.ids, h));
    assert(node_log_ok(n, s.ids[j], e));
    let (n2, r) = propose_step(n, data);
    if r is Ok {
        let acts = replication_actions(n2);
        let s1 = with_node(s, j, n2);
        assert(leader_frame(s1, leader));
        assert(replication_traffic(s1, leader));
        assert(replication_sends(acts, s1.ids, leader)) by {
            assert forall|k: int| 0 <= k < acts.len() implies (#[trigger] acts[k] matches ActionView::Send {
                to,
                msg,
            } ==> {
                &&& s1.ids.contains(to)
                &&& to != leader
                &&& msg is AppendEntries
            }) by {
                assert(acts[k] == replication_actions(n2)[k]);
                assert(n2.peer_ids[k] == n.peer_ids[k]);
            }
        }
        lemma_enqueue_traffic(s1, leader, acts);
        let s2 = enqueue_spec(s1, leader, acts);
        lemma_drain_keeps_log(s2, Seq::empty(), super::model::DELIVERY_BUDGET as nat, leader);
    }
}

} // verus!
