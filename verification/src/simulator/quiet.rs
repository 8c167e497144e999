//! Runs without faults: once a tick's messages have all been delivered, every node
//! is in the same term, so (by election safety) at most one node leads.

use super::election::{lemma_pos_of, one_leader_per_term};
use super::model::{
    blocked, deliver_spec, delivery_tick, drain_spec, enqueue_spec, heartbeats_spec, leaders_spec,
    leaders_upto, pos, propose_spec, send_spec, strictly_increasing, tick_spec, timeouts_spec,
    with_node, PendingView, SimView,
};
use super::safety::{lemma_pos, msg_term};
use crate::raft::model::{
    append_entries_for, append_entries_step, append_response_step, append_response_step_matched,
    apply_step, become_leader, election_timeout_step, heartbeat_step,
    highest_committable, last_index, propose_step, replication_actions, request_vote_actions, request_vote_step,
    vote_request, vote_response_step,
};
use crate::raft::{ActionView, MessageView, RaftNodeView, Role};
use vstd::prelude::*;

verus! {

/// No link is blocked, no node is crashed, messages are neither delayed nor dropped.
pub open spec fn fault_free(s: SimView) -> bool {
    &&& s.partitions == Set::<(u64, u64)>::empty()
    &&& forall|j: int| 0 <= j < s.crashed.len() ==> !#[trigger] s.crashed[j]
    &&& s.message_delay == 0
    &&& s.drop_every_nth == None::<u64>
}

/// The cluster's shape: one node and one crash flag per id, ids increasing, and
/// every node's peers are exactly the nodes of the cluster other than itself
/// (possibly listed more than once).
pub open spec fn full_mesh(s: SimView) -> bool {
    &&& s.nodes.len() == s.ids.len()
    &&& s.crashed.len() == s.ids.len()
    &&& strictly_increasing(s.ids)
    &&& forall|a: int, q: int|
        0 <= a < s.nodes.len() && 0 <= q < s.nodes[a].peer_ids.len() ==> s.ids.contains(
            #[trigger] s.nodes[a].peer_ids[q],
        )
    &&& forall|a: int, b: int|
        0 <= a < s.nodes.len() && 0 <= b < s.ids.len() && a != b ==> (#[trigger] s.nodes[a]).peer_ids.contains(
            #[trigger] s.ids[b],
        )
}

/// Every node is in the same term.
pub open spec fn same_term(s: SimView) -> bool {
    forall|a: int, b: int|
        0 <= a < s.nodes.len() && 0 <= b < s.nodes.len() ==> (#[trigger] s.nodes[a]).term
            == (#[trigger] s.nodes[b]).term
}

/// A fault-free cluster at rest: nothing in flight and every node in the same term.
pub open spec fn settled(s: SimView) -> bool {
    &&& fault_free(s)
    &&& full_mesh(s)
    &&& s.inbox.len() == 0
    &&& same_term(s)
}

/// Every queued message runs between nodes of the cluster, is due, and carries a
/// term no higher than its sender's.
spec fn traffic_ok(s: SimView) -> bool {
    forall|k: int|
        0 <= k < s.inbox.len() ==> {
            &&& s.ids.contains((#[trigger] s.inbox[k]).from)
            &&& s.ids.contains(s.inbox[k].to)
            &&& s.inbox[k].deliver_at <= s.tick
            &&& msg_term(s.inbox[k].msg) <= s.nodes[pos(s.ids, s.inbox[k].from)].term
        }
}

/// Node `b` is in node `a`'s term or later, or a message on its way to `b`
/// carries such a term.
spec fn reaches(s: SimView, a: int, b: int) -> bool {
    ||| s.nodes[b].term >= s.nodes[a].term
    ||| exists|k: int|
        0 <= k < s.inbox.len() && (#[trigger] s.inbox[k]).to == s.ids[b] && msg_term(s.inbox[k].msg)
            >= s.nodes[a].term
}

/// Every node's term reaches every other node.
spec fn all_reach(s: SimView) -> bool {
    forall|a: int, b: int| 0 <= a < s.nodes.len() && 0 <= b < s.nodes.len() ==> #[trigger] reaches(s, a, b)
}

/// Every message among the actions goes to a node of the cluster and carries a
/// term no higher than `t`.
spec fn sends_ok(acts: Seq<ActionView>, ids: Seq<u64>, t: u64) -> bool {
    forall|k: int|
        0 <= k < acts.len() ==> (#[trigger] acts[k] matches ActionView::Send { to, msg } ==> ids.contains(
            to,
        ) && msg_term(msg) <= t)
}

/// The parts of the simulator that the steps of a tick leave alone, and the node
/// fields they never change.
spec fn same_shape(a: SimView, b: SimView) -> bool {
    &&& a.ids == b.ids
    &&& a.tick == b.tick
    &&& a.crashed == b.crashed
    &&& a.partitions == b.partitions
    &&& a.message_delay == b.message_delay
    &&& a.drop_every_nth == b.drop_every_nth
    &&& a.nodes.len() == b.nodes.len()
    &&& forall|j: int| 0 <= j < a.nodes.len() ==> (#[trigger] a.nodes[j]).peer_ids == b.nodes[j].peer_ids
    &&& forall|j: int| 0 <= j < a.nodes.len() ==> (#[trigger] b.nodes[j]).term >= a.nodes[j].term
}

/// Without drops, sending the actions' messages appends them, in order, after what
/// was queued, each from `from` and due at the current delivery tick.
proof fn lemma_enqueue_appends(s: SimView, from: u64, acts: Seq<ActionView>, t: u64)
    requires
        s.drop_every_nth == None::<u64>,
        sends_ok(acts, s.ids, t),
    ensures
        ({
            let r = enqueue_spec(s, from, acts);
            &&& r.inbox.len() >= s.inbox.len()
            &&& forall|i: int| 0 <= i < s.inbox.len() ==> r.inbox[i] == #[trigger] s.inbox[i]
            &&& forall|i: int|
                s.inbox.len() <= i < r.inbox.len() ==> {
                    &&& (#[trigger] r.inbox[i]).from == from
                    &&& s.ids.contains(r.inbox[i].to)
                    &&& msg_term(r.inbox[i].msg) <= t
                    &&& r.inbox[i].deliver_at == delivery_tick(s)
                }
            &&& forall|k: int|
                0 <= k < acts.len() ==> (#[trigger] acts[k] matches ActionView::Send { to, msg } ==> exists|
                    i: int,
                |
                    s.inbox.len() <= i < r.inbox.len() && (#[trigger] r.inbox[i]).to == to && msg_term(
                        r.inbox[i].msg,
                    ) == msg_term(msg))
            &&& r.nodes == s.nodes
            &&& r.ids == s.ids
            &&& r.tick == s.tick
            &&& r.crashed == s.crashed
            &&& r.partitions == s.partitions
            &&& r.message_delay == s.message_delay
            &&& r.drop_every_nth == s.drop_every_nth
        }),
    decreases acts.len(),
{
    if acts.len() > 0 {
        let s1 = match acts[0] {
            ActionView::Send { to, msg } => send_spec(s, from, to, msg),
            ActionView::Apply { .. } => s,
        };
        let rest = acts.drop_first();
        assert(sends_ok(rest, s1.ids, t)) by {
            assert forall|k: int| 0 <= k < rest.len() implies (#[trigger] rest[k] matches ActionView::Send {
                to,
                msg,
            } ==> s1.ids.contains(to) && msg_term(msg) <= t) by {
                assert(rest[k] == acts[k + 1]);
            }
        }
        lemma_enqueue_appends(s1, from, rest, t);
        let r = enqueue_spec(s, from, acts);
        assert(r == enqueue_spec(s1, from, rest));
        assert(delivery_tick(s1) == delivery_tick(s));
        assert forall|i: int| 0 <= i < s.inbox.len() implies r.inbox[i] == #[trigger] s.inbox[i] by {
            assert(r.inbox[i] == s1.inbox[i]);
        }
        assert forall|i: int| s.inbox.len() <= i < r.inbox.len() implies {
            &&& (#[trigger] r.inbox[i]).from == from
            &&& s.ids.contains(r.inbox[i].to)
            &&& msg_term(r.inbox[i].msg) <= t
            &&& r.inbox[i].deliver_at == delivery_tick(s)
        } by {
            if i < s1.inbox.len() {
                assert(r.inbox[i] == s1.inbox[i]);
                if let ActionView::Send { to, msg } = acts[0] {
                    assert(s1.inbox[i] == PendingView { from, to, msg, deliver_at: delivery_tick(s) });
                }
            }
        }
        assert forall|k: int| 0 <= k < acts.len() implies (#[trigger] acts[k] matches ActionView::Send {
            to,
            msg,
        } ==> exists|i: int|
            s.inbox.len() <= i < r.inbox.len() && (#[trigger] r.inbox[i]).to == to && msg_term(
                r.inbox[i].msg,
            ) == msg_term(msg)) by {
            if let ActionView::Send { to, msg } = acts[k] {
                if k == 0 {
                    let i = s.inbox.len() as int;
                    assert(s1.inbox[i].to == to);
                    assert(r.inbox[i] == s1.inbox[i]);
                } else {
                    assert(rest[k - 1] == acts[k]);
                }
            }
        }
    }
}

/// The AppendEntries a node sends to all peers carry its term.
proof fn lemma_replication_sends(x: RaftNodeView, ids: Seq<u64>)
    requires
        forall|q: int| 0 <= q < x.peer_ids.len() ==> ids.contains(#[trigger] x.peer_ids[q]),
    ensures
        sends_ok(replication_actions(x), ids, x.term),
        replication_actions(x).len() == x.peer_ids.len(),
        forall|q: int|
            0 <= q < x.peer_ids.len() ==> #[trigger] replication_actions(x)[q] == (ActionView::Send {
                to: x.peer_ids[q],
                msg: MessageView::AppendEntries(append_entries_for(x, x.peer_ids[q])),
            }),
{
    let acts = replication_actions(x);
    assert forall|k: int| 0 <= k < acts.len() implies (#[trigger] acts[k] matches ActionView::Send {
        to,
        msg,
    } ==> ids.contains(to) && msg_term(msg) <= x.term) by {
        assert(acts[k] == ActionView::Send {
            to: x.peer_ids[k],
            msg: MessageView::AppendEntries(append_entries_for(x, x.peer_ids[k])),
        });
    }
}

/// The RequestVotes a candidate sends to all peers carry its term.
proof fn lemma_vote_sends(x: RaftNodeView, ids: Seq<u64>)
    requires
        forall|q: int| 0 <= q < x.peer_ids.len() ==> ids.contains(#[trigger] x.peer_ids[q]),
    ensures
        sends_ok(request_vote_actions(x), ids, x.term),
        request_vote_actions(x).len() == x.peer_ids.len(),
        forall|q: int|
            0 <= q < x.peer_ids.len() ==> #[trigger] request_vote_actions(x)[q] == (ActionView::Send {
                to: x.peer_ids[q],
                msg: MessageView::RequestVote(vote_request(x)),
            }),
{
    let acts = request_vote_actions(x);
    assert forall|k: int| 0 <= k < acts.len() implies (#[trigger] acts[k] matches ActionView::Send {
        to,
        msg,
    } ==> ids.contains(to) && msg_term(msg) <= x.term) by {
        assert(acts[k] == ActionView::Send { to: x.peer_ids[k], msg: MessageView::RequestVote(vote_request(x)) });
    }
}

/// The invariant that carries a fault-free tick: its shape, due traffic whose terms
/// are no higher than their senders', and every node's term reaching every node.
spec fn carrying(s: SimView) -> bool {
    &&& fault_free(s)
    &&& full_mesh(s)
    &&& traffic_ok(s)
    &&& all_reach(s)
}

/// Sending one message is queueing a one-action list.
proof fn lemma_send_is_enqueue(s: SimView, from: u64, to: u64, msg: MessageView)
    ensures
        send_spec(s, from, to, msg) == enqueue_spec(s, from, seq![ActionView::Send { to, msg }]),
{
    let acts = seq![ActionView::Send { to, msg }];
    assert(acts.drop_first() =~= Seq::<ActionView>::empty());
    assert(enqueue_spec(send_spec(s, from, to, msg), from, Seq::<ActionView>::empty()) == send_spec(
        s,
        from,
        to,
        msg,
    ));
}

/// A step that keeps the shape keeps the full mesh.
proof fn lemma_shape_keeps_mesh(s: SimView, r: SimView)
    requires
        full_mesh(s),
        same_shape(s, r),
    ensures
        full_mesh(r),
{
    assert forall|a: int, q: int|
        0 <= a < r.nodes.len() && 0 <= q < r.nodes[a].peer_ids.len() implies r.ids.contains(
        #[trigger] r.nodes[a].peer_ids[q],
    ) by {
        assert(r.nodes[a].peer_ids == s.nodes[a].peer_ids);
        assert(s.ids.contains(s.nodes[a].peer_ids[q]));
    }
    assert forall|a: int, b: int|
        0 <= a < r.nodes.len() && 0 <= b < r.ids.len() && a != b implies (
        #[trigger] r.nodes[a]).peer_ids.contains(#[trigger] r.ids[b]) by {
        assert(r.nodes[a].peer_ids == s.nodes[a].peer_ids);
        assert(s.nodes[a].peer_ids.contains(s.ids[b]));
    }
}

/// A node at position `j` takes a step to `n2` and sends `acts`, all with terms no
/// higher than its new term; when the step raises its term, the actions are a
/// broadcast to all its peers in that new term. The invariant is kept.
proof fn lemma_node_step(s: SimView, j: int, n2: RaftNodeView, acts: Seq<ActionView>, x: RaftNodeView)
    requires
        carrying(s),
        0 <= j < s.nodes.len(),
        n2.term >= s.nodes[j].term,
        n2.peer_ids == s.nodes[j].peer_ids,
        sends_ok(acts, s.ids, n2.term),
        n2.term > s.nodes[j].term ==> x.term == n2.term && x.peer_ids == s.nodes[j].peer_ids && (acts
            == replication_actions(x) || acts == request_vote_actions(x)),
    ensures
        carrying(enqueue_spec(with_node(s, j, n2), s.ids[j], acts)),
        same_shape(s, enqueue_spec(with_node(s, j, n2), s.ids[j], acts)),
{
    let s1 = with_node(s, j, n2);
    let r = enqueue_spec(s1, s.ids[j], acts);
    lemma_enqueue_appends(s1, s.ids[j], acts, n2.term);
    lemma_pos(s.ids, s.ids[j], j);
    assert(r.nodes[j] == n2);
    assert(same_shape(s, r));
    lemma_shape_keeps_mesh(s, r);
    assert(delivery_tick(s1) == s.tick);
    assert forall|k: int| 0 <= k < r.inbox.len() implies {
        &&& r.ids.contains((#[trigger] r.inbox[k]).from)
        &&& r.ids.contains(r.inbox[k].to)
        &&& r.inbox[k].deliver_at <= r.tick
        &&& msg_term(r.inbox[k].msg) <= r.nodes[pos(r.ids, r.inbox[k].from)].term
    } by {
        if k < s.inbox.len() {
            assert(r.inbox[k] == s.inbox[k]);
            lemma_pos_of(s.ids, s.inbox[k].from);
        }
    }
    assert forall|a: int, b: int| 0 <= a < r.nodes.len() && 0 <= b < r.nodes.len() implies #[trigger] reaches(
        r,
        a,
        b,
    ) by {
        if a == j && b != j && n2.term > s.nodes[j].term {
            assert(s.nodes[j].peer_ids.contains(s.ids[b]));
            let q = choose|q: int| 0 <= q < x.peer_ids.len() && x.peer_ids[q] == s.ids[b];
            if acts == replication_actions(x) {
                lemma_replication_sends(x, s.ids);
            } else {
                lemma_vote_sends(x, s.ids);
            }
            assert(acts[q] matches ActionView::Send { to, msg } && to == s.ids[b] && msg_term(msg) == n2.term);
            let i = choose|i: int|
                s.inbox.len() <= i < r.inbox.len() && (#[trigger] r.inbox[i]).to == s.ids[b] && msg_term(
                    r.inbox[i].msg,
                ) == n2.term;
            assert(r.inbox[i].to == r.ids[b]);
        } else if a != b {
            assert(reaches(s, a, b));
            if s.nodes[b].term < s.nodes[a].term {
                let k = choose|k: int|
                    0 <= k < s.inbox.len() && (#[trigger] s.inbox[k]).to == s.ids[b] && msg_term(
                        s.inbox[k].msg,
                    ) >= s.nodes[a].term;
                assert(r.inbox[k] == s.inbox[k]);
            }
        }
    }
}

/// Delivering a message is a step of its receiver followed by sending what the
/// receiver answers or sends: the receiver's term rises at most to the message's
/// term, its peers stay, and what it sends carries its new term at most.
proof fn lemma_handle(s: SimView, p: PendingView) -> (res: (RaftNodeView, Seq<ActionView>))
    requires
        full_mesh(s),
        s.ids.contains(p.to),
        s.ids.contains(p.from),
    ensures
        deliver_spec(s, p) == enqueue_spec(with_node(s, pos(s.ids, p.to), res.0), p.to, res.1),
        res.0.term >= s.nodes[pos(s.ids, p.to)].term,
        res.0.term >= msg_term(p.msg),
        res.0.term == s.nodes[pos(s.ids, p.to)].term || res.0.term == msg_term(p.msg),
        res.0.peer_ids == s.nodes[pos(s.ids, p.to)].peer_ids,
        sends_ok(res.1, s.ids, res.0.term),
{
    lemma_pos_of(s.ids, p.to);
    let j = pos(s.ids, p.to);
    let n = s.nodes[j];
    assert forall|q: int| 0 <= q < n.peer_ids.len() implies s.ids.contains(#[trigger] n.peer_ids[q]) by {
        assert(s.nodes[j].peer_ids[q] == n.peer_ids[q]);
    }
    match p.msg {
        MessageView::RequestVote(req) => {
            let (n2, resp) = request_vote_step(n, s.tick, req);
            let msg = MessageView::RequestVoteResponse(resp);
            lemma_send_is_enqueue(with_node(s, j, n2), p.to, p.from, msg);
            let acts = seq![ActionView::Send { to: p.from, msg }];
            assert(sends_ok(acts, s.ids, n2.term)) by {
                assert forall|k: int| 0 <= k < acts.len() implies (#[trigger] acts[k] matches ActionView::Send {
                    to,
                    msg,
                } ==> s.ids.contains(to) && msg_term(msg) <= n2.term) by {
                    assert(acts[k] == ActionView::Send { to: p.from, msg });
                }
            }
            (n2, acts)
        },
        MessageView::AppendEntries(req) => {
            let (n2, resp) = append_entries_step(n, s.tick, req);
            let msg = MessageView::AppendEntriesResponse(resp);
            let n1 = if req.term > n.term {
                crate::raft::model::become_follower(n, req.term, s.tick)
            } else {
                n
            };
            let m2 = RaftNodeView { role: Role::Follower, votes_granted: Set::empty(), ..n1 };
            crate::raft::laws::lemma_apply_extends(RaftNodeView {
                election_deadline: (s.tick + n.election_timeout) as u64,
                log: crate::raft::model::appended_log(m2.log, req),
                commit_index: crate::raft::model::commit_after_append(m2, req),
                ..m2
            });
            lemma_send_is_enqueue(with_node(s, j, n2), p.to, p.from, msg);
            let acts = seq![ActionView::Send { to: p.from, msg }];
            assert(sends_ok(acts, s.ids, n2.term)) by {
                assert forall|k: int| 0 <= k < acts.len() implies (#[trigger] acts[k] matches ActionView::Send {
                    to,
                    msg,
                } ==> s.ids.contains(to) && msg_term(msg) <= n2.term) by {
                    assert(acts[k] == ActionView::Send { to: p.from, msg });
                }
            }
            (n2, acts)
        },
        MessageView::RequestVoteResponse(resp) => {
            let (n2, acts) = vote_response_step(n, s.tick, p.from, resp);
            if resp.term <= n.term && n.role == Role::Candidate && resp.term == n.term && resp.vote_granted {
                let s1 = RaftNodeView { votes_granted: n.votes_granted.insert(p.from), ..n };
                if crate::raft::model::has_majority(s1) {
                    let l = become_leader(s1, s.tick).0;
                    lemma_replication_sends(l, s.ids);
                }
            }
            (n2, acts)
        },
        MessageView::AppendEntriesResponse(resp) => {
            let (n2, acts) = append_response_step(n, s.tick, p.from, resp);
            if resp.term == n.term && n.role == Role::Leader {
                if resp.success {
                    let s0 = append_response_step_matched(n, p.from);
                    let s1 = RaftNodeView {
                        commit_index: highest_committable(s0, last_index(s0.log) as int) as u64,
                        ..s0
                    };
                    crate::raft::laws::lemma_apply_extends(s1);
                    let (s2, applied) = apply_step(s1);
                    lemma_replication_sends(s2, s.ids);
                    assert forall|k: int| 0 <= k < acts.len() implies (#[trigger] acts[k] matches ActionView::Send {
                        to,
                        msg,
                    } ==> s.ids.contains(to) && msg_term(msg) <= n2.term) by {
                        if k < applied.len() {
                            assert(acts[k] == applied[k]);
                        } else {
                            assert(acts[k] == replication_actions(s2)[k - applied.len()]);
                        }
                    }
                } else {
                    let next = if n.next_index.contains_key(p.from) {
                        n.next_index[p.from]
                    } else {
                        1
                    };
                    let s1 = if next > 1 {
                        RaftNodeView { next_index: n.next_index.insert(p.from, (next - 1) as u64), ..n }
                    } else {
                        n
                    };
                    assert(acts[0] == ActionView::Send {
                        to: p.from,
                        msg: MessageView::AppendEntries(append_entries_for(s1, p.from)),
                    });
                }
            }
            (n2, acts)
        },
    }
}

/// Delivering the message at the front of the queue keeps the invariant.
proof fn lemma_receive(s: SimView)
    requires
        carrying(s),
        s.inbox.len() > 0,
    ensures
        carrying(deliver_spec(SimView { inbox: s.inbox.drop_first(), ..s }, s.inbox[0])),
        same_shape(s, deliver_spec(SimView { inbox: s.inbox.drop_first(), ..s }, s.inbox[0])),
{
    let p = s.inbox[0];
    let s1 = SimView { inbox: s.inbox.drop_first(), ..s };
    assert(traffic_ok(s) ==> s.ids.contains(p.from) && s.ids.contains(p.to));
    let (n2, acts) = lemma_handle(s1, p);
    lemma_pos_of(s.ids, p.to);
    lemma_pos_of(s.ids, p.from);
    let j = pos(s.ids, p.to);
    let z = pos(s.ids, p.from);
    let w = with_node(s1, j, n2);
    let r = enqueue_spec(w, p.to, acts);
    lemma_enqueue_appends(w, p.to, acts, n2.term);
    assert(r.nodes[j] == n2);
    assert(same_shape(s, r));
    lemma_shape_keeps_mesh(s, r);
    assert(delivery_tick(w) == s.tick);
    assert forall|k: int| 0 <= k < r.inbox.len() implies {
        &&& r.ids.contains((#[trigger] r.inbox[k]).from)
        &&& r.ids.contains(r.inbox[k].to)
        &&& r.inbox[k].deliver_at <= r.tick
        &&& msg_term(r.inbox[k].msg) <= r.nodes[pos(r.ids, r.inbox[k].from)].term
    } by {
        if k < s1.inbox.len() {
            assert(r.inbox[k] == s1.inbox[k]);
            assert(s1.inbox[k] == s.inbox[k + 1]);
            lemma_pos_of(s.ids, s.inbox[k + 1].from);
        }
    }
    assert forall|a: int, b: int| 0 <= a < r.nodes.len() && 0 <= b < r.nodes.len() implies #[trigger] reaches(
        r,
        a,
        b,
    ) by {
        if a != b {
            // the node whose term `b` has to reach
            let c = if a == j && n2.term > s.nodes[j].term {
                z
            } else {
                a
            };
            assert(r.nodes[a].term <= s.nodes[c].term);
            assert(reaches(s, c, b));
            if s.nodes[b].term >= s.nodes[c].term {
                assert(r.nodes[b].term >= s.nodes[b].term);
            } else {
                let k = choose|k: int|
                    0 <= k < s.inbox.len() && (#[trigger] s.inbox[k]).to == s.ids[b] && msg_term(
                        s.inbox[k].msg,
                    ) >= s.nodes[c].term;
                if k == 0 {
                    assert(b == j) by {
                        if b != j {
                            assert(s.ids[b] != s.ids[j]) by {
                                if b < j {
                                    assert(s.ids[b] < s.ids[j]);
                                } else {
                                    assert(s.ids[j] < s.ids[b]);
                                }
                            }
                        }
                    }
                } else {
                    assert(s1.inbox[k - 1] == s.inbox[k]);
                    assert(r.inbox[k - 1] == s1.inbox[k - 1]);
                    assert(r.inbox[k - 1].to == r.ids[b]);
                }
            }
        }
    }
}

/// Draining the network keeps the cluster's shape, and when it leaves nothing in
/// flight every node is in the same term.
proof fn lemma_drain_settles(s: SimView, budget: nat)
    requires
        carrying(s),
    ensures
        fault_free(drain_spec(s, Seq::empty(), budget)),
        full_mesh(drain_spec(s, Seq::empty(), budget)),
        drain_spec(s, Seq::empty(), budget).tick == s.tick,
        drain_spec(s, Seq::empty(), budget).ids == s.ids,
        drain_spec(s, Seq::empty(), budget).inbox.len() == 0 ==> same_term(
            drain_spec(s, Seq::empty(), budget),
        ),
    decreases budget,
{
    let r = drain_spec(s, Seq::empty(), budget);
    if budget == 0 || s.inbox.len() == 0 {
        assert(r == SimView { inbox: Seq::<PendingView>::empty() + s.inbox, ..s });
        if r.inbox.len() == 0 {
            assert forall|a: int, b: int| 0 <= a < r.nodes.len() && 0 <= b < r.nodes.len() implies (
            #[trigger] r.nodes[a]).term == (#[trigger] r.nodes[b]).term by {
                assert(reaches(s, a, b));
                assert(reaches(s, b, a));
            }
        }
    } else {
        let p = s.inbox[0];
        let s1 = SimView { inbox: s.inbox.drop_first(), ..s };
        lemma_pos_of(s.ids, p.from);
        lemma_pos_of(s.ids, p.to);
        assert(!blocked(s1, p.from, p.to));
        lemma_receive(s);
        lemma_drain_settles(deliver_spec(s1, p), (budget - 1) as nat);
    }
}

proof fn lemma_shape_trans(a: SimView, b: SimView, c: SimView)
    requires
        same_shape(a, b),
        same_shape(b, c),
    ensures
        same_shape(a, c),
{
    assert forall|j: int| 0 <= j < a.nodes.len() implies (#[trigger] a.nodes[j]).peer_ids == c.nodes[j].peer_ids
        && c.nodes[j].term >= a.nodes[j].term by {
        assert(a.nodes[j].peer_ids == b.nodes[j].peer_ids);
        assert(b.nodes[j].peer_ids == c.nodes[j].peer_ids);
    }
}

proof fn lemma_shape_refl(a: SimView)
    ensures
        same_shape(a, a),
{
}

/// Heartbeat timers keep the invariant and every node's term.
proof fn lemma_heartbeats_carry(s: SimView, j: int, end: int)
    requires
        carrying(s),
        0 <= j,
    ensures
        carrying(heartbeats_spec(s, j, end)),
        same_shape(s, heartbeats_spec(s, j, end)),
        forall|k: int| 0 <= k < s.nodes.len() ==> (#[trigger] heartbeats_spec(s, j, end).nodes[k]).term
            == s.nodes[k].term,
    decreases end - j,
{
    let r = heartbeats_spec(s, j, end);
    if j >= end || j >= s.nodes.len() {
        lemma_shape_refl(s);
    } else if s.crashed[j] {
        lemma_heartbeats_carry(s, j + 1, end);
    } else {
        let n = s.nodes[j];
        let (n2, acts) = heartbeat_step(n, s.tick);
        assert forall|q: int| 0 <= q < n.peer_ids.len() implies s.ids.contains(#[trigger] n.peer_ids[q]) by {
            assert(s.nodes[j].peer_ids[q] == n.peer_ids[q]);
        }
        if crate::raft::model::heartbeat_due(n, s.tick) {
            lemma_replication_sends(n2, s.ids);
        }
        lemma_node_step(s, j, n2, acts, n);
        let s2 = enqueue_spec(with_node(s, j, n2), s.ids[j], acts);
        lemma_enqueue_appends(with_node(s, j, n2), s.ids[j], acts, n2.term);
        lemma_heartbeats_carry(s2, j + 1, end);
        lemma_shape_trans(s, s2, r);
        assert forall|k: int| 0 <= k < s.nodes.len() implies (#[trigger] r.nodes[k]).term == s.nodes[k].term by {
            assert(r.nodes[k].term == s2.nodes[k].term);
        }
    }
}

/// Election timers keep the invariant, provided no node's term is at its limit.
proof fn lemma_timeouts_carry(s: SimView, j: int, end: int)
    requires
        carrying(s),
        0 <= j,
        forall|k: int| j <= k < s.nodes.len() ==> (#[trigger] s.nodes[k]).term < u64::MAX,
    ensures
        carrying(timeouts_spec(s, j, end)),
        same_shape(s, timeouts_spec(s, j, end)),
    decreases end - j,
{
    let r = timeouts_spec(s, j, end);
    if j >= end || j >= s.nodes.len() {
        lemma_shape_refl(s);
    } else if s.crashed[j] {
        lemma_timeouts_carry(s, j + 1, end);
    } else {
        let n = s.nodes[j];
        let (n2, acts) = election_timeout_step(n, s.tick);
        assert forall|q: int| 0 <= q < n.peer_ids.len() implies s.ids.contains(#[trigger] n.peer_ids[q]) by {
            assert(s.nodes[j].peer_ids[q] == n.peer_ids[q]);
        }
        let mut x = n;
        if crate::raft::model::election_timed_out(n, s.tick) {
            let c = RaftNodeView {
                role: Role::Candidate,
                term: (n.term + 1) as u64,
                voted_for: Some(n.id),
                votes_granted: Set::empty().insert(n.id),
                next_index: Map::empty(),
                match_index: Map::empty(),
                election_deadline: (s.tick + n.election_timeout) as u64,
                ..n
            };
            if crate::raft::model::has_majority(c) {
                x = become_leader(c, s.tick).0;
                lemma_replication_sends(x, s.ids);
            } else {
                x = c;
                lemma_vote_sends(x, s.ids);
            }
        }
        lemma_node_step(s, j, n2, acts, x);
        let s2 = enqueue_spec(with_node(s, j, n2), s.ids[j], acts);
        lemma_enqueue_appends(with_node(s, j, n2), s.ids[j], acts, n2.term);
        assert forall|k: int| j + 1 <= k < s2.nodes.len() implies (#[trigger] s2.nodes[k]).term < u64::MAX by {
            assert(s2.nodes[k] == s.nodes[k]);
        }
        lemma_timeouts_carry(s2, j + 1, end);
        lemma_shape_trans(s, s2, r);
    }
}

/// A fault-free tick from a settled cluster settles it again once everything it
/// sent has been delivered: every term raised during the tick was broadcast, and a
/// node adopts a term only from a message, so all nodes end in the same term.
pub proof fn lemma_settled_tick(s: SimView)
    requires
        settled(s),
        s.tick < u64::MAX,
        forall|j: int| 0 <= j < s.nodes.len() ==> (#[trigger] s.nodes[j]).term < u64::MAX,
    ensures
        tick_spec(s).inbox.len() == 0 ==> settled(tick_spec(s)),
{
    let s1 = SimView { tick: (s.tick + 1) as u64, ..s };
    assert(carrying(s1)) by {
        assert forall|a: int, b: int| 0 <= a < s1.nodes.len() && 0 <= b < s1.nodes.len() implies #[trigger] reaches(
            s1,
            a,
            b,
        ) by {
            assert(s.nodes[a].term == s.nodes[b].term);
        }
    }
    lemma_heartbeats_carry(s1, 0, s1.nodes.len() as int);
    let s2 = heartbeats_spec(s1, 0, s1.nodes.len() as int);
    assert forall|k: int| 0 <= k < s2.nodes.len() implies (#[trigger] s2.nodes[k]).term < u64::MAX by {
        assert(s2.nodes[k].term == s1.nodes[k].term);
    }
    lemma_timeouts_carry(s2, 0, s2.nodes.len() as int);
    let s3 = timeouts_spec(s2, 0, s2.nodes.len() as int);
    lemma_drain_settles(s3, super::model::DELIVERY_BUDGET as nat);
}

/// Among the first `k` positions, at most one live node leads when all nodes share
/// one term and no two nodes lead the same term.
proof fn lemma_leaders_upto_one(s: SimView, k: int)
    requires
        same_term(s),
        one_leader_per_term(s),
        k <= s.nodes.len(),
    ensures
        leaders_upto(s, k).len() <= 1,
        leaders_upto(s, k).len() == 1 ==> exists|i: int|
            0 <= i < k && (#[trigger] s.nodes[i]).role == Role::Leader,
    decreases k,
{
    if k > 0 {
        lemma_leaders_upto_one(s, k - 1);
        if !s.crashed[k - 1] && s.nodes[k - 1].role == Role::Leader && leaders_upto(s, k - 1).len() == 1 {
            let i = choose|i: int| 0 <= i < k - 1 && (#[trigger] s.nodes[i]).role == Role::Leader;
            assert(s.nodes[i].term == s.nodes[k - 1].term);
        }
    }
}

/// In a settled cluster at most one live node leads, given election safety (no two
/// nodes lead the same term).
pub proof fn lemma_settled_one_leader(s: SimView)
    requires
        settled(s),
        one_leader_per_term(s),
    ensures
        leaders_spec(s).len() <= 1,
{
    lemma_leaders_upto_one(s, s.nodes.len() as int);
}

/// A proposal to a settled cluster settles it again once everything it sent has
/// been delivered: it raises no term.
pub proof fn lemma_settled_propose(s: SimView, leader: u64, data: Seq<u8>)
    requires
        settled(s),
        s.ids.contains(leader),
    ensures
        propose_spec(s, leader, data).0.inbox.len() == 0 ==> settled(propose_spec(s, leader, data).0),
{
    lemma_pos_of(s.ids, leader);
    let j = pos(s.ids, leader);
    let n = s.nodes[j];
    let (n2, r) = propose_step(n, data);
    if r is Ok {
        assert(carrying(s)) by {
            assert forall|a: int, b: int| 0 <= a < s.nodes.len() && 0 <= b < s.nodes.len() implies #[trigger] reaches(
                s,
                a,
                b,
            ) by {
                assert(s.nodes[a].term == s.nodes[b].term);
            }
        }
        assert forall|q: int| 0 <= q < n2.peer_ids.len() implies s.ids.contains(#[trigger] n2.peer_ids[q]) by {
            assert(s.nodes[j].peer_ids[q] == n2.peer_ids[q]);
        }
        let acts = replication_actions(n2);
        lemma_replication_sends(n2, s.ids);
        lemma_pos(s.ids, leader, j);
        lemma_node_step(s, j, n2, acts, n2);
        lemma_drain_settles(enqueue_spec(with_node(s, j, n2), s.ids[j], acts), super::model::DELIVERY_BUDGET as nat);
    }
}

} // verus!
