//! Deterministic fault-injection simulator for Raft correctness testing.
//!
//! The simulator owns all nodes, advances a global tick counter, delivers RPC
//! messages from an inbox, and can block links between nodes, crash and restart
//! nodes, delay messages and drop every n-th message.
//!
//! Every operation is stated in `model` and proved to follow it. For a simulator
//! built by `new` and driven through its operations, `history` shows election
//! safety (no two leaders of one term) and log matching.

pub mod election;
pub mod history;
pub mod matching;
pub mod model;
pub mod proposal;
pub mod quiet;
pub mod safety;

use self::model::{
    all_applied, blocked, committed_prefixes_agree, deliver_spec, drain_spec, drained,
    enqueue_spec, heartbeats_spec, is_live, logs_match, lower, prefix_agrees, leaders_spec, leaders_upto, link, matching_property, pos,
    propose_spec, rebooted, send_spec, settle_spec, states_match, strictly_increasing,
    tick_spec, ticks_spec, timeouts_spec, until_leader_spec, with_node, PendingView, SimView,
    DELIVERY_BUDGET,
};
use self::election::{node_votes_ok, one_leader_per_term, votes_fit};
use self::history::{
    all_logs_match, history_consistent, history_fit, leaders_hold_their_entries,
    lemma_history_one_leader_per_term, lemma_leaders_hold_their_entries, lemma_log_matching, lemma_network_change_keeps_history, lemma_propose_keeps_history,
    lemma_restart_keeps_history, lemma_tick_keeps_history, logs_fit,
};
use self::matching::{node_log_ok, prefix_ok, sentinel};
use self::proposal::{lemma_propose_appends_one, replication_traffic};
use self::quiet::{lemma_settled_one_leader, lemma_settled_propose, lemma_settled_tick, settled};
use self::safety::{
    actions_ok, inbox_ok, lemma_append_entries, lemma_append_response, lemma_election_timer,
    lemma_enqueue, lemma_heartbeat, lemma_next_tick, lemma_pos, lemma_propose, lemma_reboot,
    lemma_request_vote, lemma_send, lemma_vote_response, lemma_with_node, msg_ok, node_inv,
    pending_ok, same_frame, same_timers, sim_inv, timers_fit,
};
use crate::raft::model::{initial, last_index};
use crate::raft::{actions_view, entries_view, lemma_entries_view_index, Action, LogEntry, LogEntryView, Message, ProposeError, RaftNode, RaftNodeView, Role};
use crate::state_machine::{decodes, encodable, encode_spec, Command, StateMachine};
use std::collections::VecDeque;
use vstd::prelude::*;

verus! {

/// A message waiting in the simulated network.
struct PendingMessage {
    from: u64,
    to: u64,
    msg: Message,
    deliver_at: u64,
}

impl PendingMessage {
    spec fn view(&self) -> PendingView {
        PendingView { from: self.from, to: self.to, msg: self.msg@, deliver_at: self.deliver_at }
    }
}

spec fn nodes_view(v: Seq<RaftNode>) -> Seq<RaftNodeView> {
    v.map_values(|n: RaftNode| n@)
}

spec fn pending_view(v: Seq<PendingMessage>) -> Seq<PendingView> {
    v.map_values(|p: PendingMessage| p.view())
}

/// The ids of `all` other than `id`, in order.
pub open spec fn peers_of(all: Seq<u64>, id: u64) -> Seq<u64>
    decreases all.len(),
{
    if all.len() == 0 {
        Seq::empty()
    } else if all.last() == id {
        peers_of(all.drop_last(), id)
    } else {
        peers_of(all.drop_last(), id).push(all.last())
    }
}

/// In-memory multi-node Raft cluster with deterministic timing.
pub struct Simulator {
    tick: u64,
    ids: Vec<u64>,
    nodes: Vec<RaftNode>,
    crashed: Vec<bool>,
    inbox: VecDeque<PendingMessage>,
    /// Links that cannot carry messages, each as `(lower id, higher id)`.
    partitions: Vec<(u64, u64)>,
    message_delay: u64,
    drop_every_nth: Option<u64>,
    sent: u64,
}

impl View for Simulator {
    type V = SimView;

    closed spec fn view(&self) -> SimView {
        SimView {
            tick: self.tick,
            ids: self.ids@,
            nodes: nodes_view(self.nodes@),
            crashed: self.crashed@,
            inbox: pending_view(self.inbox@),
            partitions: self.partitions@.to_set(),
            message_delay: self.message_delay,
            drop_every_nth: self.drop_every_nth,
            sent: self.sent,
        }
    }
}

proof fn lemma_nodes_view_update(v: Seq<RaftNode>, j: int, x: RaftNode)
    requires
        0 <= j < v.len(),
    ensures
        nodes_view(v.update(j, x)) == nodes_view(v).update(j, x@),
{
    assert(nodes_view(v.update(j, x)) =~= nodes_view(v).update(j, x@));
}

impl Simulator {
    /// The simulator invariant holds and no link is listed twice.
    pub closed spec fn wf(&self) -> bool {
        &&& sim_inv(self@)
        &&& self.partitions@.no_duplicates()
        &&& self.nodes@.len() == self.ids@.len()
        &&& self.crashed@.len() == self.ids@.len()
    }

    /// Position of a node id.
    fn position(&self, id: u64) -> (r: usize)
        requires
            self.wf(),
            self@.ids.contains(id),
        ensures
            r == pos(self@.ids, id),
            r < self@.nodes.len(),
            self@.ids[r as int] == id,
    {
        let mut j: usize = 0;
        while j < self.ids.len()
            invariant
                self.wf(),
                self@.ids.contains(id),
                j <= self.ids@.len(),
                forall|k: int| 0 <= k < j ==> self.ids@[k] != id,
            decreases self.ids@.len() - j,
        {
            if self.ids[j] == id {
                proof {
                    lemma_pos(self@.ids, id, j as int);
                }
                return j;
            }
            j = j + 1;
        }
        proof {
            let k = choose|k: int| 0 <= k < self@.ids.len() && self@.ids[k] == id;
            assert(self.ids@[k] != id);
        }
        0
    }

    /// Count one more message and queue it unless it is one to drop.
    fn send(&mut self, from: u64, to: u64, msg: Message)
        requires
            old(self).wf(),
            old(self)@.ids.contains(from),
            msg_ok(to, msg@, old(self)@.ids, old(self)@.tick),
        ensures
            final(self).wf(),
            final(self)@ == send_spec(old(self)@, from, to, msg@),
            same_frame(final(self)@, old(self)@),
            final(self)@.nodes == old(self)@.nodes,
    {
        proof {
            lemma_send(self@, from, to, msg@);
        }
        let count = if self.sent == u64::MAX {
            0
        } else {
            self.sent + 1
        };
        self.sent = count;
        let drop = match self.drop_every_nth {
            Some(k) => k > 0 && count % k == 0,
            None => false,
        };
        if !drop {
            let deliver_at = if self.message_delay > u64::MAX - self.tick {
                u64::MAX
            } else {
                self.tick + self.message_delay
            };
            let p = PendingMessage { from, to, msg, deliver_at };
            let ghost old_inbox = self.inbox@;
            self.inbox.push_back(p);
            proof {
                assert(pending_view(self.inbox@) =~= pending_view(old_inbox).push(p.view()));
            }
        }
    }

    /// Queue the messages among a node's actions, in order.
    fn enqueue_actions(&mut self, from: u64, actions: Vec<Action>)
        requires
            old(self).wf(),
            old(self)@.ids.contains(from),
            actions_ok(actions_view(actions@), old(self)@.ids, old(self)@.tick),
        ensures
            final(self).wf(),
            final(self)@ == enqueue_spec(old(self)@, from, actions_view(actions@)),
            same_frame(final(self)@, old(self)@),
            final(self)@.nodes == old(self)@.nodes,
    {
        let ghost acts = actions_view(actions@);
        let mut j: usize = 0;
        assert(acts.skip(0) =~= acts);
        while j < actions.len()
            invariant
                self.wf(),
                j <= actions@.len(),
                acts == actions_view(actions@),
                same_frame(self@, old(self)@),
                self@.nodes == old(self)@.nodes,
                self@.ids.contains(from),
                actions_ok(acts, self@.ids, self@.tick),
                enqueue_spec(self@, from, acts.skip(j as int)) == enqueue_spec(old(self)@, from, acts),
            decreases actions@.len() - j,
        {
            proof {
                assert(acts.skip(j as int).drop_first() =~= acts.skip(j + 1));
                assert(acts.skip(j as int)[0] == acts[j as int]);
                assert(acts[j as int] == actions@[j as int]@);
            }
            match &actions[j] {
                Action::Send { to, msg } => {
                    proof {
                        assert(acts[j as int] matches crate::raft::ActionView::Send { to, msg }
                            ==> msg_ok(to, msg, self@.ids, self@.tick));
                    }
                    self.send(from, *to, msg.clone());
                },
                Action::Apply { .. } => {},
            }
            j = j + 1;
        }
        proof {
            assert(acts.skip(j as int) =~= Seq::empty());
        }
    }
}

impl Simulator {
    /// Whether messages between `a` and `b` are lost.
    fn is_partitioned(&self, a: u64, b: u64) -> (r: bool)
        requires
            self.wf(),
            self@.ids.contains(a),
            self@.ids.contains(b),
        ensures
            r == blocked(self@, a, b),
    {
        let l = if a <= b {
            (a, b)
        } else {
            (b, a)
        };
        let mut found = false;
        let mut k: usize = 0;
        while k < self.partitions.len()
            invariant
                k <= self.partitions@.len(),
                found == self.partitions@.take(k as int).contains(l),
            decreases self.partitions@.len() - k,
        {
            let (x, y) = self.partitions[k];
            proof {
                assert(self.partitions@.take(k + 1) =~= self.partitions@.take(k as int).push(
                    self.partitions@[k as int],
                ));
            }
            if x == l.0 && y == l.1 {
                found = true;
            }
            k = k + 1;
            proof {
                let t = self.partitions@.take(k as int);
                if found {
                    if !self.partitions@.take(k - 1).contains(l) {
                        assert(t[k - 1] == l);
                    } else {
                        let i = choose|i: int| 0 <= i < k - 1 && #[trigger] self.partitions@.take(k - 1)[i] == l;
                        assert(t[i] == l);
                    }
                } else {
                    assert forall|i: int| 0 <= i < t.len() implies t[i] != l by {
                        if i < k - 1 {
                            assert(t[i] == self.partitions@.take(k - 1)[i]);
                        }
                    }
                }
            }
        }
        proof {
            assert(self.partitions@.take(k as int) =~= self.partitions@);
        }
        let ja = self.position(a);
        let jb = self.position(b);
        found || self.crashed[ja] || self.crashed[jb]
    }

    /// Deliver one message to its receiver, which answers requests and sends what
    /// responses make it send.
    fn deliver(&mut self, p: PendingMessage)
        requires
            old(self).wf(),
            pending_ok(p.view(), old(self)@.ids, old(self)@.tick),
        ensures
            final(self).wf(),
            final(self)@ == deliver_spec(old(self)@, p.view()),
            same_frame(final(self)@, old(self)@),
            same_timers(final(self)@, old(self)@),
    {
        let j = self.position(p.to);
        let now = self.tick;
        let from = p.from;
        let to = p.to;
        let ghost s0 = self@;
        let ghost n0 = self@.nodes[j as int];
        proof {
            assert(node_inv(n0, s0.ids, s0.tick));
        }
        match p.msg {
            Message::RequestVote(req) => {
                proof {
                    lemma_request_vote(n0, s0.ids, now, req);
                }
                let ghost v0 = self.nodes@;
                let resp = self.nodes[j].handle_request_vote(now, req);
                proof {
                    lemma_nodes_view_update(v0, j as int, self.nodes@[j as int]);
                    lemma_with_node(s0, j as int, self.nodes@[j as int]@);
                    assert(self@ =~= with_node(s0, j as int, self.nodes@[j as int]@));
                }
                self.send(to, from, Message::RequestVoteResponse(resp));
            },
            Message::AppendEntries(req) => {
                proof {
                    lemma_append_entries(n0, s0.ids, now, req@);
                }
                let ghost v0 = self.nodes@;
                let resp = self.nodes[j].handle_append_entries(now, req);
                let _ = self.nodes[j].log.len();
                proof {
                    lemma_nodes_view_update(v0, j as int, self.nodes@[j as int]);
                    lemma_with_node(s0, j as int, self.nodes@[j as int]@);
                    assert(self@ =~= with_node(s0, j as int, self.nodes@[j as int]@));
                }
                self.send(to, from, Message::AppendEntriesResponse(resp));
            },
            Message::RequestVoteResponse(resp) => {
                proof {
                    lemma_vote_response(n0, s0.ids, now, from, resp);
                }
                let ghost v0 = self.nodes@;
                let actions = self.nodes[j].handle_request_vote_response(now, from, resp);
                proof {
                    lemma_nodes_view_update(v0, j as int, self.nodes@[j as int]);
                    lemma_with_node(s0, j as int, self.nodes@[j as int]@);
                    assert(self@ =~= with_node(s0, j as int, self.nodes@[j as int]@));
                }
                self.enqueue_actions(to, actions);
            },
            Message::AppendEntriesResponse(resp) => {
                proof {
                    lemma_append_response(n0, s0.ids, now, from, resp);
                }
                let ghost v0 = self.nodes@;
                let actions = self.nodes[j].handle_append_entries_response(now, from, resp);
                proof {
                    lemma_nodes_view_update(v0, j as int, self.nodes@[j as int]);
                    lemma_with_node(s0, j as int, self.nodes@[j as int]@);
                    assert(self@ =~= with_node(s0, j as int, self.nodes@[j as int]@));
                }
                self.enqueue_actions(to, actions);
            },
        }
    }
}

impl Simulator {
    /// Deliver what is due: take messages from the front of the network queue; set
    /// aside those not due yet, lose those on a blocked link, deliver the rest
    /// (their replies join the back of the queue); then put the set aside ones, in
    /// order, in front of what is left.
    fn drain_inbox(&mut self)
        requires
            old(self).wf(),
        ensures
            final(self).wf(),
            final(self)@ == drained(old(self)@),
            same_frame(final(self)@, old(self)@),
            same_timers(final(self)@, old(self)@),
    {
        let mut waiting: VecDeque<PendingMessage> = VecDeque::new();
        let mut budget: u64 = DELIVERY_BUDGET;
        proof {
            assert(pending_view(waiting@) =~= Seq::<PendingView>::empty());
        }
        while budget > 0 && self.inbox.len() > 0
            invariant
                self.wf(),
                inbox_ok(pending_view(waiting@), self@.ids, self@.tick),
                same_frame(self@, old(self)@),
                same_timers(self@, old(self)@),
                drain_spec(self@, pending_view(waiting@), budget as nat) == drained(old(self)@),
            decreases budget,
        {
            let ghost s0 = self@;
            let ghost w0 = pending_view(waiting@);
            let ghost q0 = self.inbox@;
            let p = self.inbox.pop_front().unwrap();
            proof {
                assert(pending_view(self.inbox@) =~= s0.inbox.drop_first());
                assert(s0.inbox[0] == p.view());
                assert(pending_ok(p.view(), s0.ids, s0.tick));
                assert(inbox_ok(pending_view(self.inbox@), s0.ids, s0.tick)) by {
                    assert forall|k: int| 0 <= k < pending_view(self.inbox@).len() implies pending_ok(
                        #[trigger] pending_view(self.inbox@)[k],
                        s0.ids,
                        s0.tick,
                    ) by {
                        assert(pending_view(self.inbox@)[k] == s0.inbox[k + 1]);
                    }
                }
                assert(self@ =~= SimView { inbox: s0.inbox.drop_first(), ..s0 });
            }
            budget = budget - 1;
            if p.deliver_at > self.tick {
                let ghost pv = p.view();
                waiting.push_back(p);
                proof {
                    assert(pending_view(waiting@) =~= w0.push(pv));
                }
            } else if !self.is_partitioned(p.from, p.to) {
                self.deliver(p);
            }
        }
        let ghost s1 = self@;
        let ghost w1 = pending_view(waiting@);
        waiting.append(&mut self.inbox);
        self.inbox = waiting;
        proof {
            assert(pending_view(self.inbox@) =~= w1 + s1.inbox);
            assert(self@ =~= SimView { inbox: w1 + s1.inbox, ..s1 });
            assert forall|k: int| 0 <= k < self@.inbox.len() implies pending_ok(
                #[trigger] self@.inbox[k],
                self@.ids,
                self@.tick,
            ) by {
                if k < w1.len() {
                    assert(self@.inbox[k] == w1[k]);
                } else {
                    assert(self@.inbox[k] == s1.inbox[k - w1.len()]);
                }
            }
        }
    }
}

impl Simulator {
    /// Heartbeat timers of the live nodes, in id order.
    fn process_heartbeats(&mut self)
        requires
            old(self).wf(),
        ensures
            final(self).wf(),
            final(self)@ == heartbeats_spec(old(self)@, 0, old(self)@.nodes.len() as int),
            same_frame(final(self)@, old(self)@),
            same_timers(final(self)@, old(self)@),
            forall|k: int|
                0 <= k < old(self)@.nodes.len() ==> (#[trigger] final(self)@.nodes[k]).term
                    == old(self)@.nodes[k].term,
    {
        let len = self.nodes.len();
        let mut j: usize = 0;
        while j < len
            invariant
                self.wf(),
                len == self@.nodes.len(),
                j <= len,
                same_frame(self@, old(self)@),
                same_timers(self@, old(self)@),
                forall|k: int|
                    0 <= k < len ==> (#[trigger] self@.nodes[k]).term == old(self)@.nodes[k].term,
                heartbeats_spec(self@, j as int, len as int) == heartbeats_spec(
                    old(self)@,
                    0,
                    len as int,
                ),
            decreases len - j,
        {
            if !self.crashed[j] {
                let now = self.tick;
                let ghost s0 = self@;
                proof {
                    assert(node_inv(s0.nodes[j as int], s0.ids, s0.tick));
                    lemma_heartbeat(s0.nodes[j as int], s0.ids, now);
                }
                let ghost v0 = self.nodes@;
                let actions = self.nodes[j].on_heartbeat_tick(now);
                proof {
                    lemma_nodes_view_update(v0, j as int, self.nodes@[j as int]);
                    lemma_with_node(s0, j as int, self.nodes@[j as int]@);
                    assert(self@ =~= with_node(s0, j as int, self.nodes@[j as int]@));
                }
                let id = self.ids[j];
                self.enqueue_actions(id, actions);
            }
            j = j + 1;
        }
    }

    /// Election timers of the live nodes, in id order.
    fn process_election_timeouts(&mut self)
        requires
            old(self).wf(),
            forall|k: int|
                0 <= k < old(self)@.nodes.len() ==> (#[trigger] old(self)@.nodes[k]).term < old(
                    self,
                )@.tick,
        ensures
            final(self).wf(),
            final(self)@ == timeouts_spec(old(self)@, 0, old(self)@.nodes.len() as int),
            same_frame(final(self)@, old(self)@),
            same_timers(final(self)@, old(self)@),
    {
        let len = self.nodes.len();
        let mut j: usize = 0;
        while j < len
            invariant
                self.wf(),
                len == self@.nodes.len(),
                j <= len,
                same_frame(self@, old(self)@),
                same_timers(self@, old(self)@),
                forall|k: int| j <= k < len ==> (#[trigger] self@.nodes[k]) == old(self)@.nodes[k],
                forall|k: int| 0 <= k < len ==> (#[trigger] old(self)@.nodes[k]).term < old(self)@.tick,
                timeouts_spec(self@, j as int, len as int) == timeouts_spec(
                    old(self)@,
                    0,
                    len as int,
                ),
            decreases len - j,
        {
            if !self.crashed[j] {
                let now = self.tick;
                let ghost s0 = self@;
                proof {
                    assert(node_inv(s0.nodes[j as int], s0.ids, s0.tick));
                    assert(s0.nodes[j as int] == old(self)@.nodes[j as int]);
                    lemma_election_timer(s0.nodes[j as int], s0.ids, now);
                }
                let ghost v0 = self.nodes@;
                let actions = self.nodes[j].on_election_timeout(now);
                proof {
                    lemma_nodes_view_update(v0, j as int, self.nodes@[j as int]);
                    lemma_with_node(s0, j as int, self.nodes@[j as int]@);
                    assert(self@ =~= with_node(s0, j as int, self.nodes@[j as int]@));
                }
                let id = self.ids[j];
                self.enqueue_actions(id, actions);
            }
            j = j + 1;
        }
    }

    /// Advance one tick: leader heartbeats, election timers, then deliver pending messages.
    pub fn tick(&mut self)
        requires
            old(self).wf(),
            old(self)@.tick < u64::MAX,
            timers_fit(old(self)@, old(self)@.tick + 1),
        ensures
            final(self).wf(),
            final(self)@ == tick_spec(old(self)@),
            same_timers(final(self)@, old(self)@),
            final(self)@.tick == old(self)@.tick + 1,
            final(self)@.ids == old(self)@.ids,
            history_consistent(old(self)@) ==> history_consistent(final(self)@),
            settled(old(self)@) && final(self)@.inbox.len() == 0 ==> settled(final(self)@),
    {
        proof {
            lemma_next_tick(self@);
            if history_consistent(self@) {
                lemma_tick_keeps_history(self@);
            }
            if settled(self@) {
                assert forall|j: int| 0 <= j < self@.nodes.len() implies (#[trigger] self@.nodes[j]).term
                    < u64::MAX by {
                    assert(node_inv(self@.nodes[j], self@.ids, self@.tick));
                }
                lemma_settled_tick(self@);
            }
        }
        let ghost s0 = self@;
        self.tick = self.tick + 1;
        proof {
            assert(self@ =~= SimView { tick: (s0.tick + 1) as u64, ..s0 });
        }
        self.process_heartbeats();
        proof {
            assert forall|k: int| 0 <= k < self@.nodes.len() implies (
            #[trigger] self@.nodes[k]).term < self@.tick by {
                assert(node_inv(s0.nodes[k], s0.ids, s0.tick));
            }
        }
        self.process_election_timeouts();
        self.drain_inbox();
    }
}

/// The ids of `all` other than `id`, in order.
fn peers_from(all: &[u64], id: u64) -> (r: Vec<u64>)
    ensures
        r@ == peers_of(all@, id),
{
    let mut r: Vec<u64> = Vec::new();
    let mut i: usize = 0;
    while i < all.len()
        invariant
            i <= all@.len(),
            r@ == peers_of(all@.take(i as int), id),
        decreases all@.len() - i,
    {
        proof {
            assert(all@.take(i + 1).drop_last() =~= all@.take(i as int));
        }
        if all[i] != id {
            r.push(all[i]);
        }
        i = i + 1;
    }
    proof {
        assert(all@.take(i as int) =~= all@);
    }
    r
}

/// Every peer id is one of `all`, and there are no more peers than ids.
proof fn lemma_peers_of(all: Seq<u64>, id: u64)
    ensures
        peers_of(all, id).len() <= all.len(),
        forall|k: int| 0 <= k < peers_of(all, id).len() ==> all.contains(#[trigger] peers_of(all, id)[k]),
    decreases all.len(),
{
    if all.len() > 0 {
        lemma_peers_of(all.drop_last(), id);
        let p = peers_of(all, id);
        assert forall|k: int| 0 <= k < p.len() implies all.contains(#[trigger] p[k]) by {
            if k < peers_of(all.drop_last(), id).len() {
                let q = peers_of(all.drop_last(), id);
                assert(p[k] == q[k]);
                let x = choose|x: int| 0 <= x < all.drop_last().len() && all.drop_last()[x] == q[k];
                assert(all[x] == q[k]);
            } else {
                assert(p[k] == all.last());
                assert(all[all.len() - 1] == all.last());
            }
        }
    }
}

/// Every id of `all` other than `id` is among its peers.
proof fn lemma_peers_of_contains(all: Seq<u64>, id: u64, x: u64)
    requires
        all.contains(x),
        x != id,
    ensures
        peers_of(all, id).contains(x),
    decreases all.len(),
{
    if all.last() == x {
        let p = peers_of(all, id);
        assert(p[p.len() - 1] == x);
    } else {
        let k = choose|k: int| 0 <= k < all.len() && all[k] == x;
        assert(all.drop_last()[k] == x);
        lemma_peers_of_contains(all.drop_last(), id, x);
        let q = peers_of(all.drop_last(), id);
        let i = choose|i: int| 0 <= i < q.len() && q[i] == x;
        if all.last() != id {
            assert(peers_of(all, id)[i] == x);
        }
    }
}

/// A node is not among its own peers.
proof fn lemma_peers_of_excludes(all: Seq<u64>, id: u64)
    ensures
        forall|k: int| 0 <= k < peers_of(all, id).len() ==> #[trigger] peers_of(all, id)[k] != id,
    decreases all.len(),
{
    if all.len() > 0 {
        lemma_peers_of_excludes(all.drop_last(), id);
        let p = peers_of(all, id);
        let q = peers_of(all.drop_last(), id);
        assert forall|k: int| 0 <= k < p.len() implies #[trigger] p[k] != id by {
            if k < q.len() {
                assert(p[k] == q[k]);
            }
        }
    }
}

/// A node's peers, with the node itself, are at least as many as the cluster's
/// distinct ids.
proof fn lemma_peers_of_len(all: Seq<u64>, ids: Seq<u64>, id: u64)
    requires
        strictly_increasing(ids),
        forall|x: u64| ids.contains(x) <==> all.contains(x),
        ids.contains(id),
    ensures
        peers_of(all, id).len() + 1 >= ids.len(),
{
    let p = peers_of(all, id);
    let rest = ids.to_set().remove(id);
    assert forall|x: u64| rest.contains(x) implies p.to_set().contains(x) by {
        lemma_peers_of_contains(all, id, x);
    }
    crate::simulator::safety::lemma_ids_distinct(ids);
    p.lemma_cardinality_of_set();
    vstd::set_lib::lemma_len_subset(rest, p.to_set());
}

/// Insert `id` into strictly increasing `ids` unless it is there already.
fn insert_sorted(ids: &mut Vec<u64>, id: u64)
    requires
        strictly_increasing(old(ids)@),
    ensures
        strictly_increasing(final(ids)@),
        forall|x: u64| final(ids)@.contains(x) <==> (old(ids)@.contains(x) || x == id),
{
    let mut k: usize = 0;
    while k < ids.len() && ids[k] < id
        invariant
            k <= ids@.len(),
            ids@ == old(ids)@,
            forall|m: int| 0 <= m < k ==> ids@[m] < id,
        decreases ids@.len() - k,
    {
        k = k + 1;
    }
    if k < ids.len() && ids[k] == id {
        proof {
            assert(ids@[k as int] == id);
            assert(ids@.contains(id));
        }
        return;
    }
    let ghost o = ids@;
    ids.insert(k, id);
    proof {
        assert forall|a: int, b: int| 0 <= a < b < ids@.len() implies ids@[a] < ids@[b] by {
            if b < k {
            } else if a < k && b == k {
            } else if a < k {
                assert(ids@[b] == o[b - 1]);
                assert(o[a] < id);
                assert(id <= o[k as int]);
                assert(o[k as int] <= o[b - 1]);
            } else if a == k {
                assert(ids@[b] == o[b - 1]);
                assert(id <= o[k as int]);
                assert(id != o[k as int]);
            } else {
                assert(ids@[a] == o[a - 1]);
                assert(ids@[b] == o[b - 1]);
            }
        }
        assert forall|x: u64| ids@.contains(x) <==> (o.contains(x) || x == id) by {
            if ids@.contains(x) {
                let i = choose|i: int| 0 <= i < ids@.len() && ids@[i] == x;
                if i < k {
                    assert(o[i] == x);
                } else if i > k {
                    assert(o[i - 1] == x);
                }
            }
            if o.contains(x) {
                let i = choose|i: int| 0 <= i < o.len() && o[i] == x;
                if i < k {
                    assert(ids@[i] == x);
                } else {
                    assert(ids@[i + 1] == x);
                }
            }
            if x == id {
                assert(ids@[k as int] == x);
            }
        }
        assert(o == old(ids)@);
        assert(forall|x: u64| ids@.contains(x) <==> (old(ids)@.contains(x) || x == id));
    }
}

impl Simulator {
    /// Create a cluster with one node per distinct ID, kept in increasing id order.
    /// Election timeouts are staggered by `id * 10` ticks so nodes do not start
    /// elections simultaneously; each node's peers are the other listed IDs, in the
    /// order given.
    pub fn new(node_ids: &[u64], election_timeout: u64) -> (sim: Self)
        requires
            node_ids@.len() < usize::MAX,
            forall|i: int|
                0 <= i < node_ids@.len() ==> election_timeout + #[trigger] node_ids@[i] * 10
                    <= u64::MAX,
        ensures
            sim.wf(),
            sim@.tick == 0,
            strictly_increasing(sim@.ids),
            forall|x: u64| sim@.ids.contains(x) <==> node_ids@.contains(x),
            sim@.nodes.len() == sim@.ids.len(),
            forall|j: int|
                0 <= j < sim@.ids.len() ==> #[trigger] sim@.nodes[j] == initial(
                    sim@.ids[j],
                    peers_of(node_ids@, sim@.ids[j]),
                    (election_timeout + sim@.ids[j] * 10) as u64,
                ),
            sim@.crashed == Seq::new(sim@.ids.len(), |j: int| false),
            sim@.inbox == Seq::<PendingView>::empty(),
            sim@.partitions == Set::<(u64, u64)>::empty(),
            sim@.message_delay == 0,
            sim@.drop_every_nth == None::<u64>,
            sim@.sent == 0,
            history_consistent(sim@),
            leaders_spec(sim@) == Seq::<u64>::empty(),
            states_match(sim@),
            settled(sim@),
    {
        let mut ids: Vec<u64> = Vec::new();
        let mut i: usize = 0;
        while i < node_ids.len()
            invariant
                i <= node_ids@.len(),
                strictly_increasing(ids@),
                forall|x: u64| ids@.contains(x) <==> node_ids@.take(i as int).contains(x),
            decreases node_ids@.len() - i,
        {
            insert_sorted(&mut ids, node_ids[i]);
            i = i + 1;
            proof {
                assert forall|x: u64| ids@.contains(x) <==> node_ids@.take(i as int).contains(x) by {
                    let t = node_ids@.take(i as int);
                    let t0 = node_ids@.take(i - 1);
                    if t.contains(x) {
                        let y = choose|y: int| 0 <= y < t.len() && t[y] == x;
                        if y < i - 1 {
                            assert(t0[y] == x);
                        }
                    }
                    if t0.contains(x) {
                        let y = choose|y: int| 0 <= y < t0.len() && t0[y] == x;
                        assert(t[y] == x);
                    }
                    if x == node_ids@[i - 1] {
                        assert(t[i - 1] == x);
                    }
                }
            }
        }
        proof {
            assert(node_ids@.take(i as int) =~= node_ids@);
            crate::simulator::safety::lemma_ids_distinct(ids@);
            assert(ids@.to_set() =~= node_ids@.to_set());
            node_ids@.lemma_cardinality_of_set();
        }
        let mut nodes: Vec<RaftNode> = Vec::new();
        let mut crashed: Vec<bool> = Vec::new();
        let mut j: usize = 0;
        while j < ids.len()
            invariant
                j <= ids@.len(),
                ids@.len() < usize::MAX,
                nodes@.len() == j,
                crashed@ == Seq::new(j as nat, |k: int| false),
                strictly_increasing(ids@),
                forall|x: u64| ids@.contains(x) <==> node_ids@.contains(x),
                forall|i: int|
                    0 <= i < node_ids@.len() ==> election_timeout + #[trigger] node_ids@[i] * 10
                        <= u64::MAX,
                forall|k: int|
                    0 <= k < j ==> (#[trigger] nodes@[k])@ == initial(
                        ids@[k],
                        peers_of(node_ids@, ids@[k]),
                        (election_timeout + ids@[k] * 10) as u64,
                    ),
            decreases ids@.len() - j,
        {
            let id = ids[j];
            proof {
                assert(ids@.contains(id));
                let x = choose|x: int| 0 <= x < node_ids@.len() && node_ids@[x] == id;
                assert(election_timeout + node_ids@[x] * 10 <= u64::MAX);
            }
            let peers = peers_from(node_ids, id);
            let node = RaftNode::with_election_timeout(id, peers, election_timeout + id * 10);
            nodes.push(node);
            crashed.push(false);
            j = j + 1;
            proof {
                assert(crashed@ =~= Seq::new(j as nat, |k: int| false));
            }
        }
        let sim = Simulator {
            tick: 0,
            ids,
            nodes,
            crashed,
            inbox: VecDeque::new(),
            partitions: Vec::new(),
            message_delay: 0,
            drop_every_nth: None,
            sent: 0,
        };
        proof {
            assert(sim@.partitions =~= Set::<(u64, u64)>::empty());
            assert(sim@.inbox =~= Seq::<PendingView>::empty());
            assert forall|k: int| 0 <= k < sim@.nodes.len() implies node_inv(
                #[trigger] sim@.nodes[k],
                sim@.ids,
                0,
            ) by {
                let id = sim@.ids[k];
                let n = sim@.nodes[k];
                assert(n == sim.nodes@[k]@);
                lemma_peers_of(node_ids@, id);
                assert forall|q: int| 0 <= q < n.peer_ids.len() implies sim@.ids.contains(
                    #[trigger] n.peer_ids[q],
                ) by {
                    assert(node_ids@.contains(n.peer_ids[q]));
                }
                assert(crate::simulator::safety::log_decodes(n.log));
            }
            let none = Map::<(u64, u64), u64>::empty();
            assert forall|k: int| 0 <= k < sim@.nodes.len() implies node_votes_ok(
                #[trigger] sim@.nodes[k],
                sim@.ids[k],
                sim@.ids,
                none,
            ) by {
                let id = sim@.ids[k];
                let n = sim@.nodes[k];
                assert(n == sim.nodes@[k]@);
                lemma_peers_of(node_ids@, id);
                lemma_peers_of_len(node_ids@, sim@.ids, id);
                assert forall|q: int| 0 <= q < n.peer_ids.len() implies sim@.ids.contains(
                    #[trigger] n.peer_ids[q],
                ) by {
                    assert(node_ids@.contains(n.peer_ids[q]));
                }
            }
            assert(votes_fit(sim@, none));
            let first = map![(0u64, 0int) => seq![sentinel()]];
            assert forall|k: int| 0 <= k < sim@.nodes.len() implies node_log_ok(
                #[trigger] sim@.nodes[k],
                sim@.ids[k],
                first,
            ) by {
                let id = sim@.ids[k];
                let n = sim@.nodes[k];
                assert(n == sim.nodes@[k]@);
                lemma_peers_of_excludes(node_ids@, id);
                assert(n.log == seq![sentinel()]);
                assert(n.log.take(1) =~= n.log);
            }
            assert(logs_fit(sim@, none, first));
            assert(history_fit(sim@, none, first));
            lemma_no_leaders_among_followers(sim@, sim@.nodes.len() as int);
            assert forall|a: int, b: int|
                0 <= a < sim@.nodes.len() && 0 <= b < sim@.ids.len() && a != b implies (
                #[trigger] sim@.nodes[a]).peer_ids.contains(#[trigger] sim@.ids[b]) by {
                assert(sim@.nodes[a] == sim.nodes@[a]@);
                assert(sim@.ids.contains(sim@.ids[b]));
                assert(sim@.ids[a] != sim@.ids[b]) by {
                    if a < b {
                        assert(sim@.ids[a] < sim@.ids[b]);
                    } else {
                        assert(sim@.ids[b] < sim@.ids[a]);
                    }
                }
                lemma_peers_of_covers(node_ids@, sim@.ids[a], sim@.ids[b]);
            }
            assert forall|a: int, q: int|
                0 <= a < sim@.nodes.len() && 0 <= q < sim@.nodes[a].peer_ids.len() implies sim@.ids.contains(
                #[trigger] sim@.nodes[a].peer_ids[q],
            ) by {
                assert(node_inv(sim@.nodes[a], sim@.ids, 0));
            }
            assert forall|a: int, b: int| 0 <= a < sim@.nodes.len() && 0 <= b < sim@.nodes.len() implies (
            #[trigger] sim@.nodes[a]).term == (#[trigger] sim@.nodes[b]).term by {
                assert(sim@.nodes[a] == sim.nodes@[a]@);
                assert(sim@.nodes[b] == sim.nodes@[b]@);
            }
            assert forall|a: int, b: int|
                0 <= a < sim@.nodes.len() && 0 <= b < sim@.nodes.len() implies #[trigger] sim@.nodes[a].state_machine
                    == #[trigger] sim@.nodes[b].state_machine by {
                assert(sim@.nodes[a] == sim.nodes@[a]@);
                assert(sim@.nodes[b] == sim.nodes@[b]@);
            }
        }
        sim
    }
}

/// Every id listed, other than `id`, is among the peers `peers_of` gives `id`.
proof fn lemma_peers_of_covers(all: Seq<u64>, id: u64, x: u64)
    requires
        all.contains(x),
        x != id,
    ensures
        peers_of(all, id).contains(x),
    decreases all.len(),
{
    let rest = all.drop_last();
    if all.last() == x {
        assert(peers_of(all, id) == peers_of(rest, id).push(x));
        assert(peers_of(all, id)[peers_of(rest, id).len() as int] == x);
    } else {
        let i = choose|i: int| 0 <= i < all.len() && all[i] == x;
        assert(rest[i] == x);
        lemma_peers_of_covers(rest, id, x);
        let k = choose|k: int| 0 <= k < peers_of(rest, id).len() && peers_of(rest, id)[k] == x;
        if all.last() != id {
            assert(peers_of(all, id)[k] == x);
        }
    }
}

/// Where no node among the first `k` positions is a leader, none of them is listed
/// as a live leader.
proof fn lemma_no_leaders_among_followers(s: SimView, k: int)
    requires
        k <= s.nodes.len(),
        forall|j: int| 0 <= j < k ==> (#[trigger] s.nodes[j]).role != Role::Leader,
    ensures
        leaders_upto(s, k) == Seq::<u64>::empty(),
    decreases k,
{
    if k > 0 {
        lemma_no_leaders_among_followers(s, k - 1);
    }
}

/// Election safety for a simulator built by `Simulator::new` and driven only through
/// its operations (direct changes through `node_mut` aside): no two nodes, crashed
/// ones included, are leaders of the same term. Every operation but `node_mut`
/// keeps `votes_consistent`, and `new` establishes it.
pub proof fn lemma_election_safety(sim: &Simulator)
    requires
        sim.wf(),
        history_consistent(sim@),
    ensures
        one_leader_per_term(sim@),
{
    lemma_history_one_leader_per_term(sim@);
}

/// In a run without faults (no partition, crash, delay or drop) of a simulator built
/// by `Simulator::new` and driven through its operations, at most one live node
/// leads whenever the cluster is settled: nothing is in flight and every node is in
/// the same term. `new` settles the cluster, and a tick keeps it settled whenever
/// it delivers everything it sent.
pub proof fn lemma_one_live_leader(sim: &Simulator)
    requires
        sim.wf(),
        history_consistent(sim@),
        settled(sim@),
    ensures
        leaders_spec(sim@).len() <= 1,
{
    lemma_history_one_leader_per_term(sim@);
    lemma_settled_one_leader(sim@);
}

/// Log matching for a simulator built by `Simulator::new` and driven only through
/// its operations (direct changes through `node_mut` aside): wherever two nodes'
/// logs, crashed ones included, hold entries of the same term at an index, they
/// are identical up to that index.
pub proof fn lemma_logs_match(sim: &Simulator)
    requires
        history_consistent(sim@),
    ensures
        all_logs_match(sim@),
        matching_property(sim@),
{
    lemma_log_matching(sim@);
}

/// For a simulator built by `Simulator::new` and driven only through its operations
/// (direct changes through `node_mut` aside), entries of a term come only from that
/// term's leader: a leader holds, with the same log up to it, every entry of its
/// term that any node's log holds.
pub proof fn lemma_leaders_hold_entries(sim: &Simulator)
    requires
        history_consistent(sim@),
    ensures
        leaders_hold_their_entries(sim@),
{
    lemma_leaders_hold_their_entries(sim@);
}

/// A node restarted at `now`: persistent state kept, everything volatile reset.
fn reboot(node: &mut RaftNode, now: u64)
    requires
        now + old(node).election_timeout <= u64::MAX,
    ensures
        final(node)@ == rebooted(old(node)@, now),
{
    node.role = Role::Follower;
    node.commit_index = 0;
    node.last_applied = 0;
    node.state_machine = StateMachine::new();
    node.next_index.clear();
    node.match_index.clear();
    node.votes_granted.clear();
    node.election_deadline = now + node.election_timeout;
    node.heartbeat_deadline = 0;
}

impl Simulator {
    /// The current tick.
    pub fn tick_count(&self) -> (r: u64)
        ensures
            r == self@.tick,
    {
        self.tick
    }

    /// The node with the given id.
    pub fn node(&self, id: u64) -> (r: &RaftNode)
        requires
            self.wf(),
            self@.ids.contains(id),
        ensures
            r@ == self@.nodes[pos(self@.ids, id)],
    {
        let j = self.position(id);
        &self.nodes[j]
    }

    /// The node with the given id, for changing it in place.
    ///
    /// A node changed this way may break what the simulator's other operations
    /// require (`wf`) and what the cluster-wide laws rest on (`history_consistent`),
    /// so neither is promised afterwards: it is meant for setting up scenarios.
    pub fn node_mut(&mut self, id: u64) -> (r: &mut RaftNode)
        requires
            old(self).wf(),
            old(self)@.ids.contains(id),
        ensures
            r@ == old(self)@.nodes[pos(old(self)@.ids, id)],
            final(self)@ == with_node(old(self)@, pos(old(self)@.ids, id), final(r)@),
    {
        let j = self.position(id);
        let ghost v0 = self.nodes@;
        let r = &mut self.nodes[j];
        proof {
            lemma_nodes_view_update(v0, j as int, *final(r));
        }
        r
    }

    /// The node ids, in increasing order.
    pub fn node_ids(&self) -> (r: Vec<u64>)
        ensures
            r@ == self@.ids,
    {
        self.ids.clone()
    }

    /// IDs of live nodes currently in the leader role, in increasing order.
    pub fn leaders(&self) -> (r: Vec<u64>)
        requires
            self.wf(),
        ensures
            r@ == leaders_spec(self@),
    {
        let mut r: Vec<u64> = Vec::new();
        let mut j: usize = 0;
        while j < self.nodes.len()
            invariant
                self.wf(),
                j <= self@.nodes.len(),
                r@ == leaders_upto(self@, j as int),
            decreases self@.nodes.len() - j,
        {
            proof {
                assert(self.nodes@[j as int]@ == self@.nodes[j as int]);
            }
            if !self.crashed[j] && self.nodes[j].role == Role::Leader {
                r.push(self.ids[j]);
            }
            j = j + 1;
        }
        r
    }

    /// Returns true when exactly one live leader exists.
    pub fn has_stable_leader(&self) -> (r: bool)
        requires
            self.wf(),
        ensures
            r == (leaders_spec(self@).len() == 1),
    {
        self.leaders().len() == 1
    }

    /// Position of a link in the partition list, if listed.
    fn find_link(&self, l: (u64, u64)) -> (r: Option<usize>)
        ensures
            match r {
                Some(k) => k < self.partitions@.len() && self.partitions@[k as int] == l,
                None => !self.partitions@.contains(l),
            },
    {
        let mut k: usize = 0;
        while k < self.partitions.len()
            invariant
                k <= self.partitions@.len(),
                forall|m: int| 0 <= m < k ==> self.partitions@[m] != l,
            decreases self.partitions@.len() - k,
        {
            let (x, y) = self.partitions[k];
            if x == l.0 && y == l.1 {
                return Some(k);
            }
            k = k + 1;
        }
        None
    }

    /// Block all messages between two nodes (undirected).
    pub fn partition(&mut self, a: u64, b: u64)
        requires
            old(self).wf(),
        ensures
            final(self).wf(),
            final(self)@ == (SimView { partitions: old(self)@.partitions.insert(link(a, b)), ..old(self)@ }),
            history_consistent(old(self)@) ==> history_consistent(final(self)@),
    {
        let l = if a <= b {
            (a, b)
        } else {
            (b, a)
        };
        let ghost p0 = self.partitions@;
        match self.find_link(l) {
            Some(_) => {
                proof {
                    assert(p0.to_set().insert(l) =~= p0.to_set());
                }
            },
            None => {
                self.partitions.push(l);
                proof {
                    p0.lemma_push_to_set_commute(l);
                    assert(self.partitions@ == p0.push(l));
                }
            },
        }
        proof {
            assert(self@ =~= (SimView { partitions: p0.to_set().insert(l), ..old(self)@ }));
            if history_consistent(old(self)@) {
                lemma_network_change_keeps_history(old(self)@, self@);
            }
        }
    }

    /// Restore messaging between two nodes.
    pub fn heal(&mut self, a: u64, b: u64)
        requires
            old(self).wf(),
        ensures
            final(self).wf(),
            final(self)@ == (SimView { partitions: old(self)@.partitions.remove(link(a, b)), ..old(self)@ }),
            history_consistent(old(self)@) ==> history_consistent(final(self)@),
    {
        let l = if a <= b {
            (a, b)
        } else {
            (b, a)
        };
        let ghost p0 = self.partitions@;
        match self.find_link(l) {
            Some(k) => {
                self.partitions.remove(k);
                proof {
                    assert forall|x: (u64, u64)| self.partitions@.contains(x) <==> (p0.contains(x)
                        && x != l) by {
                        if self.partitions@.contains(x) {
                            let i = choose|i: int| 0 <= i < self.partitions@.len() && self.partitions@[i] == x;
                            if i < k {
                                assert(p0[i] == x);
                            } else {
                                assert(p0[i + 1] == x);
                                assert(i + 1 != k);
                            }
                        }
                        if p0.contains(x) && x != l {
                            let i = choose|i: int| 0 <= i < p0.len() && p0[i] == x;
                            if i < k {
                                assert(self.partitions@[i] == x);
                            } else {
                                assert(i != k);
                                assert(self.partitions@[i - 1] == x);
                            }
                        }
                    }
                    assert(self.partitions@.to_set() =~= p0.to_set().remove(l));
                    assert forall|a: int, b: int| 0 <= a < self.partitions@.len() && 0 <= b < self.partitions@.len() && a != b implies self.partitions@[a] != self.partitions@[b] by {
                        let a0 = if a < k { a } else { a + 1 };
                        let b0 = if b < k { b } else { b + 1 };
                        assert(self.partitions@[a] == p0[a0]);
                        assert(self.partitions@[b] == p0[b0]);
                    }
                }
            },
            None => {
                proof {
                    assert(p0.to_set().remove(l) =~= p0.to_set());
                }
            },
        }
        proof {
            assert(self@ =~= (SimView { partitions: p0.to_set().remove(l), ..old(self)@ }));
            if history_consistent(old(self)@) {
                lemma_network_change_keeps_history(old(self)@, self@);
            }
        }
    }

    /// Crash a node: it stops taking part and every message to or from it is lost
    /// until it restarts.
    pub fn crash(&mut self, id: u64)
        requires
            old(self).wf(),
            old(self)@.ids.contains(id),
        ensures
            final(self).wf(),
            final(self)@ == (SimView {
                crashed: old(self)@.crashed.update(pos(old(self)@.ids, id), true),
                ..old(self)@
            }),
            history_consistent(old(self)@) ==> history_consistent(final(self)@),
    {
        let j = self.position(id);
        let ghost s0 = self@;
        self.crashed.set(j, true);
        proof {
            if history_consistent(s0) {
                lemma_network_change_keeps_history(s0, self@);
            }
        }
    }

    /// Restart a node: its term, vote and log survive; it comes back as a follower
    /// with an empty state machine, nothing committed or applied, and a fresh
    /// election timer.
    pub fn restart(&mut self, id: u64)
        requires
            old(self).wf(),
            old(self)@.ids.contains(id),
        ensures
            final(self).wf(),
            final(self)@ == (SimView {
                crashed: old(self)@.crashed.update(pos(old(self)@.ids, id), false),
                nodes: old(self)@.nodes.update(
                    pos(old(self)@.ids, id),
                    rebooted(old(self)@.nodes[pos(old(self)@.ids, id)], old(self)@.tick),
                ),
                ..old(self)@
            }),
            history_consistent(old(self)@) ==> history_consistent(final(self)@),
    {
        let j = self.position(id);
        let now = self.tick;
        let ghost s0 = self@;
        let ghost v0 = self.nodes@;
        proof {
            assert(node_inv(s0.nodes[j as int], s0.ids, s0.tick));
            lemma_reboot(s0.nodes[j as int], s0.ids, s0.tick);
        }
        reboot(&mut self.nodes[j], now);
        self.crashed.set(j, false);
        proof {
            lemma_nodes_view_update(v0, j as int, self.nodes@[j as int]);
            assert(self@.nodes =~= s0.nodes.update(j as int, rebooted(s0.nodes[j as int], now)));
            if history_consistent(s0) {
                lemma_restart_keeps_history(s0, j as int);
            }
        }
    }

    /// Whether the node is crashed.
    pub fn is_crashed(&self, id: u64) -> (r: bool)
        requires
            self.wf(),
            self@.ids.contains(id),
        ensures
            r == !is_live(self@, id),
    {
        let j = self.position(id);
        self.crashed[j]
    }

    /// Delay every message sent from now on by `delay` ticks.
    pub fn set_message_delay(&mut self, delay: u64)
        requires
            old(self).wf(),
        ensures
            final(self).wf(),
            final(self)@ == (SimView { message_delay: delay, ..old(self)@ }),
            history_consistent(old(self)@) ==> history_consistent(final(self)@),
    {
        let ghost s0 = self@;
        self.message_delay = delay;
        proof {
            if history_consistent(s0) {
                lemma_network_change_keeps_history(s0, self@);
            }
        }
    }

    /// Drop every `n`-th message sent from now on, counting all messages sent so
    /// far; `None` or `Some(0)` drops nothing.
    pub fn set_drop_every_nth(&mut self, n: Option<u64>)
        requires
            old(self).wf(),
        ensures
            final(self).wf(),
            final(self)@ == (SimView { drop_every_nth: n, ..old(self)@ }),
            history_consistent(old(self)@) ==> history_consistent(final(self)@),
    {
        let ghost s0 = self@;
        self.drop_every_nth = n;
        proof {
            if history_consistent(s0) {
                lemma_network_change_keeps_history(s0, self@);
            }
        }
    }
}

impl Simulator {
    /// Propose raw log bytes to the cluster through the given node and deliver what
    /// is due.
    pub fn propose(&mut self, leader_id: u64, data: Vec<u8>) -> (r: Result<(), ProposeError>)
        requires
            old(self).wf(),
            old(self)@.ids.contains(leader_id),
            old(self)@.nodes[pos(old(self)@.ids, leader_id)].role == Role::Leader ==> decodes(data@),
        ensures
            final(self).wf(),
            (final(self)@, r) == propose_spec(old(self)@, leader_id, data@),
            same_timers(final(self)@, old(self)@),
            same_frame(final(self)@, old(self)@),
            final(self)@.tick == old(self)@.tick,
            history_consistent(old(self)@) ==> history_consistent(final(self)@),
            settled(old(self)@) && final(self)@.inbox.len() == 0 ==> settled(final(self)@),
            history_consistent(old(self)@) && replication_traffic(old(self)@, leader_id) && r is Ok
                ==> final(self)@.nodes[pos(old(self)@.ids, leader_id)].log == old(self)@.nodes[pos(
                old(self)@.ids,
                leader_id,
            )].log.push(
                LogEntryView { term: old(self)@.nodes[pos(old(self)@.ids, leader_id)].term, data: data@ },
            ),
    {
        proof {
            if settled(self@) {
                lemma_settled_propose(self@, leader_id, data@);
            }
        }
        let j = self.position(leader_id);
        let ghost s0 = self@;
        let ghost n0 = s0.nodes[j as int];
        let ghost d = data@;
        let ghost v0 = self.nodes@;
        proof {
            assert(node_inv(n0, s0.ids, s0.tick));
        }
        match self.nodes[j].propose(data) {
            Err(e) => {
                proof {
                    if history_consistent(s0) {
                        lemma_propose_keeps_history(s0, leader_id, d);
                    }
                    lemma_nodes_view_update(v0, j as int, self.nodes@[j as int]);
                    assert(s0.nodes.update(j as int, n0) =~= s0.nodes);
                    assert(self@ =~= s0);
                }
                Err(e)
            },
            Ok(actions) => {
                let _ = self.nodes[j].log.len();
                proof {
                    if history_consistent(s0) {
                        lemma_propose_keeps_history(s0, leader_id, d);
                    }
                    lemma_propose(n0, s0.ids, s0.tick, d);
                    lemma_nodes_view_update(v0, j as int, self.nodes@[j as int]);
                    lemma_with_node(s0, j as int, self.nodes@[j as int]@);
                    assert(self@ =~= with_node(s0, j as int, self.nodes@[j as int]@));
                }
                self.enqueue_actions(leader_id, actions);
                self.drain_inbox();
                proof {
                    if history_consistent(s0) && replication_traffic(s0, leader_id) {
                        lemma_propose_appends_one(s0, leader_id, d);
                    }
                }
                Ok(())
            },
        }
    }

    /// Propose a command to the cluster through the given node and deliver what is due.
    pub fn propose_command(&mut self, leader_id: u64, command: Command) -> (r: Result<(), ProposeError>)
        requires
            old(self).wf(),
            old(self)@.ids.contains(leader_id),
            encodable(command@),
        ensures
            final(self).wf(),
            (final(self)@, r) == propose_spec(old(self)@, leader_id, encode_spec(command@)),
            same_timers(final(self)@, old(self)@),
            same_frame(final(self)@, old(self)@),
            final(self)@.tick == old(self)@.tick,
            history_consistent(old(self)@) ==> history_consistent(final(self)@),
            settled(old(self)@) && final(self)@.inbox.len() == 0 ==> settled(final(self)@),
            history_consistent(old(self)@) && replication_traffic(old(self)@, leader_id) && r is Ok
                ==> final(self)@.nodes[pos(old(self)@.ids, leader_id)].log == old(self)@.nodes[pos(
                old(self)@.ids,
                leader_id,
            )].log.push(
                LogEntryView {
                    term: old(self)@.nodes[pos(old(self)@.ids, leader_id)].term,
                    data: encode_spec(command@),
                },
            ),
    {
        proof {
            crate::state_machine::lemma_decode_encode(command@);
        }
        self.propose(leader_id, command.encode())
    }

    /// Every live node has applied the log up to `index`.
    fn all_applied(&self, index: u64) -> (r: bool)
        requires
            self.wf(),
        ensures
            r == all_applied(self@, index),
    {
        let mut j: usize = 0;
        while j < self.nodes.len()
            invariant
                self.wf(),
                j <= self@.nodes.len(),
                forall|k: int| 0 <= k < j && !self@.crashed[k] ==> self@.nodes[k].last_applied >= index,
            decreases self@.nodes.len() - j,
        {
            proof {
                assert(self.nodes@[j as int]@ == self@.nodes[j as int]);
            }
            if !self.crashed[j] && self.nodes[j].last_applied < index {
                return false;
            }
            j = j + 1;
        }
        true
    }

    /// Advance multiple ticks.
    pub fn run_ticks(&mut self, count: u64)
        requires
            old(self).wf(),
            old(self)@.tick + count <= u64::MAX,
            timers_fit(old(self)@, old(self)@.tick + count),
        ensures
            final(self).wf(),
            final(self)@ == ticks_spec(old(self)@, count as nat),
            same_timers(final(self)@, old(self)@),
            history_consistent(old(self)@) ==> history_consistent(final(self)@),
    {
        let mut left: u64 = count;
        while left > 0
            invariant
                self.wf(),
                self@.tick + left == old(self)@.tick + count,
                old(self)@.tick + count <= u64::MAX,
                same_timers(self@, old(self)@),
                timers_fit(old(self)@, old(self)@.tick + count),
                ticks_spec(self@, left as nat) == ticks_spec(old(self)@, count as nat),
                history_consistent(old(self)@) ==> history_consistent(self@),
            decreases left,
        {
            proof {
                assert forall|j: int| 0 <= j < self@.nodes.len() implies self@.tick + 1 + (
                #[trigger] self@.nodes[j]).election_timeout <= u64::MAX && self@.tick + 1
                    + self@.nodes[j].heartbeat_interval <= u64::MAX by {
                    assert(old(self)@.tick + count + old(self)@.nodes[j].election_timeout <= u64::MAX);
                }
            }
            self.tick();
            left = left - 1;
        }
    }

    /// Run until exactly one live leader exists or `max_ticks` is reached. Returns the
    /// leader ID if found.
    pub fn run_until_leader(&mut self, max_ticks: u64) -> (r: Option<u64>)
        requires
            old(self).wf(),
            old(self)@.tick + max_ticks <= u64::MAX,
            timers_fit(old(self)@, old(self)@.tick + max_ticks),
        ensures
            final(self).wf(),
            (final(self)@, r) == until_leader_spec(old(self)@, max_ticks as nat),
            history_consistent(old(self)@) ==> history_consistent(final(self)@),
            match r {
                Some(l) => leaders_spec(final(self)@) == seq![l] && old(self)@.tick < final(self)@.tick
                    <= old(self)@.tick + max_ticks,
                None => final(self)@.tick == old(self)@.tick + max_ticks,
            },
    {
        let mut left: u64 = max_ticks;
        while left > 0
            invariant
                self.wf(),
                self@.tick + left == old(self)@.tick + max_ticks,
                old(self)@.tick + max_ticks <= u64::MAX,
                same_timers(self@, old(self)@),
                timers_fit(old(self)@, old(self)@.tick + max_ticks),
                until_leader_spec(self@, left as nat) == until_leader_spec(old(self)@, max_ticks as nat),
                history_consistent(old(self)@) ==> history_consistent(self@),
                left <= max_ticks,
            decreases left,
        {
            proof {
                assert forall|j: int| 0 <= j < self@.nodes.len() implies self@.tick + 1 + (
                #[trigger] self@.nodes[j]).election_timeout <= u64::MAX && self@.tick + 1
                    + self@.nodes[j].heartbeat_interval <= u64::MAX by {
                    assert(old(self)@.tick + max_ticks + old(self)@.nodes[j].election_timeout <= u64::MAX);
                }
            }
            self.tick();
            left = left - 1;
            let leaders = self.leaders();
            if leaders.len() == 1 {
                proof {
                    assert(leaders@ =~= seq![leaders@[0]]);
                }
                return Some(leaders[0]);
            }
        }
        None
    }

    /// Propose a command through the given node, then tick until every live node has
    /// applied the entry, for at most the node's election timeout in ticks.
    pub fn propose_and_settle(&mut self, leader_id: u64, command: Command) -> (r: Result<(), ProposeError>)
        requires
            old(self).wf(),
            old(self)@.ids.contains(leader_id),
            encodable(command@),
            old(self)@.tick + old(self)@.nodes[pos(old(self)@.ids, leader_id)].election_timeout <= u64::MAX,
            timers_fit(
                old(self)@,
                old(self)@.tick + old(self)@.nodes[pos(old(self)@.ids, leader_id)].election_timeout,
            ),
        ensures
            final(self).wf(),
            ({
                let (s1, r1) = propose_spec(old(self)@, leader_id, encode_spec(command@));
                let n = s1.nodes[pos(s1.ids, leader_id)];
                match r1 {
                    Err(e) => r == Err::<(), ProposeError>(e) && final(self)@ == s1,
                    Ok(_) => r is Ok && final(self)@ == settle_spec(
                        s1,
                        last_index(n.log),
                        n.election_timeout as nat,
                    ),
                }
            }),
            history_consistent(old(self)@) ==> history_consistent(final(self)@),
    {
        let ghost s0 = self@;
        let j0 = self.position(leader_id);
        let budget0 = self.nodes[j0].election_timeout;
        match self.propose_command(leader_id, command) {
            Err(e) => Err(e),
            Ok(()) => {
                let j = self.position(leader_id);
                let target = self.nodes[j].last_log_index();
                let mut budget = self.nodes[j].election_timeout;
                proof {
                    assert(budget == budget0);
                }
                let ghost s1 = self@;
                while budget > 0 && !self.all_applied(target)
                    invariant
                        self.wf(),
                        self@.tick + budget == s0.tick + budget0,
                        same_timers(self@, s0),
                        timers_fit(s0, s0.tick + budget0),
                        settle_spec(self@, target, budget as nat) == settle_spec(s1, target, budget0 as nat),
                        history_consistent(s0) ==> history_consistent(self@),
                    decreases budget,
                {
                    proof {
                        assert forall|k: int| 0 <= k < self@.nodes.len() implies self@.tick + 1 + (
                        #[trigger] self@.nodes[k]).election_timeout <= u64::MAX && self@.tick + 1
                            + self@.nodes[k].heartbeat_interval <= u64::MAX by {
                            assert(s0.tick + budget0 + s0.nodes[k].election_timeout <= u64::MAX);
                        }
                    }
                    self.tick();
                    budget = budget - 1;
                }
                Ok(())
            },
        }
    }
}

/// Whether two log entries are equal: same term and same bytes.
fn same_entry(a: &LogEntry, b: &LogEntry) -> (r: bool)
    ensures
        r == (a@ == b@),
{
    if a.term != b.term || a.data.len() != b.data.len() {
        proof {
            assert(a@.data.len() != b@.data.len() ==> a@.data != b@.data);
        }
        return false;
    }
    let mut i: usize = 0;
    while i < a.data.len()
        invariant
            i <= a.data@.len(),
            a.data@.len() == b.data@.len(),
            forall|k: int| 0 <= k < i ==> a.data@[k] == b.data@[k],
        decreases a.data@.len() - i,
    {
        if a.data[i] != b.data[i] {
            proof {
                assert(a@.data[i as int] != b@.data[i as int]);
            }
            return false;
        }
        i = i + 1;
    }
    proof {
        assert(a@.data =~= b@.data);
    }
    true
}

/// Whether two logs satisfy log matching.
fn logs_match_exec(x: &Vec<LogEntry>, y: &Vec<LogEntry>) -> (r: bool)
    ensures
        r == logs_match(entries_view(x@), entries_view(y@)),
{
    let ghost xv = entries_view(x@);
    let ghost yv = entries_view(y@);
    proof {
        lemma_entries_view_index(x@, 0);
        lemma_entries_view_index(y@, 0);
    }
    let m = if x.len() <= y.len() {
        x.len()
    } else {
        y.len()
    };
    let mut last: Option<usize> = None;
    let mut i: usize = 0;
    while i < m
        invariant
            i <= m,
            m <= x@.len(),
            m <= y@.len(),
            xv == entries_view(x@),
            yv == entries_view(y@),
            m == x@.len() || m == y@.len(),
            match last {
                Some(l) => l < i && xv[l as int].term == yv[l as int].term && forall|k: int|
                    l < k < i ==> xv[k].term != yv[k].term,
                None => forall|k: int| 0 <= k < i ==> xv[k].term != yv[k].term,
            },
        decreases m - i,
    {
        proof {
            lemma_entries_view_index(x@, i as int);
            lemma_entries_view_index(y@, i as int);
        }
        if x[i].term == y[i].term {
            last = Some(i);
        }
        i = i + 1;
    }
    match last {
        None => {
            proof {
                assert forall|k: int|
                    0 <= k < xv.len() && k < yv.len() && #[trigger] xv[k].term == #[trigger] yv[k].term
                    implies xv.take(k + 1) == yv.take(k + 1) by {
                    lemma_entries_view_index(x@, k);
                }
            }
            true
        },
        Some(l) => {
            let mut j: usize = 0;
            while j <= l
                invariant
                    j <= l + 1,
                    l < m,
                    xv[l as int].term == yv[l as int].term,
                    xv.len() == x@.len(),
                    yv.len() == y@.len(),
                    m <= x@.len(),
                    m <= y@.len(),
                    xv == entries_view(x@),
                    yv == entries_view(y@),
                    forall|k: int| 0 <= k < j ==> xv[k] == yv[k],
                decreases l + 1 - j,
            {
                proof {
                    lemma_entries_view_index(x@, j as int);
                    lemma_entries_view_index(y@, j as int);
                }
                if !same_entry(&x[j], &y[j]) {
                    proof {
                        assert(xv.take(l + 1)[j as int] != yv.take(l + 1)[j as int]);
                        assert(xv.take(l + 1) != yv.take(l + 1));
                        assert(xv[l as int].term == yv[l as int].term);
                        assert(!logs_match(xv, yv));
                    }
                    return false;
                }
                j = j + 1;
            }
            proof {
                assert forall|k: int|
                    0 <= k < xv.len() && k < yv.len() && #[trigger] xv[k].term == #[trigger] yv[k].term
                    implies xv.take(k + 1) == yv.take(k + 1) by {
                    lemma_entries_view_index(x@, k);
                    assert(k <= l);
                    assert(xv.take(k + 1) =~= yv.take(k + 1));
                }
            }
            true
        },
    }
}

/// Whether both logs reach index `c` and hold the same entries up to it.
fn prefix_agrees_exec(x: &Vec<LogEntry>, y: &Vec<LogEntry>, c: u64) -> (r: bool)
    requires
        c < u64::MAX,
    ensures
        r == prefix_agrees(entries_view(x@), entries_view(y@), c),
{
    let ghost xv = entries_view(x@);
    let ghost yv = entries_view(y@);
    proof {
        lemma_entries_view_index(x@, 0);
        lemma_entries_view_index(y@, 0);
    }
    if x.len() as u64 <= c || y.len() as u64 <= c {
        return false;
    }
    let mut i: u64 = 0;
    while i <= c
        invariant
            i <= c + 1,
            c < u64::MAX,
            c < x.len(),
            c < y.len(),
            xv == entries_view(x@),
            yv == entries_view(y@),
            xv.len() == x@.len(),
            yv.len() == y@.len(),
            xv.take(i as int) == yv.take(i as int),
        decreases c + 1 - i,
    {
        let k = i as usize;
        proof {
            lemma_entries_view_index(x@, k as int);
            lemma_entries_view_index(y@, k as int);
        }
        if !same_entry(&x[k], &y[k]) {
            proof {
                assert(xv.take(c + 1)[k as int] != yv.take(c + 1)[k as int]);
            }
            return false;
        }
        proof {
            assert forall|j: int| 0 <= j < i + 1 implies #[trigger] xv.take(i + 1)[j] == yv.take(i + 1)[j] by {
                assert(xv.take(i + 1)[j] == xv[j]);
                assert(yv.take(i + 1)[j] == yv[j]);
                if j < i {
                    assert(xv.take(i as int)[j] == yv.take(i as int)[j]);
                } else {
                    assert(xv[j] == x@[j]@);
                    assert(yv[j] == y@[j]@);
                }
            }
            assert(xv.take(i + 1) =~= yv.take(i + 1));
        }
        i = i + 1;
    }
    true
}

impl Simulator {
    /// Returns true if every live node has the same state machine contents.
    pub fn cluster_state_matches(&self) -> (r: bool)
        requires
            self.wf(),
        ensures
            r == states_match(self@),
    {
        let n = self.nodes.len();
        let mut f: usize = 0;
        while f < n && self.crashed[f]
            invariant
                self.wf(),
                n == self@.nodes.len(),
                f <= n,
                forall|k: int| 0 <= k < f ==> self@.crashed[k],
            decreases n - f,
        {
            f = f + 1;
        }
        if f == n {
            return true;
        }
        let mut k: usize = f + 1;
        while k < n
            invariant
                self.wf(),
                n == self@.nodes.len(),
                f < k <= n,
                !self@.crashed[f as int],
                forall|m: int| 0 <= m < f ==> self@.crashed[m],
                forall|m: int|
                    0 <= m < k && !self@.crashed[m] ==> self@.nodes[m].state_machine
                        == self@.nodes[f as int].state_machine,
            decreases n - k,
        {
            proof {
                assert(self.nodes@[k as int]@ == self@.nodes[k as int]);
                assert(self.nodes@[f as int]@ == self@.nodes[f as int]);
            }
            if !self.crashed[k] && !self.nodes[k].state_machine.same_state(&self.nodes[f].state_machine) {
                return false;
            }
            k = k + 1;
        }
        true
    }

    /// Returns true if every two live nodes' logs satisfy the log-matching property.
    pub fn logs_satisfy_matching_property(&self) -> (r: bool)
        requires
            self.wf(),
        ensures
            r == matching_property(self@),
            history_consistent(self@) ==> r,
    {
        proof {
            if history_consistent(self@) {
                lemma_log_matching(self@);
            }
        }
        let n = self.nodes.len();
        let mut a: usize = 0;
        while a < n
            invariant
                self.wf(),
                n == self@.nodes.len(),
                a <= n,
                forall|p: int, q: int|
                    0 <= p < a && 0 <= q < n && !self@.crashed[p] && !self@.crashed[q] ==> logs_match(
                        self@.nodes[p].log,
                        self@.nodes[q].log,
                    ),
            decreases n - a,
        {
            let mut b: usize = 0;
            while b < n
                invariant
                    self.wf(),
                    n == self@.nodes.len(),
                    a < n,
                    b <= n,
                    forall|p: int, q: int|
                        0 <= p < a && 0 <= q < n && !self@.crashed[p] && !self@.crashed[q]
                            ==> logs_match(self@.nodes[p].log, self@.nodes[q].log),
                    forall|q: int|
                        0 <= q < b && !self@.crashed[a as int] && !self@.crashed[q] ==> logs_match(
                            self@.nodes[a as int].log,
                            self@.nodes[q].log,
                        ),
                decreases n - b,
            {
                proof {
                    assert(self.nodes@[a as int]@ == self@.nodes[a as int]);
                    assert(self.nodes@[b as int]@ == self@.nodes[b as int]);
                }
                if !self.crashed[a] && !self.crashed[b] && !logs_match_exec(&self.nodes[a].log, &self.nodes[b].log) {
                    return false;
                }
                b = b + 1;
            }
            a = a + 1;
        }
        true
    }

    /// Returns true if every two live nodes hold the same entries up to the lower of
    /// their commit indices.
    pub fn committed_prefix_matches(&self) -> (r: bool)
        requires
            self.wf(),
        ensures
            r == committed_prefixes_agree(self@),
    {
        let n = self.nodes.len();
        let mut a: usize = 0;
        while a < n
            invariant
                self.wf(),
                n == self@.nodes.len(),
                a <= n,
                forall|p: int, q: int|
                    0 <= p < a && 0 <= q < n && !self@.crashed[p] && !self@.crashed[q] ==> prefix_agrees(
                        self@.nodes[p].log,
                        self@.nodes[q].log,
                        lower(self@.nodes[p].commit_index, self@.nodes[q].commit_index),
                    ),
            decreases n - a,
        {
            let mut b: usize = 0;
            while b < n
                invariant
                    self.wf(),
                    n == self@.nodes.len(),
                    a < n,
                    b <= n,
                    forall|p: int, q: int|
                        0 <= p < a && 0 <= q < n && !self@.crashed[p] && !self@.crashed[q]
                            ==> prefix_agrees(
                            self@.nodes[p].log,
                            self@.nodes[q].log,
                            lower(self@.nodes[p].commit_index, self@.nodes[q].commit_index),
                        ),
                    forall|q: int|
                        0 <= q < b && !self@.crashed[a as int] && !self@.crashed[q] ==> prefix_agrees(
                            self@.nodes[a as int].log,
                            self@.nodes[q].log,
                            lower(self@.nodes[a as int].commit_index, self@.nodes[q].commit_index),
                        ),
                decreases n - b,
            {
                proof {
                    assert(self.nodes@[a as int]@ == self@.nodes[a as int]);
                    assert(self.nodes@[b as int]@ == self@.nodes[b as int]);
                    assert(node_inv(self@.nodes[a as int], self@.ids, self@.tick));
                }
                if !self.crashed[a] && !self.crashed[b] {
                    let ca = self.nodes[a].commit_index;
                    let cb = self.nodes[b].commit_index;
                    let c = if ca <= cb {
                        ca
                    } else {
                        cb
                    };
                    if !prefix_agrees_exec(&self.nodes[a].log, &self.nodes[b].log, c) {
                        proof {
                            let ga = a as int;
                            let gb = b as int;
                            assert(!prefix_agrees(
                                self@.nodes[ga].log,
                                self@.nodes[gb].log,
                                lower(self@.nodes[ga].commit_index, self@.nodes[gb].commit_index),
                            ));
                            assert(!committed_prefixes_agree(self@));
                        }
                        return false;
                    }
                }
                b = b + 1;
            }
            a = a + 1;
        }
        true
    }
}

} // verus!
