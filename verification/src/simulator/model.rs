//! What each simulator operation does, stated as functions on `SimView`.

use crate::raft::model::{
    append_entries_step, append_response_step, election_timeout_step, heartbeat_step,
    propose_step, request_vote_step, vote_response_step,
};
use crate::raft::{ActionView, LogEntryView, MessageView, ProposeError, RaftNodeView, Role};
use vstd::prelude::*;

verus! {

/// Most messages one drain of the network delivers or sets aside; the rest stay
/// queued for the next drain.
pub const DELIVERY_BUDGET: u64 = 0xffff_ffff_ffff_ffff;

/// The value of a message waiting in the simulated network.
pub struct PendingView {
    pub from: u64,
    pub to: u64,
    pub msg: MessageView,
    /// Tick from which the message may be delivered.
    pub deliver_at: u64,
}

/// The value of a simulator: the cluster's nodes in increasing id order and the
/// state of the simulated network.
pub struct SimView {
    pub tick: u64,
    /// Node ids, strictly increasing.
    pub ids: Seq<u64>,
    /// The node with id `ids[j]` is `nodes[j]`.
    pub nodes: Seq<RaftNodeView>,
    /// Whether the node with id `ids[j]` is crashed.
    pub crashed: Seq<bool>,
    pub inbox: Seq<PendingView>,
    /// Blocked links, each as `(lower id, higher id)`.
    pub partitions: Set<(u64, u64)>,
    pub message_delay: u64,
    pub drop_every_nth: Option<u64>,
    /// Messages sent so far (wrapping at 2^64), dropped ones included.
    pub sent: u64,
}

/// Position of `id` among the node ids.
pub open spec fn pos(ids: Seq<u64>, id: u64) -> int {
    ids.index_of(id)
}

/// The ids increase strictly from position to position.
pub open spec fn strictly_increasing(ids: Seq<u64>) -> bool {
    forall|a: int, b: int| 0 <= a < b < ids.len() ==> ids[a] < ids[b]
}

/// A link written as `(lower id, higher id)`.
pub open spec fn link(a: u64, b: u64) -> (u64, u64) {
    if a <= b {
        (a, b)
    } else {
        (b, a)
    }
}

/// The node with this id is up.
pub open spec fn is_live(s: SimView, id: u64) -> bool {
    !s.crashed[pos(s.ids, id)]
}

/// Messages between `a` and `b` are lost: their link is partitioned or one of them
/// is crashed.
pub open spec fn blocked(s: SimView, a: u64, b: u64) -> bool {
    s.partitions.contains(link(a, b)) || !is_live(s, a) || !is_live(s, b)
}

/// The message counter after one more message.
pub open spec fn next_count(n: u64) -> u64 {
    if n == u64::MAX {
        0
    } else {
        (n + 1) as u64
    }
}

/// Whether the message numbered `count` is dropped.
pub open spec fn dropped(s: SimView, count: u64) -> bool {
    match s.drop_every_nth {
        Some(k) => k > 0 && count % k == 0,
        None => false,
    }
}

/// The tick at which a message sent now may be delivered (saturating).
pub open spec fn delivery_tick(s: SimView) -> u64 {
    if s.tick + s.message_delay > u64::MAX {
        u64::MAX
    } else {
        (s.tick + s.message_delay) as u64
    }
}

/// Send one message: count it, then queue it unless it is one to drop.
pub open spec fn send_spec(s: SimView, from: u64, to: u64, msg: MessageView) -> SimView {
    let count = next_count(s.sent);
    if dropped(s, count) {
        SimView { sent: count, ..s }
    } else {
        SimView {
            sent: count,
            inbox: s.inbox.push(PendingView { from, to, msg, deliver_at: delivery_tick(s) }),
            ..s
        }
    }
}

/// Send the messages among a node's actions, in order; `Apply` actions were already
/// carried out by the node.
pub open spec fn enqueue_spec(s: SimView, from: u64, actions: Seq<ActionView>) -> SimView
    decreases actions.len(),
{
    if actions.len() == 0 {
        s
    } else {
        let s1 = match actions[0] {
            ActionView::Send { to, msg } => send_spec(s, from, to, msg),
            ActionView::Apply { .. } => s,
        };
        enqueue_spec(s1, from, actions.drop_first())
    }
}

/// The simulator with node position `j` replaced.
pub open spec fn with_node(s: SimView, j: int, n: RaftNodeView) -> SimView {
    SimView { nodes: s.nodes.update(j, n), ..s }
}

/// Deliver one message to its receiver, which answers requests and sends what
/// responses make it send.
pub open spec fn deliver_spec(s: SimView, p: PendingView) -> SimView {
    let j = pos(s.ids, p.to);
    let n = s.nodes[j];
    match p.msg {
        MessageView::RequestVote(req) => {
            let (n2, resp) = request_vote_step(n, s.tick, req);
            send_spec(with_node(s, j, n2), p.to, p.from, MessageView::RequestVoteResponse(resp))
        },
        MessageView::AppendEntries(req) => {
            let (n2, resp) = append_entries_step(n, s.tick, req);
            send_spec(with_node(s, j, n2), p.to, p.from, MessageView::AppendEntriesResponse(resp))
        },
        MessageView::RequestVoteResponse(resp) => {
            let (n2, acts) = vote_response_step(n, s.tick, p.from, resp);
            enqueue_spec(with_node(s, j, n2), p.to, acts)
        },
        MessageView::AppendEntriesResponse(resp) => {
            let (n2, acts) = append_response_step(n, s.tick, p.from, resp);
            enqueue_spec(with_node(s, j, n2), p.to, acts)
        },
    }
}

/// Take messages from the front of the network queue, at most `budget` of them:
/// one not due yet is set aside in `waiting`, one on a blocked link is lost, any
/// other is delivered (its replies join the back of the queue). At the end the set
/// aside messages, in order, come before what is left.
pub open spec fn drain_spec(s: SimView, waiting: Seq<PendingView>, budget: nat) -> SimView
    decreases budget,
{
    if budget == 0 || s.inbox.len() == 0 {
        SimView { inbox: waiting + s.inbox, ..s }
    } else {
        let p = s.inbox[0];
        let s1 = SimView { inbox: s.inbox.drop_first(), ..s };
        if p.deliver_at > s.tick {
            drain_spec(s1, waiting.push(p), (budget - 1) as nat)
        } else if blocked(s1, p.from, p.to) {
            drain_spec(s1, waiting, (budget - 1) as nat)
        } else {
            drain_spec(deliver_spec(s1, p), waiting, (budget - 1) as nat)
        }
    }
}

/// Deliver what is due in the network.
pub open spec fn drained(s: SimView) -> SimView {
    drain_spec(s, Seq::empty(), DELIVERY_BUDGET as nat)
}

/// Heartbeat timers of the live nodes at positions `j` up to `end`, in id order.
pub open spec fn heartbeats_spec(s: SimView, j: int, end: int) -> SimView
    decreases end - j,
{
    if j < 0 || j >= end || j >= s.nodes.len() {
        s
    } else if s.crashed[j] {
        heartbeats_spec(s, j + 1, end)
    } else {
        let (n2, acts) = heartbeat_step(s.nodes[j], s.tick);
        heartbeats_spec(enqueue_spec(with_node(s, j, n2), s.ids[j], acts), j + 1, end)
    }
}

/// Election timers of the live nodes at positions `j` up to `end`, in id order.
pub open spec fn timeouts_spec(s: SimView, j: int, end: int) -> SimView
    decreases end - j,
{
    if j < 0 || j >= end || j >= s.nodes.len() {
        s
    } else if s.crashed[j] {
        timeouts_spec(s, j + 1, end)
    } else {
        let (n2, acts) = election_timeout_step(s.nodes[j], s.tick);
        timeouts_spec(enqueue_spec(with_node(s, j, n2), s.ids[j], acts), j + 1, end)
    }
}

/// One tick: advance the clock, run heartbeat timers, then election timers, then
/// deliver what is due.
pub open spec fn tick_spec(s: SimView) -> SimView {
    let s1 = SimView { tick: (s.tick + 1) as u64, ..s };
    let s2 = heartbeats_spec(s1, 0, s1.nodes.len() as int);
    drained(timeouts_spec(s2, 0, s2.nodes.len() as int))
}

/// `count` ticks.
pub open spec fn ticks_spec(s: SimView, count: nat) -> SimView
    decreases count,
{
    if count == 0 {
        s
    } else {
        ticks_spec(tick_spec(s), (count - 1) as nat)
    }
}

/// Ids of the live leaders among the first `k` positions, in id order.
pub open spec fn leaders_upto(s: SimView, k: int) -> Seq<u64>
    decreases k,
{
    if k <= 0 {
        Seq::empty()
    } else {
        let r = leaders_upto(s, k - 1);
        if !s.crashed[k - 1] && s.nodes[k - 1].role == Role::Leader {
            r.push(s.ids[k - 1])
        } else {
            r
        }
    }
}

/// Ids of the live leaders, in id order.
pub open spec fn leaders_spec(s: SimView) -> Seq<u64> {
    leaders_upto(s, s.nodes.len() as int)
}

/// Tick until exactly one live leader exists, at most `remaining` times; the
/// leader's id once found.
pub open spec fn until_leader_spec(s: SimView, remaining: nat) -> (SimView, Option<u64>)
    decreases remaining,
{
    if remaining == 0 {
        (s, None)
    } else {
        let s1 = tick_spec(s);
        if leaders_spec(s1).len() == 1 {
            (s1, Some(leaders_spec(s1)[0]))
        } else {
            until_leader_spec(s1, (remaining - 1) as nat)
        }
    }
}

/// Propose raw bytes through a node; on success deliver what is due.
pub open spec fn propose_spec(s: SimView, leader: u64, data: Seq<u8>) -> (
    SimView,
    Result<(), ProposeError>,
) {
    let j = pos(s.ids, leader);
    let (n2, r) = propose_step(s.nodes[j], data);
    match r {
        Err(e) => (s, Err(e)),
        Ok(acts) => (drained(enqueue_spec(with_node(s, j, n2), leader, acts)), Ok(())),
    }
}

/// Every live node has applied the log up to `index`.
pub open spec fn all_applied(s: SimView, index: u64) -> bool {
    forall|j: int| 0 <= j < s.nodes.len() && !s.crashed[j] ==> s.nodes[j].last_applied >= index
}

/// Tick until every live node has applied up to `index`, at most `budget` times.
pub open spec fn settle_spec(s: SimView, index: u64, budget: nat) -> SimView
    decreases budget,
{
    if budget == 0 || all_applied(s, index) {
        s
    } else {
        settle_spec(tick_spec(s), index, (budget - 1) as nat)
    }
}

/// A node restarted at `now` after a crash: its persistent state (term, vote, log)
/// survives; it is a follower with nothing committed or applied, no leader
/// progress, and a fresh election timer.
pub open spec fn rebooted(n: RaftNodeView, now: u64) -> RaftNodeView {
    RaftNodeView {
        role: Role::Follower,
        commit_index: 0,
        last_applied: 0,
        state_machine: Seq::empty(),
        next_index: Map::empty(),
        match_index: Map::empty(),
        votes_granted: Set::empty(),
        election_deadline: (now + n.election_timeout) as u64,
        heartbeat_deadline: 0,
        ..n
    }
}

/// Every two live nodes have applied the same commands.
pub open spec fn states_match(s: SimView) -> bool {
    forall|a: int, b: int|
        0 <= a < s.nodes.len() && 0 <= b < s.nodes.len() && !s.crashed[a] && !s.crashed[b]
            ==> s.nodes[a].state_machine == s.nodes[b].state_machine
}

/// Two logs satisfy log matching: wherever both hold an entry of the same term at
/// an index, they are identical up to that index.
pub open spec fn logs_match(x: Seq<LogEntryView>, y: Seq<LogEntryView>) -> bool {
    forall|i: int|
        0 <= i < x.len() && i < y.len() && #[trigger] x[i].term == #[trigger] y[i].term ==> x.take(
            i + 1,
        ) == y.take(i + 1)
}

/// Every two live nodes' logs satisfy log matching.
pub open spec fn matching_property(s: SimView) -> bool {
    forall|a: int, b: int|
        0 <= a < s.nodes.len() && 0 <= b < s.nodes.len() && !s.crashed[a] && !s.crashed[b]
            ==> logs_match(s.nodes[a].log, s.nodes[b].log)
}

/// Both logs reach index `c` and hold the same entries at every index up to it.
pub open spec fn prefix_agrees(x: Seq<LogEntryView>, y: Seq<LogEntryView>, c: u64) -> bool {
    c < x.len() && c < y.len() && x.take(c + 1) == y.take(c + 1)
}

/// The lower of two indices.
pub open spec fn lower(a: u64, b: u64) -> u64 {
    if a <= b {
        a
    } else {
        b
    }
}

/// Every two live nodes hold the same entries up to the lower of their commit indices.
pub open spec fn committed_prefixes_agree(s: SimView) -> bool {
    forall|a: int, b: int|
        0 <= a < s.nodes.len() && 0 <= b < s.nodes.len() && !s.crashed[a] && !s.crashed[b]
            ==> prefix_agrees(
            s.nodes[a].log,
            s.nodes[b].log,
            lower(s.nodes[a].commit_index, s.nodes[b].commit_index),
        )
}

} // verus!
