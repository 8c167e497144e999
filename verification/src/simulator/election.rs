//! Election safety: in a simulator driven through its operations, no two nodes
//! lead in the same term.
//!
//! The argument follows the votes. A record of every vote cast, from
//! `(voter, term)` to the candidate, is kept in mind, though nowhere in memory:
//! `votes_consistent` says that some record fits the simulator. This module shows
//! what each node operation does to a fitting record (the simulator operations are
//! in `history`). A leader of a term holds recorded votes of that term from a
//! majority, two majorities share a voter, and a voter votes once per term.

use super::model::{
    pos, rebooted, send_spec, strictly_increasing, with_node, PendingView, SimView,
};
use super::safety::{lemma_ids_distinct, sim_inv};
use crate::raft::{ActionView, MessageView, RaftNodeView, Role};
use vstd::prelude::*;

verus! {

/// The record says that `voter` voted for `candidate` in `term`.
pub open spec fn voted(h: Map<(u64, u64), u64>, voter: u64, term: u64, candidate: u64) -> bool {
    h.contains_key((voter, term)) && h[(voter, term)] == candidate
}

/// The record with the vote a node now holds written in.
pub open spec fn record_vote(h: Map<(u64, u64), u64>, id: u64, n: RaftNodeView) -> Map<(u64, u64), u64> {
    match n.voted_for {
        Some(c) => h.insert((id, n.term), c),
        None => h,
    }
}

/// The record agrees with the node with id `id`: it holds nothing of the node for a
/// later term, and for the node's current term it holds exactly the node's vote.
pub open spec fn vote_recorded(h: Map<(u64, u64), u64>, id: u64, n: RaftNodeView) -> bool {
    &&& forall|t: u64| #[trigger] h.contains_key((id, t)) ==> t <= n.term
    &&& h.contains_key((id, n.term)) == (n.voted_for is Some)
    &&& (n.voted_for matches Some(c) ==> h[(id, n.term)] == c)
}

/// `q` is a majority of the cluster `ids` whose members all voted for `c` in term `t`.
pub open spec fn quorum_voted(ids: Seq<u64>, h: Map<(u64, u64), u64>, q: Set<u64>, c: u64, t: u64) -> bool {
    &&& q.subset_of(ids.to_set())
    &&& q.len() >= ids.len() / 2 + 1
    &&& forall|v: u64| #[trigger] q.contains(v) ==> voted(h, v, t, c)
}

/// A majority of the cluster voted for `c` in term `t`.
pub open spec fn elected(ids: Seq<u64>, h: Map<(u64, u64), u64>, c: u64, t: u64) -> bool {
    exists|q: Set<u64>| #[trigger] quorum_voted(ids, h, q, c, t)
}

/// What the record says of the node with id `id`: its vote is recorded, a candidate
/// counts only recorded votes for itself from nodes of the cluster, and a leader
/// was elected by a majority in its term. Its peers are nodes of the cluster, and
/// with itself at least as many as the cluster has.
pub open spec fn node_votes_ok(n: RaftNodeView, id: u64, ids: Seq<u64>, h: Map<(u64, u64), u64>) -> bool {
    &&& n.id == id
    &&& n.peer_ids.len() + 1 >= ids.len()
    &&& forall|k: int| 0 <= k < n.peer_ids.len() ==> ids.contains(#[trigger] n.peer_ids[k])
    &&& vote_recorded(h, id, n)
    &&& (n.role == Role::Candidate ==> forall|v: u64| #[trigger]
        n.votes_granted.contains(v) ==> ids.contains(v) && voted(h, v, n.term, id))
    &&& (n.role == Role::Leader ==> elected(ids, h, id, n.term))
}

/// What the record says of a message from `from` to `to`: both are nodes of the
/// cluster, a RequestVote comes from its candidate, and a granted vote is recorded.
pub open spec fn sent_ok(from: u64, to: u64, msg: MessageView, ids: Seq<u64>, h: Map<(u64, u64), u64>) -> bool {
    &&& ids.contains(from)
    &&& ids.contains(to)
    &&& (msg matches MessageView::RequestVote(r) ==> r.candidate_id == from)
    &&& (msg matches MessageView::RequestVoteResponse(r) ==> (r.vote_granted ==> voted(
        h,
        from,
        r.term,
        to,
    )))
}

/// What the record says of a message in flight.
pub open spec fn msg_votes_ok(p: PendingView, ids: Seq<u64>, h: Map<(u64, u64), u64>) -> bool {
    sent_ok(p.from, p.to, p.msg, ids, h)
}

/// The messages among a node's actions: sent to nodes of the cluster, RequestVotes
/// only for the node itself, and no vote responses.
pub open spec fn acts_votes_ok(acts: Seq<ActionView>, from: u64, ids: Seq<u64>) -> bool {
    forall|k: int|
        0 <= k < acts.len() ==> (#[trigger] acts[k] matches ActionView::Send { to, msg } ==> {
            &&& ids.contains(to)
            &&& (msg matches MessageView::RequestVote(r) ==> r.candidate_id == from)
            &&& !(msg is RequestVoteResponse)
        })
}

/// The record fits every node and every message in flight.
pub open spec fn votes_fit(s: SimView, h: Map<(u64, u64), u64>) -> bool {
    &&& forall|j: int| 0 <= j < s.nodes.len() ==> node_votes_ok(#[trigger] s.nodes[j], s.ids[j], s.ids, h)
    &&& forall|k: int| 0 <= k < s.inbox.len() ==> msg_votes_ok(#[trigger] s.inbox[k], s.ids, h)
}

/// Some record of the votes cast fits the simulator.
pub open spec fn votes_consistent(s: SimView) -> bool {
    exists|h: Map<(u64, u64), u64>| #[trigger] votes_fit(s, h)
}

/// No two nodes are leaders of the same term (crashed nodes included).
pub open spec fn one_leader_per_term(s: SimView) -> bool {
    forall|a: int, b: int|
        0 <= a < s.nodes.len() && 0 <= b < s.nodes.len() && (#[trigger] s.nodes[a]).role == Role::Leader
            && (#[trigger] s.nodes[b]).role == Role::Leader && s.nodes[a].term == s.nodes[b].term
            ==> a == b
}

/// A step from `n` to `n2` keeps or raises the term, and keeps a vote already cast
/// while the term stays.
pub open spec fn vote_mono(n: RaftNodeView, n2: RaftNodeView) -> bool {
    ||| n2.term > n.term
    ||| n2.term == n.term && (n.voted_for is Some ==> n2.voted_for == n.voted_for)
}

/// Writing in the vote of a node that moved from `n` to `n2` keeps every earlier
/// record and agrees with `n2`.
pub(crate) proof fn lemma_record_vote(h: Map<(u64, u64), u64>, id: u64, n: RaftNodeView, n2: RaftNodeView)
    requires
        vote_recorded(h, id, n),
        vote_mono(n, n2),
    ensures
        vote_recorded(record_vote(h, id, n2), id, n2),
        h.submap_of(record_vote(h, id, n2)),
{
    let h2 = record_vote(h, id, n2);
    assert forall|t: u64| #[trigger] h2.contains_key((id, t)) implies t <= n2.term by {
        if h.contains_key((id, t)) {
            assert(t <= n.term);
        }
    }
    if n2.voted_for is None {
        if n2.term == n.term {
            assert(n.voted_for is None);
        } else {
            assert(!h.contains_key((id, n2.term)));
        }
    }
}

/// Records that keep `h` keep every majority vote it holds.
pub(crate) proof fn lemma_elected_grows(ids: Seq<u64>, h: Map<(u64, u64), u64>, h2: Map<(u64, u64), u64>, c: u64, t: u64)
    requires
        elected(ids, h, c, t),
        h.submap_of(h2),
    ensures
        elected(ids, h2, c, t),
{
    let q = choose|q: Set<u64>| quorum_voted(ids, h, q, c, t);
    assert forall|v: u64| #[trigger] q.contains(v) implies voted(h2, v, t, c) by {
        assert(voted(h, v, t, c));
        assert(h.dom().contains((v, t)));
    }
    assert(quorum_voted(ids, h2, q, c, t));
}

/// Writing in the vote of node `id` keeps what the record says of another node.
pub(crate) proof fn lemma_other_node(h: Map<(u64, u64), u64>, id: u64, n2: RaftNodeView, m: RaftNodeView, v: u64, ids: Seq<u64>)
    requires
        node_votes_ok(m, v, ids, h),
        v != id,
        h.submap_of(record_vote(h, id, n2)),
    ensures
        node_votes_ok(m, v, ids, record_vote(h, id, n2)),
{
    let h2 = record_vote(h, id, n2);
    assert forall|t: u64| #[trigger] h2.contains_key((v, t)) implies t <= m.term by {
        assert(h.contains_key((v, t)));
    }
    if m.voted_for is Some {
        assert(h.dom().contains((v, m.term)));
    }
    if m.role == Role::Candidate {
        assert forall|w: u64| #[trigger] m.votes_granted.contains(w) implies ids.contains(w) && voted(h2, w, m.term, v) by {
            assert(voted(h, w, m.term, v));
            assert(h.dom().contains((w, m.term)));
        }
    }
    if m.role == Role::Leader {
        lemma_elected_grows(ids, h, h2, v, m.term);
    }
}

/// A step that keeps the node's id and peers, keeps its vote per `vote_mono`, and
/// leaves it a follower or in the same role, term and votes received, keeps what the
/// record says of it.
pub(crate) proof fn lemma_keep(n: RaftNodeView, n2: RaftNodeView, id: u64, ids: Seq<u64>, h: Map<(u64, u64), u64>)
    requires
        node_votes_ok(n, id, ids, h),
        vote_mono(n, n2),
        n2.id == n.id,
        n2.peer_ids == n.peer_ids,
        n2.role == Role::Follower || (n2.role == n.role && n2.term == n.term && n2.votes_granted
            == n.votes_granted),
    ensures
        node_votes_ok(n2, id, ids, record_vote(h, id, n2)),
        h.submap_of(record_vote(h, id, n2)),
{
    let h2 = record_vote(h, id, n2);
    lemma_record_vote(h, id, n, n2);
    if n2.role == Role::Candidate {
        assert forall|v: u64| #[trigger] n2.votes_granted.contains(v) implies ids.contains(v) && voted(h2, v, n2.term, id) by {
            assert(n.votes_granted.contains(v));
            assert(voted(h, v, n.term, id));
            assert(h.dom().contains((v, n.term)));
        }
    }
    if n2.role == Role::Leader {
        lemma_elected_grows(ids, h, h2, id, n.term);
    }
}

/// AppendEntries sends to the node's peers carry no vote traffic.
proof fn lemma_replication_votes(n: RaftNodeView, from: u64, ids: Seq<u64>)
    requires
        forall|k: int| 0 <= k < n.peer_ids.len() ==> ids.contains(#[trigger] n.peer_ids[k]),
    ensures
        acts_votes_ok(crate::raft::model::replication_actions(n), from, ids),
{
    let acts = crate::raft::model::replication_actions(n);
    assert forall|k: int| 0 <= k < acts.len() implies (#[trigger] acts[k] matches ActionView::Send { to, msg } ==> {
        &&& ids.contains(to)
        &&& (msg matches MessageView::RequestVote(r) ==> r.candidate_id == from)
        &&& !(msg is RequestVoteResponse)
    }) by {
        assert(acts[k] == ActionView::Send {
            to: n.peer_ids[k],
            msg: MessageView::AppendEntries(crate::raft::model::append_entries_for(n, n.peer_ids[k])),
        });
    }
}

/// Applying entries sends nothing.
proof fn lemma_apply_votes(n: RaftNodeView, from: u64, ids: Seq<u64>)
    ensures
        acts_votes_ok(crate::raft::model::apply_step(n).1, from, ids),
{
}

/// Two lists of actions without vote traffic other than the sender's own requests
/// make one.
proof fn lemma_concat_votes(x: Seq<ActionView>, y: Seq<ActionView>, from: u64, ids: Seq<u64>)
    requires
        acts_votes_ok(x, from, ids),
        acts_votes_ok(y, from, ids),
    ensures
        acts_votes_ok(x + y, from, ids),
{
    assert forall|k: int| 0 <= k < (x + y).len() implies (#[trigger] (x + y)[k] matches ActionView::Send { to, msg } ==> {
        &&& ids.contains(to)
        &&& (msg matches MessageView::RequestVote(r) ==> r.candidate_id == from)
        &&& !(msg is RequestVoteResponse)
    }) by {
        if k < x.len() {
            assert((x + y)[k] == x[k]);
        } else {
            assert((x + y)[k] == y[k - x.len()]);
        }
    }
}

/// A candidate's RequestVotes go to its peers and name the candidate.
proof fn lemma_request_votes_votes(n: RaftNodeView, ids: Seq<u64>)
    requires
        forall|k: int| 0 <= k < n.peer_ids.len() ==> ids.contains(#[trigger] n.peer_ids[k]),
    ensures
        acts_votes_ok(crate::raft::model::request_vote_actions(n), n.id, ids),
{
    let acts = crate::raft::model::request_vote_actions(n);
    assert forall|k: int| 0 <= k < acts.len() implies (#[trigger] acts[k] matches ActionView::Send { to, msg } ==> {
        &&& ids.contains(to)
        &&& (msg matches MessageView::RequestVote(r) ==> r.candidate_id == n.id)
        &&& !(msg is RequestVoteResponse)
    }) by {
        assert(acts[k] == ActionView::Send {
            to: n.peer_ids[k],
            msg: MessageView::RequestVote(crate::raft::model::vote_request(n)),
        });
    }
}

/// Handling a RequestVote keeps what the record says of the node, and a granted
/// vote is recorded.
pub(crate) proof fn lemma_request_vote_votes(n: RaftNodeView, id: u64, ids: Seq<u64>, h: Map<(u64, u64), u64>, tick: u64, req: crate::raft::RequestVote)
    requires
        node_votes_ok(n, id, ids, h),
    ensures
        ({
            let (n2, resp) = crate::raft::model::request_vote_step(n, tick, req);
            &&& node_votes_ok(n2, id, ids, record_vote(h, id, n2))
            &&& h.submap_of(record_vote(h, id, n2))
            &&& (resp.vote_granted ==> voted(record_vote(h, id, n2), id, resp.term, req.candidate_id))
        }),
{
    let (n2, resp) = crate::raft::model::request_vote_step(n, tick, req);
    lemma_keep(n, n2, id, ids, h);
}

/// Handling an AppendEntries keeps what the record says of the node.
pub(crate) proof fn lemma_append_entries_votes(n: RaftNodeView, id: u64, ids: Seq<u64>, h: Map<(u64, u64), u64>, tick: u64, req: crate::raft::AppendEntriesView)
    requires
        node_votes_ok(n, id, ids, h),
    ensures
        ({
            let n2 = crate::raft::model::append_entries_step(n, tick, req).0;
            &&& node_votes_ok(n2, id, ids, record_vote(h, id, n2))
            &&& h.submap_of(record_vote(h, id, n2))
        }),
{
    let n2 = crate::raft::model::append_entries_step(n, tick, req).0;
    if req.term >= n.term {
        let s1 = if req.term > n.term {
            crate::raft::model::become_follower(n, req.term, tick)
        } else {
            n
        };
        let s2 = RaftNodeView { role: Role::Follower, votes_granted: Set::empty(), ..s1 };
        let s3 = RaftNodeView {
            election_deadline: (tick + n.election_timeout) as u64,
            log: crate::raft::model::appended_log(s2.log, req),
            commit_index: crate::raft::model::commit_after_append(s2, req),
            ..s2
        };
        crate::raft::laws::lemma_apply_extends(s3);
    }
    lemma_keep(n, n2, id, ids, h);
}

/// Handling a RequestVote response keeps what the record says of the node when a
/// granted vote it carries is recorded; the node sends no vote traffic.
pub(crate) proof fn lemma_vote_response_votes(
    n: RaftNodeView,
    id: u64,
    ids: Seq<u64>,
    h: Map<(u64, u64), u64>,
    tick: u64,
    from: u64,
    resp: crate::raft::RequestVoteResponse,
)
    requires
        node_votes_ok(n, id, ids, h),
        ids.contains(from),
        resp.vote_granted ==> voted(h, from, resp.term, id),
    ensures
        ({
            let (n2, acts) = crate::raft::model::vote_response_step(n, tick, from, resp);
            &&& node_votes_ok(n2, id, ids, record_vote(h, id, n2))
            &&& h.submap_of(record_vote(h, id, n2))
            &&& acts_votes_ok(acts, id, ids)
        }),
{
    let (n2, acts) = crate::raft::model::vote_response_step(n, tick, from, resp);
    if resp.term > n.term || n.role != Role::Candidate || resp.term < n.term || !resp.vote_granted {
        lemma_keep(n, n2, id, ids, h);
    } else {
        let s1 = RaftNodeView { votes_granted: n.votes_granted.insert(from), ..n };
        let h2 = record_vote(h, id, n2);
        lemma_record_vote(h, id, n, n2);
        assert forall|v: u64| #[trigger] s1.votes_granted.contains(v) implies ids.contains(v) && voted(h2, v, n.term, id) by {
            if v != from {
                assert(n.votes_granted.contains(v));
            }
            assert(voted(h, v, n.term, id));
            assert(h.dom().contains((v, n.term)));
        }
        if crate::raft::model::has_majority(s1) {
            let q = s1.votes_granted;
            assert(q.subset_of(ids.to_set())) by {
                assert forall|v: u64| #[trigger] q.contains(v) implies ids.to_set().contains(v) by {
                    assert(ids.contains(v));
                }
            }
            assert(quorum_voted(ids, h2, q, id, n.term));
            lemma_replication_votes(n2, id, ids);
        }
    }
}

/// Handling an AppendEntries response keeps what the record says of the node, which
/// sends no vote traffic.
pub(crate) proof fn lemma_append_response_votes(
    n: RaftNodeView,
    id: u64,
    ids: Seq<u64>,
    h: Map<(u64, u64), u64>,
    tick: u64,
    from: u64,
    resp: crate::raft::AppendEntriesResponse,
)
    requires
        node_votes_ok(n, id, ids, h),
        ids.contains(from),
    ensures
        ({
            let (n2, acts) = crate::raft::model::append_response_step(n, tick, from, resp);
            &&& node_votes_ok(n2, id, ids, record_vote(h, id, n2))
            &&& h.submap_of(record_vote(h, id, n2))
            &&& acts_votes_ok(acts, id, ids)
        }),
{
    let (n2, acts) = crate::raft::model::append_response_step(n, tick, from, resp);
    if resp.term == n.term && n.role == Role::Leader {
        if resp.success {
            let m = crate::raft::model::append_response_step_matched(n, from);
            let s1 = RaftNodeView {
                commit_index: crate::raft::model::highest_committable(m, crate::raft::model::last_index(m.log) as int) as u64,
                ..m
            };
            crate::raft::laws::lemma_apply_extends(s1);
            let (s2, applied) = crate::raft::model::apply_step(s1);
            lemma_apply_votes(s1, id, ids);
            if s1.commit_index > m.commit_index {
                lemma_replication_votes(s2, id, ids);
                lemma_concat_votes(applied, crate::raft::model::replication_actions(s2), id, ids);
            }
        }
    }
    lemma_keep(n, n2, id, ids, h);
}

/// The heartbeat timer keeps what the record says of the node, which sends no vote
/// traffic.
pub(crate) proof fn lemma_heartbeat_votes(n: RaftNodeView, id: u64, ids: Seq<u64>, h: Map<(u64, u64), u64>, tick: u64)
    requires
        node_votes_ok(n, id, ids, h),
    ensures
        ({
            let (n2, acts) = crate::raft::model::heartbeat_step(n, tick);
            &&& node_votes_ok(n2, id, ids, record_vote(h, id, n2))
            &&& h.submap_of(record_vote(h, id, n2))
            &&& acts_votes_ok(acts, id, ids)
        }),
{
    let (n2, acts) = crate::raft::model::heartbeat_step(n, tick);
    lemma_keep(n, n2, id, ids, h);
    lemma_replication_votes(n2, id, ids);
}

/// The election timer keeps what the record says of the node: a new candidate's
/// vote for itself is recorded, and it asks for votes only for itself.
pub(crate) proof fn lemma_election_timer_votes(n: RaftNodeView, id: u64, ids: Seq<u64>, h: Map<(u64, u64), u64>, tick: u64)
    requires
        node_votes_ok(n, id, ids, h),
        ids.contains(id),
        n.term < u64::MAX,
    ensures
        ({
            let (n2, acts) = crate::raft::model::election_timeout_step(n, tick);
            &&& node_votes_ok(n2, id, ids, record_vote(h, id, n2))
            &&& h.submap_of(record_vote(h, id, n2))
            &&& acts_votes_ok(acts, id, ids)
        }),
{
    let (n2, acts) = crate::raft::model::election_timeout_step(n, tick);
    if crate::raft::model::election_timed_out(n, tick) {
        let s1 = RaftNodeView {
            role: Role::Candidate,
            term: (n.term + 1) as u64,
            voted_for: Some(n.id),
            votes_granted: Set::empty().insert(n.id),
            next_index: Map::empty(),
            match_index: Map::empty(),
            election_deadline: (tick + n.election_timeout) as u64,
            ..n
        };
        let h2 = record_vote(h, id, n2);
        lemma_record_vote(h, id, n, n2);
        assert(voted(h2, id, s1.term, id));
        if crate::raft::model::has_majority(s1) {
            let q = s1.votes_granted;
            assert(q.subset_of(ids.to_set())) by {
                assert forall|v: u64| #[trigger] q.contains(v) implies ids.to_set().contains(v) by {
                    assert(v == id);
                }
            }
            assert(quorum_voted(ids, h2, q, id, s1.term));
            lemma_replication_votes(n2, id, ids);
        } else {
            lemma_request_votes_votes(s1, ids);
        }
    } else {
        lemma_keep(n, n2, id, ids, h);
    }
}

/// A proposal keeps what the record says of the node, which sends no vote traffic.
pub(crate) proof fn lemma_propose_votes(n: RaftNodeView, id: u64, ids: Seq<u64>, h: Map<(u64, u64), u64>, data: Seq<u8>)
    requires
        node_votes_ok(n, id, ids, h),
    ensures
        ({
            let (n2, r) = crate::raft::model::propose_step(n, data);
            &&& node_votes_ok(n2, id, ids, record_vote(h, id, n2))
            &&& h.submap_of(record_vote(h, id, n2))
            &&& (r matches Ok(acts) ==> acts_votes_ok(acts, id, ids))
        }),
{
    let (n2, r) = crate::raft::model::propose_step(n, data);
    lemma_keep(n, n2, id, ids, h);
    lemma_replication_votes(n2, id, ids);
}

/// A restarted node keeps its term and vote, and comes back a follower.
pub(crate) proof fn lemma_reboot_votes(n: RaftNodeView, id: u64, ids: Seq<u64>, h: Map<(u64, u64), u64>, tick: u64)
    requires
        node_votes_ok(n, id, ids, h),
    ensures
        node_votes_ok(rebooted(n, tick), id, ids, h),
{
}

/// The cluster's ids are distinct, with one node per id.
pub open spec fn cluster_ok(s: SimView) -> bool {
    &&& strictly_increasing(s.ids)
    &&& s.nodes.len() == s.ids.len()
}

/// A record that keeps `h` fits every message `h` fits.
pub(crate) proof fn lemma_msg_grows(p: PendingView, ids: Seq<u64>, h: Map<(u64, u64), u64>, h2: Map<(u64, u64), u64>)
    requires
        msg_votes_ok(p, ids, h),
        h.submap_of(h2),
    ensures
        msg_votes_ok(p, ids, h2),
{
    if let MessageView::RequestVoteResponse(r) = p.msg {
        if r.vote_granted {
            assert(h.dom().contains((p.from, r.term)));
        }
    }
}

/// Replacing node `j` by a node that the record, with its vote written in, fits
/// keeps a fitting record.
pub(crate) proof fn lemma_with_node_votes(s: SimView, j: int, n2: RaftNodeView, h: Map<(u64, u64), u64>)
    requires
        cluster_ok(s),
        votes_fit(s, h),
        0 <= j < s.nodes.len(),
        node_votes_ok(n2, s.ids[j], s.ids, record_vote(h, s.ids[j], n2)),
        h.submap_of(record_vote(h, s.ids[j], n2)),
    ensures
        votes_fit(with_node(s, j, n2), record_vote(h, s.ids[j], n2)),
{
    let h2 = record_vote(h, s.ids[j], n2);
    let t = with_node(s, j, n2);
    assert forall|i: int| 0 <= i < t.nodes.len() implies node_votes_ok(#[trigger] t.nodes[i], t.ids[i], t.ids, h2) by {
        if i != j {
            if i < j {
                assert(s.ids[i] < s.ids[j]);
            } else {
                assert(s.ids[j] < s.ids[i]);
            }
            assert(node_votes_ok(s.nodes[i], s.ids[i], s.ids, h));
            lemma_other_node(h, s.ids[j], n2, s.nodes[i], s.ids[i], s.ids);
        }
    }
    assert forall|k: int| 0 <= k < t.inbox.len() implies msg_votes_ok(#[trigger] t.inbox[k], t.ids, h2) by {
        lemma_msg_grows(s.inbox[k], s.ids, h, h2);
    }
}

/// Sending a message the record fits keeps it fitting.
pub(crate) proof fn lemma_send_votes(s: SimView, from: u64, to: u64, msg: MessageView, h: Map<(u64, u64), u64>)
    requires
        votes_fit(s, h),
        sent_ok(from, to, msg, s.ids, h),
    ensures
        votes_fit(send_spec(s, from, to, msg), h),
        send_spec(s, from, to, msg).nodes == s.nodes,
        send_spec(s, from, to, msg).ids == s.ids,
        send_spec(s, from, to, msg).tick == s.tick,
        send_spec(s, from, to, msg).crashed == s.crashed,
{
    let t = send_spec(s, from, to, msg);
    assert forall|k: int| 0 <= k < t.inbox.len() implies msg_votes_ok(#[trigger] t.inbox[k], t.ids, h) by {
        if k < s.inbox.len() {
            assert(t.inbox[k] == s.inbox[k]);
        }
    }
}

/// The position of a node id of the cluster.
pub(crate) proof fn lemma_pos_of(ids: Seq<u64>, id: u64)
    requires
        ids.contains(id),
    ensures
        0 <= pos(ids, id) < ids.len(),
        ids[pos(ids, id)] == id,
{
}

/// Two majorities of the cluster share a member.
pub(crate) proof fn lemma_quorums_meet(ids: Seq<u64>, q1: Set<u64>, q2: Set<u64>) -> (v: u64)
    requires
        strictly_increasing(ids),
        q1.subset_of(ids.to_set()),
        q2.subset_of(ids.to_set()),
        q1.len() >= ids.len() / 2 + 1,
        q2.len() >= ids.len() / 2 + 1,
    ensures
        q1.contains(v),
        q2.contains(v),
{
    let u = ids.to_set();
    lemma_ids_distinct(ids);
    ids.lemma_cardinality_of_set();
    vstd::set_lib::lemma_len_subset(q1, u);
    vstd::set_lib::lemma_len_subset(q2, u);
    assert((q1 + q2).subset_of(u));
    vstd::set_lib::lemma_len_subset(q1 + q2, u);
    vstd::set_lib::lemma_set_intersect_union_lens(q1, q2);
    let i = q1.intersect(q2);
    if i.len() == 0 {
        assert(false);
    }
    assert(i.finite());
    let v = i.choose();
    assert(i.contains(v)) by {
        if !i.contains(v) {
            assert(i =~= Set::<u64>::empty());
        }
    }
    v
}

/// Only one node is elected in a term.
pub(crate) proof fn lemma_elected_unique(ids: Seq<u64>, h: Map<(u64, u64), u64>, c1: u64, c2: u64, t: u64)
    requires
        strictly_increasing(ids),
        elected(ids, h, c1, t),
        elected(ids, h, c2, t),
    ensures
        c1 == c2,
{
    let q1 = choose|q: Set<u64>| quorum_voted(ids, h, q, c1, t);
    let q2 = choose|q: Set<u64>| quorum_voted(ids, h, q, c2, t);
    let v = lemma_quorums_meet(ids, q1, q2);
    assert(voted(h, v, t, c1));
    assert(voted(h, v, t, c2));
}

/// Election safety: when some record of the votes fits the simulator, no two nodes
/// are leaders of the same term.
pub proof fn lemma_one_leader_per_term(s: SimView)
    requires
        sim_inv(s),
        votes_consistent(s),
    ensures
        one_leader_per_term(s),
{
    let h = choose|h: Map<(u64, u64), u64>| votes_fit(s, h);
    assert forall|a: int, b: int|
        0 <= a < s.nodes.len() && 0 <= b < s.nodes.len() && (#[trigger] s.nodes[a]).role == Role::Leader
            && (#[trigger] s.nodes[b]).role == Role::Leader && s.nodes[a].term
            == s.nodes[b].term implies a == b by {
        let t = s.nodes[a].term;
        assert(node_votes_ok(s.nodes[a], s.ids[a], s.ids, h));
        assert(node_votes_ok(s.nodes[b], s.ids[b], s.ids, h));
        let q1 = choose|q: Set<u64>| quorum_voted(s.ids, h, q, s.ids[a], t);
        let q2 = choose|q: Set<u64>| quorum_voted(s.ids, h, q, s.ids[b], t);
        let v = lemma_quorums_meet(s.ids, q1, q2);
        assert(voted(h, v, t, s.ids[a]));
        assert(voted(h, v, t, s.ids[b]));
        if a < b {
            assert(s.ids[a] < s.ids[b]);
        } else if b < a {
            assert(s.ids[b] < s.ids[a]);
        }
    }
}

} // verus!
