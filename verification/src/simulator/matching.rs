//! Log matching: in a simulator driven through its operations, two logs that hold
//! an entry with the same index and term are identical up to that index.
//!
//! The argument keeps in mind a record of every entry ever created, from
//! `(term, index)` to the log prefix that ends in it, together with the vote record
//! of the election argument. Every node's log and every AppendEntries in flight
//! agrees with the record; only the one leader a term can have creates entries of
//! that term, at the end of its log, and an accepted AppendEntries leaves a log that
//! still agrees.

use super::election::{elected, node_votes_ok};
use super::model::logs_match;
use crate::raft::model::{appended_log, merge_entries};
use crate::raft::{AppendEntriesView, LogEntryView, MessageView, RaftNodeView, Role};
use vstd::prelude::*;

verus! {

/// The entry at index 0 of every log.
pub open spec fn sentinel() -> LogEntryView {
    LogEntryView { term: 0, data: Seq::empty() }
}

/// The entry record is well formed: each key `(t, i)` maps to a prefix of length
/// `i + 1` ending in an entry of term `t`, whose shorter prefixes are recorded
/// under their own last entries; index 0 holds only the sentinel, and later
/// indices only entries of terms from 1.
pub open spec fn prefix_ok(e: Map<(u64, int), Seq<LogEntryView>>) -> bool {
    forall|t: u64, i: int|
        #[trigger] e.contains_key((t, i)) ==> {
            &&& i >= 0
            &&& e[(t, i)].len() == i + 1
            &&& e[(t, i)][i].term == t
            &&& (i == 0 ==> t == 0 && e[(t, i)] == seq![sentinel()])
            &&& (i >= 1 ==> t >= 1)
            &&& forall|j: int|
                #![trigger e[(t, i)][j]]
                0 <= j < i ==> e.contains_key((e[(t, i)][j].term, j)) && e[(e[(t, i)][j].term, j)]
                    == e[(t, i)].take(j + 1)
        }
}

/// Every entry of the log is recorded with the log's prefix up to it.
pub open spec fn log_fits(e: Map<(u64, int), Seq<LogEntryView>>, log: Seq<LogEntryView>) -> bool {
    forall|i: int|
        0 <= i < log.len() ==> e.contains_key((#[trigger] log[i].term, i)) && e[(log[i].term, i)]
            == log.take(i + 1)
}

/// The entries of an AppendEntries request extend the recorded prefix ending at the
/// previous entry, and each is recorded with the prefix up to it.
pub open spec fn append_fits(e: Map<(u64, int), Seq<LogEntryView>>, a: AppendEntriesView) -> bool {
    a.entries.len() > 0 ==> {
        let p = a.prev_log_index as int;
        &&& e.contains_key((a.prev_log_term, p))
        &&& forall|k: int|
            0 <= k < a.entries.len() ==> e.contains_key((#[trigger] a.entries[k].term, p + 1 + k))
                && e[(a.entries[k].term, p + 1 + k)] == e[(a.prev_log_term, p)] + a.entries.take(
                k + 1,
            )
    }
}

/// The request's entries end no later than a log that fits a vector.
pub open spec fn append_bounded(a: AppendEntriesView) -> bool {
    a.entries.len() > 0 ==> a.prev_log_index + 1 + a.entries.len() <= usize::MAX
}

/// What the entry record says of the node with id `id`: its log fits the record and
/// a vector; a leader holds, with its term, every recorded entry of its term; a
/// node that has stood for election is past term 0; next indices are at least 1;
/// and the node is not its own peer.
pub open spec fn node_log_ok(n: RaftNodeView, id: u64, e: Map<(u64, int), Seq<LogEntryView>>) -> bool {
    &&& log_fits(e, n.log)
    &&& 1 <= n.log.len() <= usize::MAX
    &&& (n.role != Role::Follower ==> n.term >= 1)
    &&& (n.role == Role::Leader ==> forall|i: int|
        #[trigger] e.contains_key((n.term, i)) ==> i < n.log.len() && n.log[i].term == n.term)
    &&& forall|k: u64| #[trigger] n.next_index.contains_key(k) ==> n.next_index[k] >= 1
    &&& forall|k: int| 0 <= k < n.peer_ids.len() ==> n.peer_ids[k] != id
}

/// The messages among a node's actions: none to the node itself, and every
/// AppendEntries fits the entry record and a vector and comes from a node elected
/// in its term.
pub open spec fn acts_log_ok(
    acts: Seq<crate::raft::ActionView>,
    from: u64,
    ids: Seq<u64>,
    h: Map<(u64, u64), u64>,
    e: Map<(u64, int), Seq<LogEntryView>>,
) -> bool {
    forall|k: int|
        0 <= k < acts.len() ==> (#[trigger] acts[k] matches crate::raft::ActionView::Send { to, msg } ==> {
            &&& to != from
            &&& (msg matches MessageView::AppendEntries(a) ==> {
                &&& append_fits(e, a)
                &&& append_bounded(a)
                &&& elected(ids, h, from, a.term)
            })
        })
}

/// A step from `n` to `n2` keeps or raises the term, and makes a candidate only by
/// raising it or keeping a candidate.
pub open spec fn cand_mono(n: RaftNodeView, n2: RaftNodeView) -> bool {
    &&& n2.term >= n.term
    &&& (n2.role == Role::Candidate ==> (n.role == Role::Candidate && n2.term == n.term) || n2.term > n.term)
}

/// What a leader sends a peer fits the record when the leader's log does.
pub(crate) proof fn lemma_append_for_fits(e: Map<(u64, int), Seq<LogEntryView>>, n: RaftNodeView, peer: u64)
    requires
        log_fits(e, n.log),
        1 <= n.log.len() <= usize::MAX,
        forall|k: u64| #[trigger] n.next_index.contains_key(k) ==> n.next_index[k] >= 1,
    ensures
        append_fits(e, crate::raft::model::append_entries_for(n, peer)),
        append_bounded(crate::raft::model::append_entries_for(n, peer)),
{
    let a = crate::raft::model::append_entries_for(n, peer);
    let next = if n.next_index.contains_key(peer) {
        n.next_index[peer]
    } else {
        1
    };
    if a.entries.len() > 0 {
        let log = n.log;
        let p = a.prev_log_index as int;
        assert(next >= 1);
        assert(p == next - 1);
        assert(a.entries == log.skip(next as int));
        let lp = log[p];
        assert(a.prev_log_term == lp.term);
        assert forall|k: int| 0 <= k < a.entries.len() implies e.contains_key((#[trigger] a.entries[k].term, p + 1 + k))
            && e[(a.entries[k].term, p + 1 + k)] == e[(a.prev_log_term, p)] + a.entries.take(k + 1) by {
            assert(a.entries[k] == log[p + 1 + k]);
            let lk = log[p + 1 + k];
            assert(log.take(p + 1 + k + 1) =~= log.take(p + 1) + a.entries.take(k + 1));
        }
    }
}

/// A leader's replication messages satisfy `acts_log_ok`.
pub(crate) proof fn lemma_replication_log(n: RaftNodeView, id: u64, ids: Seq<u64>, h: Map<(u64, u64), u64>, e: Map<(u64, int), Seq<LogEntryView>>)
    requires
        node_log_ok(n, id, e),
        elected(ids, h, id, n.term),
    ensures
        acts_log_ok(crate::raft::model::replication_actions(n), id, ids, h, e),
{
    let acts = crate::raft::model::replication_actions(n);
    assert forall|k: int| 0 <= k < acts.len() implies (#[trigger] acts[k] matches crate::raft::ActionView::Send { to, msg } ==> {
        &&& to != id
        &&& (msg matches MessageView::AppendEntries(a) ==> {
            &&& append_fits(e, a)
            &&& append_bounded(a)
            &&& elected(ids, h, id, a.term)
        })
    }) by {
        lemma_append_for_fits(e, n, n.peer_ids[k]);
        assert(acts[k] == crate::raft::ActionView::Send {
            to: n.peer_ids[k],
            msg: MessageView::AppendEntries(crate::raft::model::append_entries_for(n, n.peer_ids[k])),
        });
    }
}

/// Lists of actions that satisfy `acts_log_ok` make one.
pub(crate) proof fn lemma_concat_log(
    x: Seq<crate::raft::ActionView>,
    y: Seq<crate::raft::ActionView>,
    from: u64,
    ids: Seq<u64>,
    h: Map<(u64, u64), u64>,
    e: Map<(u64, int), Seq<LogEntryView>>,
)
    requires
        acts_log_ok(x, from, ids, h, e),
        acts_log_ok(y, from, ids, h, e),
    ensures
        acts_log_ok(x + y, from, ids, h, e),
{
    assert forall|k: int| 0 <= k < (x + y).len() implies (#[trigger] (x + y)[k] matches crate::raft::ActionView::Send { to, msg } ==> {
        &&& to != from
        &&& (msg matches MessageView::AppendEntries(a) ==> {
            &&& append_fits(e, a)
            &&& append_bounded(a)
            &&& elected(ids, h, from, a.term)
        })
    }) by {
        if k < x.len() {
            assert((x + y)[k] == x[k]);
        } else {
            assert((x + y)[k] == y[k - x.len()]);
        }
    }
}

/// Handling a RequestVote keeps what the entry record says of the node.
pub(crate) proof fn lemma_request_vote_log(n: RaftNodeView, id: u64, e: Map<(u64, int), Seq<LogEntryView>>, tick: u64, req: crate::raft::RequestVote)
    requires
        node_log_ok(n, id, e),
    ensures
        node_log_ok(crate::raft::model::request_vote_step(n, tick, req).0, id, e),
        cand_mono(n, crate::raft::model::request_vote_step(n, tick, req).0),
{
}

/// Handling an AppendEntries that fits the record, and that a leader never gets in
/// its own term, keeps what the entry record says of the node.
pub(crate) proof fn lemma_append_entries_log(n: RaftNodeView, id: u64, e: Map<(u64, int), Seq<LogEntryView>>, tick: u64, req: AppendEntriesView)
    requires
        prefix_ok(e),
        node_log_ok(n, id, e),
        append_fits(e, req),
        append_bounded(req),
        n.role == Role::Leader ==> req.term != n.term,
    ensures
        node_log_ok(crate::raft::model::append_entries_step(n, tick, req).0, id, e),
        cand_mono(n, crate::raft::model::append_entries_step(n, tick, req).0),
{
    let n2 = crate::raft::model::append_entries_step(n, tick, req).0;
    if req.term >= n.term {
        let s1 = if req.term > n.term {
            crate::raft::model::become_follower(n, req.term, tick)
        } else {
            n
        };
        let s2 = RaftNodeView { role: Role::Follower, votes_granted: Set::empty(), ..s1 };
        if crate::raft::model::prev_matches(s2.log, req) {
            let s3 = RaftNodeView {
                election_deadline: (tick + n.election_timeout) as u64,
                log: appended_log(s2.log, req),
                commit_index: crate::raft::model::commit_after_append(s2, req),
                ..s2
            };
            crate::raft::laws::lemma_apply_extends(s3);
            lemma_merge_fits(e, n.log, req);
            if req.entries.len() > 0 {
                let start = req.prev_log_index + 1;
                crate::raft::laws::lemma_merge_shape_of(n.log, start as int, req.entries, 0);
            }
            assert(crate::raft::model::apply_step(s3).0.log == s3.log);
        }
    }
}

/// A node that becomes leader in a step finds no recorded entry of its new term
/// past index 0.
pub open spec fn fresh_leader_ok(n: RaftNodeView, n2: RaftNodeView, e: Map<(u64, int), Seq<LogEntryView>>) -> bool {
    n2.role == Role::Leader && n.role != Role::Leader ==> forall|i: int|
        i >= 1 ==> !#[trigger] e.contains_key((n2.term, i))
}

/// Becoming leader keeps what the entry record says of a node whose term has no
/// recorded entries past index 0, and its messages satisfy `acts_log_ok`.
pub(crate) proof fn lemma_become_leader_log(n: RaftNodeView, id: u64, ids: Seq<u64>, h: Map<(u64, u64), u64>, e: Map<(u64, int), Seq<LogEntryView>>, tick: u64)
    requires
        prefix_ok(e),
        node_log_ok(n, id, e),
        n.term >= 1,
        forall|i: int| i >= 1 ==> !#[trigger] e.contains_key((n.term, i)),
        elected(ids, h, id, n.term),
    ensures
        node_log_ok(crate::raft::model::become_leader(n, tick).0, id, e),
        acts_log_ok(crate::raft::model::become_leader(n, tick).1, id, ids, h, e),
{
    let (n2, acts) = crate::raft::model::become_leader(n, tick);
    assert forall|i: int| #[trigger] e.contains_key((n2.term, i)) implies i < n2.log.len() && n2.log[i].term == n2.term by {
        assert(i < 1);
        assert(i >= 0);
    }
    assert forall|k: u64| #[trigger] n2.next_index.contains_key(k) implies n2.next_index[k] >= 1 by {
        if n.next_index.contains_key(k) && !n.peer_ids.contains(k) {
            assert(n2.next_index[k] == n.next_index[k]);
        }
    }
    lemma_replication_log(n2, id, ids, h, e);
}

/// Handling a RequestVote response keeps what the entry record says of the node,
/// which sends only messages that satisfy `acts_log_ok`.
pub(crate) proof fn lemma_vote_response_log(
    n: RaftNodeView,
    id: u64,
    ids: Seq<u64>,
    h2: Map<(u64, u64), u64>,
    e: Map<(u64, int), Seq<LogEntryView>>,
    tick: u64,
    from: u64,
    resp: crate::raft::RequestVoteResponse,
)
    requires
        prefix_ok(e),
        node_log_ok(n, id, e),
        fresh_leader_ok(n, crate::raft::model::vote_response_step(n, tick, from, resp).0, e),
        node_votes_ok(crate::raft::model::vote_response_step(n, tick, from, resp).0, id, ids, h2),
    ensures
        ({
            let (n2, acts) = crate::raft::model::vote_response_step(n, tick, from, resp);
            &&& node_log_ok(n2, id, e)
            &&& acts_log_ok(acts, id, ids, h2, e)
            &&& cand_mono(n, n2)
        }),
{
    let (n2, acts) = crate::raft::model::vote_response_step(n, tick, from, resp);
    if resp.term <= n.term && n.role == Role::Candidate && resp.term == n.term && resp.vote_granted {
        let s1 = RaftNodeView { votes_granted: n.votes_granted.insert(from), ..n };
        if crate::raft::model::has_majority(s1) {
            lemma_become_leader_log(s1, id, ids, h2, e, tick);
        }
    }
}

/// Handling an AppendEntries response from another node keeps what the entry record
/// says of the node, which sends only messages that satisfy `acts_log_ok`.
pub(crate) proof fn lemma_append_response_log(
    n: RaftNodeView,
    id: u64,
    ids: Seq<u64>,
    h2: Map<(u64, u64), u64>,
    e: Map<(u64, int), Seq<LogEntryView>>,
    tick: u64,
    from: u64,
    resp: crate::raft::AppendEntriesResponse,
)
    requires
        node_log_ok(n, id, e),
        from != id,
        node_votes_ok(crate::raft::model::append_response_step(n, tick, from, resp).0, id, ids, h2),
    ensures
        ({
            let (n2, acts) = crate::raft::model::append_response_step(n, tick, from, resp);
            &&& node_log_ok(n2, id, e)
            &&& acts_log_ok(acts, id, ids, h2, e)
            &&& cand_mono(n, n2)
        }),
{
    let (n2, acts) = crate::raft::model::append_response_step(n, tick, from, resp);
    if resp.term == n.term && n.role == Role::Leader {
        let next = if n.next_index.contains_key(from) {
            n.next_index[from]
        } else {
            1
        };
        if resp.success {
            let m = crate::raft::model::append_response_step_matched(n, from);
            let s1 = RaftNodeView {
                commit_index: crate::raft::model::highest_committable(m, crate::raft::model::last_index(m.log) as int) as u64,
                ..m
            };
            crate::raft::laws::lemma_apply_extends(s1);
            let (s2, applied) = crate::raft::model::apply_step(s1);
            assert(s2.log == n.log);
            assert(node_log_ok(s2, id, e));
            if s1.commit_index > m.commit_index {
                lemma_replication_log(s2, id, ids, h2, e);
                lemma_concat_log(applied, crate::raft::model::replication_actions(s2), id, ids, h2, e);
            }
        } else {
            let s1 = if next > 1 {
                RaftNodeView { next_index: n.next_index.insert(from, (next - 1) as u64), ..n }
            } else {
                n
            };
            lemma_append_for_fits(e, s1, from);
        }
    }
}

/// The heartbeat timer keeps what the entry record says of the node, which sends
/// only messages that satisfy `acts_log_ok`.
pub(crate) proof fn lemma_heartbeat_log(n: RaftNodeView, id: u64, ids: Seq<u64>, h: Map<(u64, u64), u64>, e: Map<(u64, int), Seq<LogEntryView>>, tick: u64)
    requires
        node_log_ok(n, id, e),
        node_votes_ok(n, id, ids, h),
    ensures
        ({
            let (n2, acts) = crate::raft::model::heartbeat_step(n, tick);
            &&& node_log_ok(n2, id, e)
            &&& acts_log_ok(acts, id, ids, h, e)
            &&& cand_mono(n, n2)
        }),
{
    let (n2, acts) = crate::raft::model::heartbeat_step(n, tick);
    if crate::raft::model::heartbeat_due(n, tick) {
        lemma_replication_log(n2, id, ids, h, e);
    }
}

/// The election timer keeps what the entry record says of the node, which sends
/// only messages that satisfy `acts_log_ok`.
pub(crate) proof fn lemma_election_timer_log(n: RaftNodeView, id: u64, ids: Seq<u64>, h2: Map<(u64, u64), u64>, e: Map<(u64, int), Seq<LogEntryView>>, tick: u64)
    requires
        prefix_ok(e),
        node_log_ok(n, id, e),
        n.term < u64::MAX,
        n.id == id,
        fresh_leader_ok(n, crate::raft::model::election_timeout_step(n, tick).0, e),
        node_votes_ok(crate::raft::model::election_timeout_step(n, tick).0, id, ids, h2),
    ensures
        ({
            let (n2, acts) = crate::raft::model::election_timeout_step(n, tick);
            &&& node_log_ok(n2, id, e)
            &&& acts_log_ok(acts, id, ids, h2, e)
            &&& cand_mono(n, n2)
        }),
{
    let (n2, acts) = crate::raft::model::election_timeout_step(n, tick);
    if crate::raft::model::election_timed_out(n, tick) {
        let s1 = RaftNodeView {
            role: Role::Candidate,
            term: (n.term + 1) as u64,
            voted_for: Some(n.id),
            votes_granted: Set::empty().insert(n.id),
            next_index: Map::empty(),
            match_index: Map::empty(),
            election_deadline: (tick + n.election_timeout) as u64,
            ..n
        };
        if crate::raft::model::has_majority(s1) {
            lemma_become_leader_log(s1, id, ids, h2, e, tick);
        } else {
            let acts = crate::raft::model::request_vote_actions(s1);
            assert forall|k: int| 0 <= k < acts.len() implies (#[trigger] acts[k] matches crate::raft::ActionView::Send { to, msg } ==> {
                &&& to != id
                &&& (msg matches MessageView::AppendEntries(a) ==> {
                    &&& append_fits(e, a)
                    &&& append_bounded(a)
                    &&& elected(ids, h2, id, a.term)
                })
            }) by {
                assert(acts[k] == crate::raft::ActionView::Send {
                    to: s1.peer_ids[k],
                    msg: MessageView::RequestVote(crate::raft::model::vote_request(s1)),
                });
            }
        }
    }
}

/// The record with a leader's new entry written in.
pub open spec fn record_entry(e: Map<(u64, int), Seq<LogEntryView>>, n: RaftNodeView, data: Seq<u8>) -> Map<(u64, int), Seq<LogEntryView>> {
    let log2 = n.log.push(LogEntryView { term: n.term, data });
    e.insert((n.term, n.log.len() as int), log2)
}

/// A leader's proposal, when its log still fits a vector afterwards, records the new
/// entry: the record stays well formed and keeps every earlier entry, the leader
/// fits it, and its messages satisfy `acts_log_ok`. A refused proposal changes
/// nothing.
pub(crate) proof fn lemma_propose_log(n: RaftNodeView, id: u64, ids: Seq<u64>, h: Map<(u64, u64), u64>, e: Map<(u64, int), Seq<LogEntryView>>, data: Seq<u8>)
    requires
        prefix_ok(e),
        node_log_ok(n, id, e),
        node_votes_ok(n, id, ids, h),
        n.role == Role::Leader ==> n.log.len() < usize::MAX,
    ensures
        ({
            let (n2, r) = crate::raft::model::propose_step(n, data);
            let e2 = if n.role == Role::Leader { record_entry(e, n, data) } else { e };
            &&& prefix_ok(e2)
            &&& e.submap_of(e2)
            &&& node_log_ok(n2, id, e2)
            &&& (r matches Ok(acts) ==> acts_log_ok(acts, id, ids, h, e2))
            &&& cand_mono(n, n2)
        }),
{
    let (n2, r) = crate::raft::model::propose_step(n, data);
    if n.role == Role::Leader {
        let i = n.log.len() as int;
        let e2 = record_entry(e, n, data);
        let log2 = n2.log;
        assert(!e.contains_key((n.term, i)));
        assert forall|t: u64, x: int| #[trigger] e2.contains_key((t, x)) implies {
            &&& x >= 0
            &&& e2[(t, x)].len() == x + 1
            &&& e2[(t, x)][x].term == t
            &&& (x == 0 ==> t == 0 && e2[(t, x)] == seq![sentinel()])
            &&& (x >= 1 ==> t >= 1)
            &&& forall|j: int|
                #![trigger e2[(t, x)][j]]
                0 <= j < x ==> e2.contains_key((e2[(t, x)][j].term, j)) && e2[(e2[(t, x)][j].term, j)]
                    == e2[(t, x)].take(j + 1)
        } by {
            if (t, x) == (n.term, i) {
                assert forall|j: int| #![trigger e2[(t, x)][j]] 0 <= j < x implies e2.contains_key((e2[(t, x)][j].term, j)) && e2[(e2[(t, x)][j].term, j)]
                    == e2[(t, x)].take(j + 1) by {
                    assert(log2[j] == n.log[j]);
                    let lj = n.log[j];
                    assert(e.contains_key((lj.term, j)));
                    assert(log2.take(j + 1) =~= n.log.take(j + 1));
                }
            } else {
                assert forall|j: int| #![trigger e2[(t, x)][j]] 0 <= j < x implies e2.contains_key((e2[(t, x)][j].term, j)) && e2[(e2[(t, x)][j].term, j)]
                    == e2[(t, x)].take(j + 1) by {
                    let ej = e[(t, x)][j];
                    assert(e.contains_key((ej.term, j)));
                    if (ej.term, j) == (n.term, i) {
                        assert(j < x);
                    }
                }
            }
        }
        assert forall|x: int| 0 <= x < log2.len() implies e2.contains_key((#[trigger] log2[x].term, x)) && e2[(log2[x].term, x)]
            == log2.take(x + 1) by {
            if x < i {
                assert(log2[x] == n.log[x]);
                let lx = n.log[x];
                assert(e.contains_key((lx.term, x)));
                assert(log2.take(x + 1) =~= n.log.take(x + 1));
            } else {
                assert(log2.take(x + 1) =~= log2);
            }
        }
        assert forall|x: int| #[trigger] e2.contains_key((n2.term, x)) implies x < n2.log.len() && n2.log[x].term == n2.term by {
            if x != i {
                assert(e.contains_key((n.term, x)));
                assert(log2[x] == n.log[x]);
            }
        }
        lemma_log_fits_grows(e, e2, log2);
        lemma_replication_log(n2, id, ids, h, e2);
    }
}

/// A record that keeps `e` fits every log `e` fits.
pub(crate) proof fn lemma_log_fits_grows(e: Map<(u64, int), Seq<LogEntryView>>, e2: Map<(u64, int), Seq<LogEntryView>>, log: Seq<LogEntryView>)
    requires
        e.submap_of(e2),
    ensures
        log_fits(e, log) ==> log_fits(e2, log),
{
    if log_fits(e, log) {
        assert forall|i: int| 0 <= i < log.len() implies e2.contains_key((#[trigger] log[i].term, i)) && e2[(log[i].term, i)]
            == log.take(i + 1) by {
            assert(e.dom().contains((log[i].term, i)));
        }
    }
}

/// A record that keeps `e` fits every request `e` fits.
pub(crate) proof fn lemma_append_fits_grows(e: Map<(u64, int), Seq<LogEntryView>>, e2: Map<(u64, int), Seq<LogEntryView>>, a: AppendEntriesView)
    requires
        e.submap_of(e2),
        append_fits(e, a),
    ensures
        append_fits(e2, a),
{
    if a.entries.len() > 0 {
        let p = a.prev_log_index as int;
        assert(e.dom().contains((a.prev_log_term, p)));
        assert forall|k: int| 0 <= k < a.entries.len() implies e2.contains_key((#[trigger] a.entries[k].term, p + 1 + k))
            && e2[(a.entries[k].term, p + 1 + k)] == e2[(a.prev_log_term, p)] + a.entries.take(k + 1) by {
            let ek = a.entries[k];
            assert(e.contains_key((ek.term, p + 1 + k)) && e[(ek.term, p + 1 + k)] == e[(a.prev_log_term, p)]
                + a.entries.take(k + 1));
            assert(e.dom().contains((ek.term, p + 1 + k)));
            assert(e2.dom().contains((ek.term, p + 1 + k)));
            assert(e2.dom().contains((a.prev_log_term, p)));
        }
    }
}

/// A restarted node keeps what the entry record says of it.
pub(crate) proof fn lemma_reboot_log(n: RaftNodeView, id: u64, e: Map<(u64, int), Seq<LogEntryView>>, tick: u64)
    requires
        node_log_ok(n, id, e),
    ensures
        node_log_ok(super::model::rebooted(n, tick), id, e),
        cand_mono(n, super::model::rebooted(n, tick)),
{
}

/// Two logs that fit the record satisfy log matching.
pub proof fn lemma_fitting_logs_match(e: Map<(u64, int), Seq<LogEntryView>>, x: Seq<LogEntryView>, y: Seq<LogEntryView>)
    requires
        log_fits(e, x),
        log_fits(e, y),
    ensures
        logs_match(x, y),
{
    assert forall|i: int|
        0 <= i < x.len() && i < y.len() && #[trigger] x[i].term == #[trigger] y[i].term implies x.take(
        i + 1,
    ) == y.take(i + 1) by {
        assert(e[(x[i].term, i)] == x.take(i + 1));
        assert(e[(y[i].term, i)] == y.take(i + 1));
    }
}

/// An accepted AppendEntries request that fits the record leaves a log that fits.
pub proof fn lemma_merge_fits(e: Map<(u64, int), Seq<LogEntryView>>, log: Seq<LogEntryView>, a: AppendEntriesView)
    requires
        prefix_ok(e),
        log_fits(e, log),
        log.len() >= 1,
        append_fits(e, a),
        crate::raft::model::prev_matches(log, a),
    ensures
        log_fits(e, appended_log(log, a)),
{
    let es = a.entries;
    if es.len() > 0 {
        let p = a.prev_log_index as int;
        let pt = a.prev_log_term;
        let start = p + 1;
        assert(e.contains_key((pt, p)));
        assert(p < log.len());
        let lp = log[p];
        assert(log.take(p + 1) == e[(pt, p)]);
        let m = appended_log(log, a);
        crate::raft::laws::lemma_merge_places_entries(log, start, es, 0);
        crate::raft::laws::lemma_merge_shape_of(log, start, es, 0);
        // Every position of the request holds the request's entry.
        assert forall|k: int| 0 <= k < es.len() implies #[trigger] m[start + k] == es[k] by {
            let ek = es[k];
            assert(e.contains_key((ek.term, start + k)));
            assert(e[(ek.term, start + k)] == e[(pt, p)] + es.take(k + 1));
            if m[start + k] != es[k] {
                assert(start + k < log.len() && m[start + k] == log[start + k]);
                let lk = log[start + k];
                assert(log.take(start + k + 1) == e[(lk.term, start + k)]);
                assert(log.take(start + k + 1)[start + k] == lk);
                assert((e[(pt, p)] + es.take(k + 1))[start + k] == es.take(k + 1)[k]);
            }
        }
        assert forall|i: int| 0 <= i < m.len() implies e.contains_key((#[trigger] m[i].term, i))
            && e[(m[i].term, i)] == m.take(i + 1) by {
            if m == log {
                let li = log[i];
            } else if i < start {
                assert(m.take(start)[i] == log.take(start)[i]);
                assert(m[i] == log[i]);
                let li = log[i];
                assert(m.take(i + 1) =~= log.take(i + 1)) by {
                    assert forall|y: int| 0 <= y < i + 1 implies #[trigger] m.take(i + 1)[y] == log.take(i + 1)[y] by {
                        assert(m.take(start)[y] == log.take(start)[y]);
                    }
                }
            } else {
                let k = i - start;
                assert(0 <= k < es.len());
                assert(m[start + k] == es[k]);
                assert(m[i] == es[k]);
                let ek = es[k];
                let want = e[(pt, p)] + es.take(k + 1);
                assert(e[(ek.term, i)] == want);
                assert(m.take(i + 1) =~= want) by {
                    assert forall|y: int| 0 <= y < i + 1 implies #[trigger] m.take(i + 1)[y] == want[y] by {
                        if y < start {
                            assert(m.take(start)[y] == log.take(start)[y]);
                            assert(log.take(p + 1)[y] == e[(pt, p)][y]);
                        } else {
                            assert(m[start + (y - start)] == es[y - start]);
                        }
                    }
                }
            }
        }
    }
}

} // verus!
