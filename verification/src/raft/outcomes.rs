//! The outcome of each RPC handler spelled out field by field: what the node
//! answers, and which parts of its state change and how.

use super::laws::{lemma_append_entries_outcome, next_of};
use super::model::{
    append_entries_for, append_entries_step, append_response_step, append_response_step_matched,
    apply_actions, apply_step, highest_committable, last_index, last_term, merge_entries,
    replication_actions, request_vote_step, up_to_date,
};
use super::{
    ActionView, AppendEntriesResponse, AppendEntriesView, LogEntryView, MessageView, RaftNodeView,
    RequestVote, Role,
};
use vstd::prelude::*;

verus! {

/// Some request entry lands on an index the log already holds with another term.
pub open spec fn has_conflict(log: Seq<LogEntryView>, start: int, entries: Seq<LogEntryView>) -> bool {
    exists|j: int|
        0 <= j < entries.len() && start + j < log.len() && log[start + j].term
            != (#[trigger] entries[j]).term
}

/// What a RequestVote does, field by field. A stale request changes nothing and is
/// refused. Otherwise the node moves to the request's term (forgetting its vote when
/// the term is newer), becomes a follower with no votes received, restarts its
/// election timer, keeps its log and commit state, and grants the vote exactly when
/// the candidate's log is at least as up-to-date as its own and it has not voted for
/// another candidate in that term; a granted vote is recorded.
pub proof fn lemma_request_vote_outcome(s: RaftNodeView, now: u64, req: RequestVote)
    ensures
        ({
            let (n, r) = request_vote_step(s, now, req);
            req.term < s.term ==> n == s && r.term == s.term && !r.vote_granted
        }),
        ({
            let (n, r) = request_vote_step(s, now, req);
            let vf = if req.term > s.term {
                None
            } else {
                s.voted_for
            };
            req.term >= s.term ==> {
                &&& r.vote_granted == (up_to_date(
                    req.last_log_term,
                    req.last_log_index,
                    last_term(s.log),
                    last_index(s.log),
                ) && (vf is None || vf == Some(req.candidate_id)))
                &&& n.voted_for == (if r.vote_granted {
                    Some(req.candidate_id)
                } else {
                    vf
                })
                &&& r.term == req.term
                &&& n.term == req.term
                &&& n.role == Role::Follower
                &&& n.votes_granted == Set::<u64>::empty()
                &&& n.election_deadline == (now + s.election_timeout) as u64
                &&& n.log == s.log
                &&& n.commit_index == s.commit_index
                &&& n.last_applied == s.last_applied
                &&& n.state_machine == s.state_machine
                &&& n.next_index == (if req.term > s.term {
                    Map::<u64, u64>::empty()
                } else {
                    s.next_index
                })
                &&& n.match_index == (if req.term > s.term {
                    Map::<u64, u64>::empty()
                } else {
                    s.match_index
                })
            }
        }),
{
}

/// A node votes at most once per term: a request with a stale term, or one of the
/// node's own term from another candidate than the one it voted for, is refused,
/// and the node's term and vote stay as they were.
pub proof fn lemma_vote_refused(s: RaftNodeView, now: u64, req: RequestVote)
    requires
        req.term < s.term || (req.term == s.term && s.voted_for is Some && s.voted_for != Some(
            req.candidate_id,
        )),
    ensures
        !request_vote_step(s, now, req).1.vote_granted,
        request_vote_step(s, now, req).1.term == s.term,
        request_vote_step(s, now, req).0.term == s.term,
        request_vote_step(s, now, req).0.voted_for == s.voted_for,
{
}

/// What an AppendEntries request does to the node's term, role, vote and timer. A
/// stale request changes nothing and is refused. Otherwise the node moves to the
/// request's term (forgetting its vote and leader progress when the term is
/// newer), becomes a follower with no votes received, answers with that term, and
/// restarts its election timer when it accepts the request or the term is newer.
pub proof fn lemma_append_entries_roles(s: RaftNodeView, now: u64, req: AppendEntriesView)
    ensures
        ({
            let (n, r) = append_entries_step(s, now, req);
            req.term < s.term ==> n == s && r.term == s.term && !r.success
        }),
        ({
            let (n, r) = append_entries_step(s, now, req);
            req.term >= s.term ==> {
                &&& n.term == req.term
                &&& r.term == req.term
                &&& n.role == Role::Follower
                &&& n.votes_granted == Set::<u64>::empty()
                &&& n.voted_for == (if req.term > s.term {
                    None
                } else {
                    s.voted_for
                })
                &&& n.election_deadline == (if r.success || req.term > s.term {
                    (now + s.election_timeout) as u64
                } else {
                    s.election_deadline
                })
                &&& n.next_index == (if req.term > s.term {
                    Map::<u64, u64>::empty()
                } else {
                    s.next_index
                })
                &&& n.match_index == (if req.term > s.term {
                    Map::<u64, u64>::empty()
                } else {
                    s.match_index
                })
                &&& n.id == s.id
                &&& n.peer_ids == s.peer_ids
            }
        }),
{
}

/// The length of a merged log: cut right after the request's entries when one of
/// them conflicts with an entry already there, else the longer of the old log and
/// the request's reach, with every old entry kept.
pub proof fn lemma_merge_length(log: Seq<LogEntryView>, start: int, entries: Seq<LogEntryView>, i: int)
    requires
        1 <= start <= log.len(),
        0 <= i <= entries.len(),
        forall|j: int|
            0 <= j < i ==> start + j < log.len() && log[start + j].term == (#[trigger] entries[j]).term,
    ensures
        has_conflict(log, start, entries) ==> merge_entries(log, start, entries, i).len() == start
            + entries.len(),
        !has_conflict(log, start, entries) ==> {
            &&& merge_entries(log, start, entries, i).len() == (if log.len() >= start + entries.len() {
                log.len() as int
            } else {
                start + entries.len()
            })
            &&& forall|j: int|
                0 <= j < log.len() ==> #[trigger] merge_entries(log, start, entries, i)[j] == log[j]
        },
    decreases entries.len() - i,
{
    let m = merge_entries(log, start, entries, i);
    if i >= entries.len() {
        if entries.len() > 0 {
            let k = entries.len() - 1;
            let e = entries[k];
            assert(start + k < log.len());
        }
    } else if start + i < log.len() {
        if log[start + i].term != entries[i].term {
            assert(has_conflict(log, start, entries));
        } else {
            lemma_merge_length(log, start, entries, i + 1);
        }
    } else {
        if i > 0 {
            let k = i - 1;
            let e = entries[k];
            assert(start + k < log.len());
        }
        assert(log.len() == start + i);
        assert(m == log + entries.skip(i));
        assert(!has_conflict(log, start, entries));
    }
}

/// The log an accepted AppendEntries request leaves. With `p` the request's
/// previous index and `E` its entries: the first `p + 1` entries are kept (the
/// sentinel among them); when one of `E` conflicts with an entry already there the
/// log ends right after `E`, else its length is the longer of the old length and
/// `p + 1 + |E|` and every old entry stays in place; and when the old log agrees
/// with `E` wherever their terms agree, every entry of `E` stands at its index.
pub proof fn lemma_append_entries_log(s: RaftNodeView, now: u64, req: AppendEntriesView)
    ensures
        ({
            let (n, r) = append_entries_step(s, now, req);
            let p = req.prev_log_index as int;
            let e = req.entries;
            r.success ==> {
                &&& n.log.take(p + 1) == s.log.take(p + 1)
                &&& n.log[0] == s.log[0]
                &&& has_conflict(s.log, p + 1, e) ==> n.log.len() == p + 1 + e.len()
                &&& !has_conflict(s.log, p + 1, e) ==> {
                    &&& n.log.len() == (if s.log.len() >= p + 1 + e.len() {
                        s.log.len() as int
                    } else {
                        p + 1 + e.len()
                    })
                    &&& forall|j: int| 0 <= j < s.log.len() ==> #[trigger] n.log[j] == s.log[j]
                }
                &&& (forall|i: int|
                    0 <= i < e.len() && p + 1 + i < s.log.len() && s.log[p + 1 + i].term
                        == (#[trigger] e[i]).term ==> s.log[p + 1 + i] == e[i]) ==> forall|i: int|
                    0 <= i < e.len() ==> #[trigger] n.log[p + 1 + i] == e[i]
            }
        }),
{
    let (n, r) = append_entries_step(s, now, req);
    let p = req.prev_log_index as int;
    let e = req.entries;
    lemma_append_entries_outcome(s, now, req);
    if r.success {
        lemma_merge_length(s.log, p + 1, e, 0);
        assert(n.log == merge_entries(s.log, p + 1, e, 0));
        assert(n.log.take(p + 1)[0] == s.log.take(p + 1)[0]);
        if forall|i: int|
            0 <= i < e.len() && p + 1 + i < s.log.len() && s.log[p + 1 + i].term
                == (#[trigger] e[i]).term ==> s.log[p + 1 + i] == e[i] {
            assert forall|i: int| 0 <= i < e.len() implies #[trigger] n.log[p + 1 + i] == e[i] by {
                assert(n.log[p + 1 + i].term == e[i].term);
            }
        }
    }
}

/// What an AppendEntries response does to a leader. A newer term makes it a
/// follower of that term with no vote, votes or leader progress and a restarted
/// election timer, sending nothing; a stale response, or one to a node that is not
/// leader, changes nothing. A refusal backs the follower's next index up by one
/// (while it is above 1) and resends one AppendEntries built from the new next
/// index. An acceptance sets the follower's match index to the leader's last index
/// (or just below the next index when that is past the log) and its next index one
/// above, keeps the log, commits as far as a majority allows, applies every newly
/// committed entry in order, and when the commit index moved sends AppendEntries to
/// every peer after the applies.
pub proof fn lemma_append_response_outcome(
    s: RaftNodeView,
    now: u64,
    from: u64,
    resp: AppendEntriesResponse,
)
    ensures
        ({
            let (n, r) = append_response_step(s, now, from, resp);
            resp.term > s.term ==> {
                &&& r == Seq::<ActionView>::empty()
                &&& n.term == resp.term
                &&& n.role == Role::Follower
                &&& n.voted_for == None::<u64>
                &&& n.votes_granted == Set::<u64>::empty()
                &&& n.next_index == Map::<u64, u64>::empty()
                &&& n.match_index == Map::<u64, u64>::empty()
                &&& n.election_deadline == (now + s.election_timeout) as u64
                &&& n.log == s.log
                &&& n.commit_index == s.commit_index
                &&& n.last_applied == s.last_applied
                &&& n.state_machine == s.state_machine
            }
        }),
        ({
            let (n, r) = append_response_step(s, now, from, resp);
            resp.term <= s.term && (s.role != Role::Leader || resp.term < s.term) ==> n == s && r
                == Seq::<ActionView>::empty()
        }),
        ({
            let (n, r) = append_response_step(s, now, from, resp);
            let k = next_of(s, from);
            s.role == Role::Leader && resp.term == s.term && !resp.success ==> {
                &&& n == RaftNodeView {
                    next_index: if k > 1 {
                        s.next_index.insert(from, (k - 1) as u64)
                    } else {
                        s.next_index
                    },
                    ..s
                }
                &&& next_of(n, from) == (if k > 1 {
                    (k - 1) as u64
                } else {
                    k
                })
                &&& r == seq![
                    ActionView::Send {
                        to: from,
                        msg: MessageView::AppendEntries(append_entries_for(n, from)),
                    },
                ]
            }
        }),
        ({
            let (n, r) = append_response_step(s, now, from, resp);
            let k = next_of(s, from);
            let m: u64 = if k <= last_index(s.log) {
                last_index(s.log)
            } else if k == 0 {
                0
            } else {
                (k - 1) as u64
            };
            s.role == Role::Leader && resp.term == s.term && resp.success && s.last_applied
                <= s.commit_index ==> {
                &&& n.match_index == s.match_index.insert(from, m)
                &&& n.next_index == s.next_index.insert(from, (m + 1) as u64)
                &&& n.log == s.log
                &&& n.term == s.term
                &&& n.role == Role::Leader
                &&& n.commit_index == highest_committable(
                    append_response_step_matched(s, from),
                    last_index(s.log) as int,
                )
                &&& n.commit_index >= s.commit_index
                &&& n.last_applied == n.commit_index
                &&& r == apply_actions(s.log, s.last_applied, n.commit_index) + (if n.commit_index
                    > s.commit_index {
                    replication_actions(n)
                } else {
                    Seq::<ActionView>::empty()
                })
            }
        }),
{
    if s.role == Role::Leader && resp.term == s.term && resp.success && s.last_applied
        <= s.commit_index {
        let s0 = append_response_step_matched(s, from);
        let hi = last_index(s0.log) as int;
        super::laws::lemma_highest_committable_bounds(s0, hi);
        let s1 = RaftNodeView { commit_index: highest_committable(s0, hi) as u64, ..s0 };
        if s1.last_applied >= s1.commit_index {
            assert(apply_actions(s.log, s.last_applied, s1.commit_index) =~= Seq::<
                ActionView,
            >::empty());
        }
        let (s2, applied) = apply_step(s1);
        assert(applied == apply_actions(s.log, s.last_applied, s1.commit_index));
        if s1.commit_index <= s.commit_index {
            assert(applied + Seq::<ActionView>::empty() =~= applied);
        }
    }
}

} // verus!
