//! Properties of the Raft node operations that hold for every input.

use super::model::{
    advance_commit_step, append_entries_step, append_response_step, apply_step, committable,
    election_timeout_step, heartbeat_step, merge_entries, propose_step, request_vote_step,
    vote_response_step,
};
use super::{AppendEntriesResponse, AppendEntriesView, LogEntryView, RaftNodeView, RequestVote, RequestVoteResponse};
use vstd::prelude::*;

verus! {

/// Applying committed entries only adds commands at the end of the state machine's
/// history and never lowers `last_applied`.
pub proof fn lemma_apply_extends(s: RaftNodeView)
    ensures
        apply_step(s).0.state_machine.take(s.state_machine.len() as int) == s.state_machine,
        apply_step(s).0.state_machine.len() >= s.state_machine.len(),
        apply_step(s).0.last_applied >= s.last_applied,
        apply_step(s).0.term == s.term,
        apply_step(s).0.voted_for == s.voted_for,
{
    assert(apply_step(s).0.state_machine.take(s.state_machine.len() as int) =~= s.state_machine);
}

/// A node's term never decreases, whatever it handles: RequestVote and
/// AppendEntries requests and responses, election and heartbeat timers, and
/// proposals (an election raises it by exactly one).
pub proof fn lemma_term_never_decreases(
    s: RaftNodeView,
    now: u64,
    from: u64,
    rv: RequestVote,
    ae: AppendEntriesView,
    rvr: RequestVoteResponse,
    aer: AppendEntriesResponse,
    data: Seq<u8>,
)
    requires
        s.term < u64::MAX,
    ensures
        request_vote_step(s, now, rv).0.term >= s.term,
        append_entries_step(s, now, ae).0.term >= s.term,
        vote_response_step(s, now, from, rvr).0.term >= s.term,
        append_response_step(s, now, from, aer).0.term >= s.term,
        election_timeout_step(s, now).0.term >= s.term,
        heartbeat_step(s, now).0.term == s.term,
        propose_step(s, data).0.term == s.term,
{
    let s1 = if ae.term > s.term {
        super::model::become_follower(s, ae.term, now)
    } else {
        s
    };
    let s2 = RaftNodeView { role: super::Role::Follower, votes_granted: Set::empty(), ..s1 };
    lemma_apply_extends(RaftNodeView {
        election_deadline: (now + s.election_timeout) as u64,
        log: super::model::appended_log(s2.log, ae),
        commit_index: super::model::commit_after_append(s2, ae),
        ..s2
    });
    if aer.term == s.term && s.role == super::Role::Leader && aer.success {
        let m = super::model::append_response_step_matched(s, from);
        lemma_apply_extends(RaftNodeView {
            commit_index: super::model::highest_committable(m, super::model::last_index(m.log) as int) as u64,
            ..m
        });
    }
}

/// Within one term a node's vote, once cast, never changes: every operation that
/// leaves the term unchanged leaves a recorded vote unchanged. Together with
/// `lemma_vote_granted_records`, a node grants its vote to at most one candidate
/// per term.
pub proof fn lemma_vote_kept_within_term(
    s: RaftNodeView,
    now: u64,
    from: u64,
    rv: RequestVote,
    ae: AppendEntriesView,
    rvr: RequestVoteResponse,
    aer: AppendEntriesResponse,
    data: Seq<u8>,
)
    requires
        s.voted_for is Some,
        s.term < u64::MAX,
    ensures
        request_vote_step(s, now, rv).0.term == s.term ==> request_vote_step(s, now, rv).0.voted_for
            == s.voted_for,
        append_entries_step(s, now, ae).0.term == s.term ==> append_entries_step(
            s,
            now,
            ae,
        ).0.voted_for == s.voted_for,
        vote_response_step(s, now, from, rvr).0.term == s.term ==> vote_response_step(
            s,
            now,
            from,
            rvr,
        ).0.voted_for == s.voted_for,
        append_response_step(s, now, from, aer).0.term == s.term ==> append_response_step(
            s,
            now,
            from,
            aer,
        ).0.voted_for == s.voted_for,
        election_timeout_step(s, now).0.term == s.term ==> election_timeout_step(
            s,
            now,
        ).0.voted_for == s.voted_for,
        heartbeat_step(s, now).0.voted_for == s.voted_for,
        propose_step(s, data).0.voted_for == s.voted_for,
{
    lemma_term_never_decreases_any(s, now, ae, from, aer);
}

proof fn lemma_term_never_decreases_any(
    s: RaftNodeView,
    now: u64,
    ae: AppendEntriesView,
    from: u64,
    aer: AppendEntriesResponse,
)
    ensures
        append_entries_step(s, now, ae).0.term == s.term ==> append_entries_step(
            s,
            now,
            ae,
        ).0.voted_for == s.voted_for || ae.term > s.term,
        append_response_step(s, now, from, aer).0.voted_for == s.voted_for || aer.term > s.term,
{
    let s1 = if ae.term > s.term {
        super::model::become_follower(s, ae.term, now)
    } else {
        s
    };
    let s2 = RaftNodeView { role: super::Role::Follower, votes_granted: Set::empty(), ..s1 };
    lemma_apply_extends(RaftNodeView {
        election_deadline: (now + s.election_timeout) as u64,
        log: super::model::appended_log(s2.log, ae),
        commit_index: super::model::commit_after_append(s2, ae),
        ..s2
    });
    if aer.term == s.term && s.role == super::Role::Leader && aer.success {
        let m = super::model::append_response_step_matched(s, from);
        lemma_apply_extends(RaftNodeView {
            commit_index: super::model::highest_committable(m, super::model::last_index(m.log) as int) as u64,
            ..m
        });
    }
}

/// While a node stays leader of the same term, its log only grows: no operation a
/// leader performs (handling requests and responses, timers, proposals) removes or
/// changes an entry of its log.
pub proof fn lemma_leader_append_only(
    s: RaftNodeView,
    now: u64,
    from: u64,
    rv: RequestVote,
    ae: AppendEntriesView,
    rvr: RequestVoteResponse,
    aer: AppendEntriesResponse,
    data: Seq<u8>,
)
    requires
        s.role == super::Role::Leader,
    ensures
        ({
            let n = request_vote_step(s, now, rv).0;
            n.role == super::Role::Leader && n.term == s.term ==> n.log.take(s.log.len() as int) == s.log
        }),
        ({
            let n = append_entries_step(s, now, ae).0;
            n.role == super::Role::Leader && n.term == s.term ==> n.log.take(s.log.len() as int) == s.log
        }),
        ({
            let n = vote_response_step(s, now, from, rvr).0;
            n.role == super::Role::Leader && n.term == s.term ==> n.log.take(s.log.len() as int) == s.log
        }),
        ({
            let n = append_response_step(s, now, from, aer).0;
            n.role == super::Role::Leader && n.term == s.term ==> n.log.take(s.log.len() as int) == s.log
        }),
        ({
            let n = election_timeout_step(s, now).0;
            n.role == super::Role::Leader && n.term == s.term ==> n.log.take(s.log.len() as int) == s.log
        }),
        ({
            let n = heartbeat_step(s, now).0;
            n.role == super::Role::Leader && n.term == s.term ==> n.log.take(s.log.len() as int) == s.log
        }),
        ({
            let n = propose_step(s, data).0;
            n.role == super::Role::Leader && n.term == s.term ==> n.log.take(s.log.len() as int) == s.log
        }),
{
    assert(s.log.take(s.log.len() as int) =~= s.log);
    assert(s.log.push(LogEntryView { term: s.term, data }).take(s.log.len() as int) =~= s.log);
    if aer.term == s.term && aer.success {
        let m = super::model::append_response_step_matched(s, from);
        lemma_apply_extends(RaftNodeView {
            commit_index: super::model::highest_committable(m, super::model::last_index(m.log) as int) as u64,
            ..m
        });
    }
}

/// Applied commands are never undone: every node operation (handling requests and
/// responses, timers, proposals) keeps the applied history as a prefix of the new
/// one and never lowers `last_applied`.
pub proof fn lemma_applied_history_grows(
    s: RaftNodeView,
    now: u64,
    from: u64,
    rv: RequestVote,
    ae: AppendEntriesView,
    rvr: RequestVoteResponse,
    aer: AppendEntriesResponse,
    data: Seq<u8>,
)
    ensures
        ({
            let n = request_vote_step(s, now, rv).0;
            n.state_machine.take(s.state_machine.len() as int) == s.state_machine && n.last_applied >= s.last_applied
        }),
        ({
            let n = append_entries_step(s, now, ae).0;
            n.state_machine.take(s.state_machine.len() as int) == s.state_machine && n.last_applied >= s.last_applied
        }),
        ({
            let n = vote_response_step(s, now, from, rvr).0;
            n.state_machine.take(s.state_machine.len() as int) == s.state_machine && n.last_applied >= s.last_applied
        }),
        ({
            let n = append_response_step(s, now, from, aer).0;
            n.state_machine.take(s.state_machine.len() as int) == s.state_machine && n.last_applied >= s.last_applied
        }),
        ({
            let n = election_timeout_step(s, now).0;
            n.state_machine.take(s.state_machine.len() as int) == s.state_machine && n.last_applied >= s.last_applied
        }),
        ({
            let n = heartbeat_step(s, now).0;
            n.state_machine.take(s.state_machine.len() as int) == s.state_machine && n.last_applied >= s.last_applied
        }),
        ({
            let n = propose_step(s, data).0;
            n.state_machine.take(s.state_machine.len() as int) == s.state_machine && n.last_applied >= s.last_applied
        }),
{
    assert(s.state_machine.take(s.state_machine.len() as int) =~= s.state_machine);
    let s1 = if ae.term > s.term {
        super::model::become_follower(s, ae.term, now)
    } else {
        s
    };
    let s2 = RaftNodeView { role: super::Role::Follower, votes_granted: Set::empty(), ..s1 };
    lemma_apply_extends(RaftNodeView {
        election_deadline: (now + s.election_timeout) as u64,
        log: super::model::appended_log(s2.log, ae),
        commit_index: super::model::commit_after_append(s2, ae),
        ..s2
    });
    if aer.term == s.term && s.role == super::Role::Leader && aer.success {
        let m = super::model::append_response_step_matched(s, from);
        lemma_apply_extends(RaftNodeView {
            commit_index: super::model::highest_committable(m, super::model::last_index(m.log) as int) as u64,
            ..m
        });
    }
}

/// What an AppendEntries request does. It succeeds exactly when its term is not
/// stale and the receiver's log holds an entry of the request's previous term at the
/// request's previous index; a refused request leaves the log, commit index and
/// applied commands alone. An accepted one keeps the log up to the previous index,
/// puts at each following index the request's entry or an entry already there of
/// the same term, leaves the old log whole or ends right after the request's
/// entries, moves the commit index up to the leader's, capped by the new last index,
/// and applies what became committed, in order.
pub proof fn lemma_append_entries_outcome(s: RaftNodeView, now: u64, req: AppendEntriesView)
    ensures
        ({
            let (n, r) = append_entries_step(s, now, req);
            let p = req.prev_log_index as int;
            &&& r.success == (req.term >= s.term && super::model::prev_matches(s.log, req))
            &&& r.term == n.term
            &&& (!r.success ==> n.log == s.log && n.commit_index == s.commit_index
                && n.last_applied == s.last_applied && n.state_machine == s.state_machine)
            &&& (r.success ==> {
                &&& n.log.take(p + 1) == s.log.take(p + 1)
                &&& n.log.len() >= p + 1 + req.entries.len()
                &&& (forall|i: int|
                    0 <= i < req.entries.len() ==> (#[trigger] n.log[p + 1 + i]).term == req.entries[i].term
                        && (n.log[p + 1 + i] == req.entries[i] || (p + 1 + i < s.log.len()
                        && n.log[p + 1 + i] == s.log[p + 1 + i])))
                &&& (n.log == s.log || n.log.len() == p + 1 + req.entries.len())
                &&& n.commit_index == (if req.leader_commit_index > s.commit_index {
                    if req.leader_commit_index <= super::model::last_index(n.log) {
                        req.leader_commit_index
                    } else {
                        super::model::last_index(n.log)
                    }
                } else {
                    s.commit_index
                })
                &&& n.last_applied == (if s.last_applied < n.commit_index {
                    n.commit_index
                } else {
                    s.last_applied
                })
                &&& n.state_machine == s.state_machine + super::model::new_commands(
                    n.log,
                    s.last_applied,
                    n.last_applied,
                )
            })
        }),
{
    let (n, r) = append_entries_step(s, now, req);
    let p = req.prev_log_index as int;
    if req.term >= s.term && super::model::prev_matches(s.log, req) {
        let log2 = super::model::appended_log(s.log, req);
        lemma_merge_places_entries(s.log, p + 1, req.entries, 0);
        lemma_merge_shape_of(s.log, p + 1, req.entries, 0);
        assert(n.log == log2);
        if s.last_applied >= n.commit_index {
            assert(super::model::new_commands(n.log, s.last_applied, s.last_applied) =~= Seq::empty());
            assert(s.state_machine + Seq::<crate::state_machine::CommandView>::empty() =~= s.state_machine);
        }
    }
}

/// A merge keeps the whole log or ends right after the request's entries.
pub proof fn lemma_merge_shape_of(log: Seq<LogEntryView>, start: int, entries: Seq<LogEntryView>, i: int)
    requires
        1 <= start <= log.len(),
        0 <= i <= entries.len(),
        forall|j: int|
            0 <= j < i ==> start + j < log.len() && log[start + j].term == (#[trigger] entries[j]).term,
    ensures
        merge_entries(log, start, entries, i) == log || merge_entries(log, start, entries, i).len()
            == start + entries.len(),
    decreases entries.len() - i,
{
    if i < entries.len() && start + i < log.len() && log[start + i].term == entries[i].term {
        lemma_merge_shape_of(log, start, entries, i + 1);
    } else if i < entries.len() && start + i >= log.len() {
        if i > 0 {
            let e = entries[i - 1];
            assert(start + (i - 1) < log.len());
        }
    }
}

/// The next index a leader keeps for `peer`, 1 when it keeps none.
pub open spec fn next_of(l: RaftNodeView, peer: u64) -> u64 {
    if l.next_index.contains_key(peer) {
        l.next_index[peer]
    } else {
        1
    }
}

/// One AppendEntries catches a follower up: when a leader of a term no older than
/// the follower's sends it the request built for it, the follower's log agrees with
/// the leader's below the follower's next index, and the two logs agree on every
/// index where their entries have the same term, the request succeeds and the
/// follower's log then extends the leader's whole log.
pub proof fn lemma_append_entries_catches_up(f: RaftNodeView, l: RaftNodeView, now: u64)
    requires
        l.term >= f.term,
        l.log.len() <= usize::MAX,
        1 <= next_of(l, f.id) <= l.log.len(),
        next_of(l, f.id) <= f.log.len(),
        f.log.take(next_of(l, f.id) as int) == l.log.take(next_of(l, f.id) as int),
        forall|i: int|
            0 <= i < f.log.len() && i < l.log.len() && (#[trigger] f.log[i]).term == (#[trigger] l.log[i]).term
                ==> f.log[i] == l.log[i],
    ensures
        append_entries_step(f, now, super::model::append_entries_for(l, f.id)).1.success,
        append_entries_step(f, now, super::model::append_entries_for(l, f.id)).0.log.len() >= l.log.len(),
        append_entries_step(f, now, super::model::append_entries_for(l, f.id)).0.log.take(l.log.len() as int)
            == l.log,
{
    let a = super::model::append_entries_for(l, f.id);
    let next = next_of(l, f.id) as int;
    let p = next - 1;
    assert(f.log.take(next)[p] == f.log[p]);
    assert(l.log.take(next)[p] == l.log[p]);
    assert(a.prev_log_index == p);
    lemma_append_entries_outcome(f, now, a);
    let n = append_entries_step(f, now, a).0;
    if next <= super::model::last_index(l.log) {
        assert(a.entries =~= l.log.skip(next));
        assert(n.log.take(l.log.len() as int) =~= l.log) by {
            assert forall|i: int| 0 <= i < l.log.len() implies #[trigger] n.log.take(l.log.len() as int)[i]
                == l.log[i] by {
                if i < next {
                    assert(n.log.take(p + 1)[i] == f.log.take(p + 1)[i]);
                    assert(f.log.take(next)[i] == l.log.take(next)[i]);
                } else {
                    let k = i - next;
                    assert(n.log[p + 1 + k].term == a.entries[k].term);
                    assert(a.entries[k] == l.log[i]);
                    if n.log[p + 1 + k] != a.entries[k] {
                        let fi = f.log[i];
                        let li = l.log[i];
                    }
                }
            }
        }
    } else {
        assert(super::model::last_index(l.log) == l.log.len() - 1);
        assert(next == l.log.len());
        assert(a.entries.len() == 0);
        assert(n.log.take(p + 1) == f.log.take(p + 1));
        assert(n.log.take(l.log.len() as int) =~= l.log) by {
            assert forall|i: int| 0 <= i < l.log.len() implies #[trigger] n.log.take(l.log.len() as int)[i]
                == l.log[i] by {
                assert(n.log.take(p + 1)[i] == f.log.take(p + 1)[i]);
                assert(f.log.take(next)[i] == l.log.take(next)[i]);
            }
        }
    }
}

/// A granted vote is recorded: the node is then in the request's term and has
/// voted for the requesting candidate.
pub proof fn lemma_vote_granted_records(s: RaftNodeView, now: u64, rv: RequestVote)
    ensures
        request_vote_step(s, now, rv).1.vote_granted ==> {
            &&& request_vote_step(s, now, rv).0.term == rv.term
            &&& request_vote_step(s, now, rv).0.voted_for == Some(rv.candidate_id)
        },
{
}

/// A node grants its vote to at most one candidate in a term: after granting a vote
/// in some term, a second RequestVote of that same term is granted only to the same
/// candidate.
pub proof fn lemma_one_vote_per_term(
    s: RaftNodeView,
    now1: u64,
    now2: u64,
    first: RequestVote,
    second: RequestVote,
)
    requires
        request_vote_step(s, now1, first).1.vote_granted,
        second.term == first.term,
        request_vote_step(request_vote_step(s, now1, first).0, now2, second).1.vote_granted,
    ensures
        second.candidate_id == first.candidate_id,
{
}

/// Storing AppendEntries entries from index `start` (just after the request's
/// previous entry, which lies in the receiver's log) keeps the receiver's log up to
/// `start`, and afterwards every request entry stands at its index with the
/// request's term: either the request's own entry or the entry already there,
/// which had that same term.
pub proof fn lemma_merge_places_entries(
    log: Seq<LogEntryView>,
    start: int,
    entries: Seq<LogEntryView>,
    i: int,
)
    requires
        1 <= start <= log.len(),
        0 <= i <= entries.len(),
        forall|j: int|
            0 <= j < i ==> start + j < log.len() && log[start + j].term == (#[trigger] entries[j]).term,
    ensures
        merge_entries(log, start, entries, i).take(start) == log.take(start),
        merge_entries(log, start, entries, i).len() >= start + entries.len(),
        forall|j: int|
            0 <= j < entries.len() ==> {
                &&& (#[trigger] merge_entries(log, start, entries, i)[start + j]).term
                    == entries[j].term
                &&& merge_entries(log, start, entries, i)[start + j] == entries[j] || (start + j
                    < log.len() && merge_entries(log, start, entries, i)[start + j] == log[start
                    + j])
            },
    decreases entries.len() - i,
{
    let m = merge_entries(log, start, entries, i);
    if i >= entries.len() {
        assert(m == log);
        assert(m.take(start) =~= log.take(start));
        if entries.len() > 0 {
            let k = entries.len() - 1;
            assert(0 <= k < i);
            let e = entries[k];
            assert(start + k < log.len());
        }
        assert forall|j: int| 0 <= j < entries.len() implies (#[trigger] m[start + j]).term
            == entries[j].term && (m[start + j] == entries[j] || (start + j < log.len() && m[start
            + j] == log[start + j])) by {
            assert(log[start + j].term == entries[j].term);
        }
    } else if start + i < log.len() {
        if log[start + i].term != entries[i].term {
            assert(m == log.take(start + i) + entries.skip(i));
            assert(m.take(start) =~= log.take(start));
            assert forall|j: int| 0 <= j < entries.len() implies (#[trigger] m[start + j]).term
                == entries[j].term && (m[start + j] == entries[j] || (start + j < log.len()
                && m[start + j] == log[start + j])) by {
                if j < i {
                    assert(log[start + j].term == entries[j].term);
                    assert(m[start + j] == log[start + j]);
                } else {
                    assert(m[start + j] == entries.skip(i)[j - i]);
                }
            }
        } else {
            lemma_merge_places_entries(log, start, entries, i + 1);
        }
    } else {
        assert(m == log + entries.skip(i));
        assert(m.take(start) =~= log.take(start));
        if i > 0 {
            let k = i - 1;
            let e = entries[k];
            assert(start + k < log.len());
        }
        assert(log.len() == start + i);
        assert forall|j: int| 0 <= j < entries.len() implies (#[trigger] m[start + j]).term
            == entries[j].term && (m[start + j] == entries[j] || (start + j < log.len() && m[start
            + j] == log[start + j])) by {
            if j < i {
                assert(log[start + j].term == entries[j].term);
                assert(m[start + j] == log[start + j]);
            } else {
                assert(m[start + j] == entries.skip(i)[j - i]);
            }
        }
    }
}

/// A leader commits only entries of its own term that a majority of the cluster
/// stores: when handling a successful AppendEntries response moves the commit
/// index, the new commit index names such an entry.
pub proof fn lemma_commit_needs_majority(s: RaftNodeView)
    ensures
        advance_commit_step(s).0.commit_index > s.commit_index ==> committable(
            s,
            advance_commit_step(s).0.commit_index as int,
        ),
{
    let hi = super::model::last_index(s.log) as int;
    lemma_highest_committable(s, hi);
    let s1 = RaftNodeView { commit_index: super::model::highest_committable(s, hi) as u64, ..s };
    lemma_apply_extends(s1);
}

/// The highest committable index is at least the commit index, at most `hi`,
/// committable when above the commit index, and highest: no index above it up to
/// `hi` is committable.
pub proof fn lemma_highest_committable_bounds(s: RaftNodeView, hi: int)
    ensures
        super::model::highest_committable(s, hi) >= s.commit_index,
        super::model::highest_committable(s, hi) > s.commit_index ==> committable(
            s,
            super::model::highest_committable(s, hi),
        ) && super::model::highest_committable(s, hi) <= hi,
        forall|n: int|
            super::model::highest_committable(s, hi) < n <= hi ==> !#[trigger] committable(s, n),
    decreases hi - s.commit_index,
{
    lemma_highest_committable(s, hi);
    if hi > s.commit_index && !committable(s, hi) {
        lemma_highest_committable_bounds(s, hi - 1);
    }
}

proof fn lemma_highest_committable(s: RaftNodeView, hi: int)
    ensures
        super::model::highest_committable(s, hi) >= s.commit_index,
        super::model::highest_committable(s, hi) > s.commit_index ==> committable(
            s,
            super::model::highest_committable(s, hi),
        ) && super::model::highest_committable(s, hi) <= hi,
    decreases hi - s.commit_index,
{
    if hi > s.commit_index && !committable(s, hi) {
        lemma_highest_committable(s, hi - 1);
    }
}

} // verus!
