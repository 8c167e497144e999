//! What the requests a node sends say about the sender, and how a candidate and a
//! voter judge logs, stated from the node's fields.

use super::model::{
    append_entries_for, append_response_step, become_candidate, replication_actions,
    request_vote_actions, request_vote_step, up_to_date, vote_request, vote_response_step,
};
use super::{ActionView, AppendEntriesResponse, MessageView, RaftNodeView, RequestVote, RequestVoteResponse, Role};
use vstd::prelude::*;

verus! {

/// Term of the last entry of a log (0 for an empty log).
pub open spec fn last_entry_term(s: RaftNodeView) -> u64 {
    if s.log.len() == 0 {
        0
    } else {
        s.log[s.log.len() - 1].term
    }
}

/// Index of the last entry of a log (0 for an empty log).
pub open spec fn last_entry_index(s: RaftNodeView) -> int {
    if s.log.len() == 0 {
        0
    } else {
        s.log.len() - 1
    }
}

/// The next index a leader keeps for `peer`, 1 when it keeps none.
pub open spec fn next_for(s: RaftNodeView, peer: u64) -> u64 {
    if s.next_index.contains_key(peer) {
        s.next_index[peer]
    } else {
        1
    }
}

/// Every AppendEntries a leader builds for a peer carries the leader's term, id and
/// own commit index; the previous entry is the one just before the peer's next
/// index, and the entries are the leader's log from that next index on.
pub proof fn lemma_append_entries_describe_sender(s: RaftNodeView, peer: u64)
    ensures
        append_entries_for(s, peer).term == s.term,
        append_entries_for(s, peer).leader_id == s.id,
        append_entries_for(s, peer).leader_commit_index == s.commit_index,
        1 <= next_for(s, peer) <= s.log.len() <= u64::MAX ==> {
            &&& append_entries_for(s, peer).prev_log_index == next_for(s, peer) - 1
            &&& append_entries_for(s, peer).prev_log_term == s.log[next_for(s, peer) - 1].term
            &&& append_entries_for(s, peer).entries == s.log.subrange(
                next_for(s, peer) as int,
                s.log.len() as int,
            )
        },
{
    let n = next_for(s, peer) as int;
    if 1 <= n <= s.log.len() <= u64::MAX {
        assert(s.log.len() - 1 == super::model::last_index(s.log));
        if n == s.log.len() {
            assert(s.log.subrange(n, s.log.len() as int) =~= Seq::empty());
        } else {
            assert(s.log.subrange(n, s.log.len() as int) =~= s.log.skip(n));
        }
    }
}

/// A leader's replication sends one AppendEntries to each peer, in peer order, and
/// every one of them carries the leader's own commit index.
pub proof fn lemma_replication_carries_commit(s: RaftNodeView)
    ensures
        replication_actions(s).len() == s.peer_ids.len(),
        forall|k: int|
            0 <= k < s.peer_ids.len() ==> (#[trigger] replication_actions(s)[k] matches ActionView::Send {
                to,
                msg: MessageView::AppendEntries(a),
            } && to == s.peer_ids[k] && a.leader_commit_index == s.commit_index && a.term == s.term
                && a.leader_id == s.id),
{
}

/// A refused AppendEntries response makes a leader resend to that follower one
/// AppendEntries carrying its own commit index.
pub proof fn lemma_resend_carries_commit(s: RaftNodeView, now: u64, from: u64, resp: AppendEntriesResponse)
    requires
        s.role == Role::Leader,
        resp.term == s.term,
        !resp.success,
    ensures
        append_response_step(s, now, from, resp).1.len() == 1,
        append_response_step(s, now, from, resp).1[0] matches ActionView::Send {
            to,
            msg: MessageView::AppendEntries(a),
        } && to == from && a.leader_commit_index == s.commit_index && a.term == s.term,
{
}

/// The RequestVote a candidate sends states its log, whatever its current term: the
/// index and term of its last entry.
pub proof fn lemma_vote_request_states_log(s: RaftNodeView)
    requires
        s.log.len() <= u64::MAX,
    ensures
        vote_request(s).term == s.term,
        vote_request(s).candidate_id == s.id,
        vote_request(s).last_log_index == last_entry_index(s),
        vote_request(s).last_log_term == last_entry_term(s),
        request_vote_actions(s).len() == s.peer_ids.len(),
        forall|k: int|
            0 <= k < s.peer_ids.len() ==> (#[trigger] request_vote_actions(s)[k] matches ActionView::Send {
                to,
                msg: MessageView::RequestVote(r),
            } && to == s.peer_ids[k] && r.last_log_index == last_entry_index(s) && r.last_log_term
                == last_entry_term(s) && r.term == s.term && r.candidate_id == s.id),
{
}

/// Starting an election without an immediate majority asks every peer for its vote
/// in the next term, stating the candidate's unchanged log.
pub proof fn lemma_election_requests_state_log(s: RaftNodeView, now: u64)
    requires
        s.term < u64::MAX,
        s.log.len() <= u64::MAX,
        become_candidate(s, now).0.role == Role::Candidate,
    ensures
        become_candidate(s, now).1.len() == s.peer_ids.len(),
        forall|k: int|
            0 <= k < s.peer_ids.len() ==> (#[trigger] become_candidate(s, now).1[k] matches ActionView::Send {
                to,
                msg: MessageView::RequestVote(r),
            } && to == s.peer_ids[k] && r.term == s.term + 1 && r.candidate_id == s.id
                && r.last_log_index == last_entry_index(s) && r.last_log_term == last_entry_term(s)),
{
}

/// Up-to-dateness is the lexicographic order on (last term, last index): a higher
/// last term is always up to date, a lower one never, and with equal last terms a
/// last index at least the receiver's is.
pub proof fn lemma_up_to_date_is_lexicographic(ct: u64, ci: u64, rt: u64, ri: u64)
    ensures
        ct > rt ==> up_to_date(ct, ci, rt, ri),
        ct < rt ==> !up_to_date(ct, ci, rt, ri),
        ct == rt ==> (up_to_date(ct, ci, rt, ri) <==> ci >= ri),
{
}

/// A voter in the request's term (or an older one) grants its vote exactly when the
/// candidate's log is at least as up-to-date as its own, compared by (last term,
/// last index), and it has not voted for another candidate in that term.
pub proof fn lemma_vote_granted_iff(s: RaftNodeView, now: u64, req: RequestVote)
    requires
        req.term >= s.term,
        s.log.len() <= u64::MAX,
    ensures
        request_vote_step(s, now, req).1.vote_granted <==> ({
            &&& (req.last_log_term > last_entry_term(s) || (req.last_log_term == last_entry_term(s)
                && req.last_log_index >= last_entry_index(s)))
            &&& (req.term > s.term || s.voted_for is None || s.voted_for == Some(req.candidate_id))
        }),
{
}

/// A refused vote in the candidate's own term changes nothing and sends nothing.
pub proof fn lemma_refused_vote_ignored(s: RaftNodeView, now: u64, from: u64, resp: RequestVoteResponse)
    requires
        s.role == Role::Candidate,
        resp.term == s.term,
        !resp.vote_granted,
    ensures
        vote_response_step(s, now, from, resp).0 == s,
        vote_response_step(s, now, from, resp).1 == Seq::<ActionView>::empty(),
{
}

/// A granted vote in the candidate's own term is counted, and the candidate leads
/// exactly when the votes it now holds are more than half of the cluster (itself
/// and its peers); otherwise it stays a candidate and sends nothing.
pub proof fn lemma_granted_vote_counted(s: RaftNodeView, now: u64, from: u64, resp: RequestVoteResponse)
    requires
        s.role == Role::Candidate,
        resp.term == s.term,
        resp.vote_granted,
    ensures
        vote_response_step(s, now, from, resp).0.term == s.term,
        vote_response_step(s, now, from, resp).0.role == Role::Leader <==> 2 * s.votes_granted.insert(
            from,
        ).len() > s.peer_ids.len() + 1,
        vote_response_step(s, now, from, resp).0.role != Role::Leader ==> {
            &&& vote_response_step(s, now, from, resp).0.role == Role::Candidate
            &&& vote_response_step(s, now, from, resp).0.votes_granted == s.votes_granted.insert(from)
            &&& vote_response_step(s, now, from, resp).1 == Seq::<ActionView>::empty()
        },
{
}

/// A RequestVote response of a newer term makes the node a follower of that term
/// with no vote, no votes received and no leader progress, sending nothing; a stale
/// response, or one to a node that is not a candidate, changes nothing.
pub proof fn lemma_vote_response_other_cases(s: RaftNodeView, now: u64, from: u64, resp: RequestVoteResponse)
    ensures
        resp.term > s.term ==> {
            let n = vote_response_step(s, now, from, resp).0;
            &&& n.term == resp.term
            &&& n.role == Role::Follower
            &&& n.voted_for == None::<u64>
            &&& n.votes_granted == Set::<u64>::empty()
            &&& n.next_index == Map::<u64, u64>::empty()
            &&& n.match_index == Map::<u64, u64>::empty()
            &&& n.log == s.log
            &&& vote_response_step(s, now, from, resp).1 == Seq::<ActionView>::empty()
        },
        resp.term <= s.term && (resp.term < s.term || s.role != Role::Candidate) ==> vote_response_step(
            s,
            now,
            from,
            resp,
        ) == (s, Seq::<ActionView>::empty()),
{
}

/// A candidate that wins with a vote leads in its term with every peer's next index
/// just past its last entry and match index 0, and sends every peer an AppendEntries
/// carrying its term and commit index.
pub proof fn lemma_winning_vote_makes_leader(s: RaftNodeView, now: u64, from: u64, resp: RequestVoteResponse)
    requires
        s.role == Role::Candidate,
        resp.term == s.term,
        resp.vote_granted,
        2 * s.votes_granted.insert(from).len() > s.peer_ids.len() + 1,
        s.log.len() < u64::MAX,
    ensures
        ({
            let (n, acts) = vote_response_step(s, now, from, resp);
            &&& n.role == Role::Leader
            &&& n.term == s.term
            &&& n.log == s.log
            &&& n.commit_index == s.commit_index
            &&& forall|k: int|
                0 <= k < s.peer_ids.len() ==> n.next_index[#[trigger] s.peer_ids[k]] == last_entry_index(s)
                    + 1 && n.match_index[s.peer_ids[k]] == 0
            &&& acts.len() == s.peer_ids.len()
            &&& forall|k: int|
                0 <= k < s.peer_ids.len() ==> (#[trigger] acts[k] matches ActionView::Send {
                    to,
                    msg: MessageView::AppendEntries(a),
                } && to == s.peer_ids[k] && a.term == s.term && a.leader_id == s.id
                    && a.leader_commit_index == s.commit_index)
        }),
{
    let (n, acts) = vote_response_step(s, now, from, resp);
    assert forall|k: int| 0 <= k < s.peer_ids.len() implies n.next_index[#[trigger] s.peer_ids[k]]
        == last_entry_index(s) + 1 && n.match_index[s.peer_ids[k]] == 0 by {
        assert(s.peer_ids.contains(s.peer_ids[k]));
    }
}

} // verus!
