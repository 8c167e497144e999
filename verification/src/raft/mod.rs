//! Core Raft node state and RPC message types.
//!
//! `model` states what each node operation does as functions on `RaftNodeView`;
//! `node` holds the executable operations, each proved to follow its model.

pub mod laws;
pub mod messages;
pub mod model;
pub mod outcomes;
mod node;

use crate::state_machine::{Command, CommandView, StateMachine};
use std::collections::{HashMap, HashSet};
use vstd::prelude::*;

verus! {

/// Side effects produced by a node step for the simulator to execute.
#[derive(Debug, PartialEq, Eq)]
pub enum Action {
    /// Deliver an RPC message to another node.
    Send { to: u64, msg: Message },
    /// Apply a committed log entry to the state machine.
    Apply { index: u64, command: Command },
}

/// Error returned when a client command cannot be proposed.
#[derive(Debug, Clone, Copy, PartialEq, Eq, Structural)]
pub enum ProposeError {
    NotLeader,
}

/// A node's role in the cluster at a given moment.
#[derive(Debug, Clone, Copy, PartialEq, Eq, Structural)]
pub enum Role {
    Follower,
    Candidate,
    Leader,
}

/// A single replicated log entry.
#[derive(Debug, PartialEq, Eq)]
pub struct LogEntry {
    /// Term when this entry was first created by the leader.
    pub term: u64,
    /// Opaque command applied to the state machine once committed.
    pub data: Vec<u8>,
}

/// The value of a [`LogEntry`].
pub struct LogEntryView {
    pub term: u64,
    pub data: Seq<u8>,
}

/// RPC messages exchanged between Raft servers.
#[derive(Debug, PartialEq, Eq)]
pub enum Message {
    RequestVote(RequestVote),
    AppendEntries(AppendEntries),
    RequestVoteResponse(RequestVoteResponse),
    AppendEntriesResponse(AppendEntriesResponse),
}

/// RequestVote RPC.
#[derive(Debug, Clone, Copy, PartialEq, Eq, Structural)]
pub struct RequestVote {
    /// Candidate's term.
    pub term: u64,
    /// Candidate requesting the vote.
    pub candidate_id: u64,
    /// Index of the candidate's last log entry.
    pub last_log_index: u64,
    /// Term of the candidate's last log entry.
    pub last_log_term: u64,
}

/// AppendEntries RPC.
#[derive(Debug, PartialEq, Eq)]
pub struct AppendEntries {
    /// Leader's term.
    pub term: u64,
    /// So followers can redirect clients.
    pub leader_id: u64,
    /// Index of the log entry immediately preceding the new ones.
    pub prev_log_index: u64,
    /// Term of the entry at `prev_log_index`.
    pub prev_log_term: u64,
    /// Log entries to store (empty for heartbeat).
    pub entries: Vec<LogEntry>,
    /// Leader's `commit_index`.
    pub leader_commit_index: u64,
}

/// The value of an [`AppendEntries`] request.
pub struct AppendEntriesView {
    pub term: u64,
    pub leader_id: u64,
    pub prev_log_index: u64,
    pub prev_log_term: u64,
    pub entries: Seq<LogEntryView>,
    pub leader_commit_index: u64,
}

/// Response to RequestVote RPC.
#[derive(Debug, Clone, Copy, PartialEq, Eq, Structural)]
pub struct RequestVoteResponse {
    /// Current term, for the candidate to update itself.
    pub term: u64,
    /// True if the recipient voted for the candidate.
    pub vote_granted: bool,
}

/// Response to AppendEntries RPC.
#[derive(Debug, Clone, Copy, PartialEq, Eq, Structural)]
pub struct AppendEntriesResponse {
    /// Current term, for the leader to update itself.
    pub term: u64,
    /// True if follower contained an entry matching `prev_log_index` and `prev_log_term`.
    pub success: bool,
}

/// The value of a [`Message`].
pub enum MessageView {
    RequestVote(RequestVote),
    AppendEntries(AppendEntriesView),
    RequestVoteResponse(RequestVoteResponse),
    AppendEntriesResponse(AppendEntriesResponse),
}

/// The value of an [`Action`].
pub enum ActionView {
    Send { to: u64, msg: MessageView },
    Apply { index: u64, command: CommandView },
}

/// The values of a sequence of log entries.
pub open spec fn entries_view(s: Seq<LogEntry>) -> Seq<LogEntryView> {
    s.map_values(|e: LogEntry| e@)
}

/// The values of a sequence of actions.
pub open spec fn actions_view(s: Seq<Action>) -> Seq<ActionView> {
    s.map_values(|a: Action| a@)
}

/// Viewing a sequence with one more entry is viewing the shorter one and adding that entry's view.
pub proof fn lemma_entries_view_push(s: Seq<LogEntry>, e: LogEntry)
    ensures
        entries_view(s.push(e)) == entries_view(s).push(e@),
{
    assert(entries_view(s.push(e)) =~= entries_view(s).push(e@));
}

/// The view of a sequence of entries has its length, and its `i`-th element is the
/// view of the `i`-th entry.
pub proof fn lemma_entries_view_index(s: Seq<LogEntry>, i: int)
    ensures
        entries_view(s).len() == s.len(),
        0 <= i < s.len() ==> entries_view(s)[i] == s[i]@,
{
}

/// Viewing commutes with concatenation and with taking a prefix.
pub proof fn lemma_entries_view_add_take(a: Seq<LogEntry>, b: Seq<LogEntry>, n: int)
    requires
        0 <= n <= a.len(),
    ensures
        entries_view(a + b) == entries_view(a) + entries_view(b),
        entries_view(a.take(n)) == entries_view(a).take(n),
        entries_view(a).len() == a.len(),
{
    assert(entries_view(a + b) =~= entries_view(a) + entries_view(b));
    assert(entries_view(a.take(n)) =~= entries_view(a).take(n));
}

/// Viewing a sequence with one more action is viewing the shorter one and adding that action's view.
pub proof fn lemma_actions_view_push(s: Seq<Action>, a: Action)
    ensures
        actions_view(s.push(a)) == actions_view(s).push(a@),
{
    assert(actions_view(s.push(a)) =~= actions_view(s).push(a@));
}

impl View for LogEntry {
    type V = LogEntryView;

    open spec fn view(&self) -> LogEntryView {
        LogEntryView { term: self.term, data: self.data@ }
    }
}

impl View for AppendEntries {
    type V = AppendEntriesView;

    open spec fn view(&self) -> AppendEntriesView {
        AppendEntriesView {
            term: self.term,
            leader_id: self.leader_id,
            prev_log_index: self.prev_log_index,
            prev_log_term: self.prev_log_term,
            entries: entries_view(self.entries@),
            leader_commit_index: self.leader_commit_index,
        }
    }
}

impl View for Message {
    type V = MessageView;

    open spec fn view(&self) -> MessageView {
        match self {
            Message::RequestVote(r) => MessageView::RequestVote(*r),
            Message::AppendEntries(a) => MessageView::AppendEntries(a@),
            Message::RequestVoteResponse(r) => MessageView::RequestVoteResponse(*r),
            Message::AppendEntriesResponse(r) => MessageView::AppendEntriesResponse(*r),
        }
    }
}

impl View for Action {
    type V = ActionView;

    open spec fn view(&self) -> ActionView {
        match self {
            Action::Send { to, msg } => ActionView::Send { to: *to, msg: msg@ },
            Action::Apply { index, command } => ActionView::Apply { index: *index, command: command@ },
        }
    }
}

/// One server's Raft state and leader replication progress.
pub struct RaftNode {
    /// Unique ID of this node in the cluster.
    pub id: u64,
    /// (Persistent) Latest term this node has seen (monotonically increasing).
    pub term: u64,
    /// (Volatile) Current role of this node.
    pub role: Role,
    /// (Persistent) The node that this node voted for in the current term.
    pub voted_for: Option<u64>,
    /// (Persistent) Replicated log entries. Index 0 is a sentinel; real entries start at index 1.
    pub log: Vec<LogEntry>,
    /// (Volatile) Highest log index known to be committed.
    pub commit_index: u64,
    /// (Volatile) Highest log index applied to the state machine.
    pub last_applied: u64,
    /// (Volatile) Per-follower next log index to send (leader only).
    pub next_index: HashMap<u64, u64>,
    /// (Volatile) Per-follower highest replicated index (leader only).
    pub match_index: HashMap<u64, u64>,
    /// Peer IDs in the cluster (excludes self).
    pub peer_ids: Vec<u64>,
    /// (Volatile) Ticks to wait before starting an election when not leader.
    pub election_timeout: u64,
    /// (Volatile) Simulator tick at which the election timer fires.
    pub election_deadline: u64,
    /// (Volatile) Peers that granted a vote to this candidate in the current term.
    pub votes_granted: HashSet<u64>,
    /// (Volatile) Ticks between leader heartbeats (must be less than election timeout).
    pub heartbeat_interval: u64,
    /// (Volatile) Simulator tick at which the leader should send the next heartbeat.
    pub heartbeat_deadline: u64,
    /// (Volatile) Key-value state machine updated from committed log entries.
    pub state_machine: StateMachine,
}

/// The value of a [`RaftNode`]: its fields, with the log, maps, set and state
/// machine taken by their views.
pub struct RaftNodeView {
    pub id: u64,
    pub term: u64,
    pub role: Role,
    pub voted_for: Option<u64>,
    pub log: Seq<LogEntryView>,
    pub commit_index: u64,
    pub last_applied: u64,
    pub next_index: Map<u64, u64>,
    pub match_index: Map<u64, u64>,
    pub peer_ids: Seq<u64>,
    pub election_timeout: u64,
    pub election_deadline: u64,
    pub votes_granted: Set<u64>,
    pub heartbeat_interval: u64,
    pub heartbeat_deadline: u64,
    pub state_machine: Seq<CommandView>,
}

impl View for RaftNode {
    type V = RaftNodeView;

    open spec fn view(&self) -> RaftNodeView {
        RaftNodeView {
            id: self.id,
            term: self.term,
            role: self.role,
            voted_for: self.voted_for,
            log: entries_view(self.log@),
            commit_index: self.commit_index,
            last_applied: self.last_applied,
            next_index: self.next_index@,
            match_index: self.match_index@,
            peer_ids: self.peer_ids@,
            election_timeout: self.election_timeout,
            election_deadline: self.election_deadline,
            votes_granted: self.votes_granted@,
            heartbeat_interval: self.heartbeat_interval,
            heartbeat_deadline: self.heartbeat_deadline,
            state_machine: self.state_machine@,
        }
    }
}

} // verus!
