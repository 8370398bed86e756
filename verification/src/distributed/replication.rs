//! Replication: leader election and a replicated log, in the manner of Raft.

use vstd::prelude::*;

use crate::codec::copy_range;
use crate::storage::NodeId;
use crate::text::{copy_str, texts};

verus! {

/// Role of a replica.
#[derive(Debug, Clone, Copy, PartialEq, Eq, Structural)]
pub enum ReplicaState {
    /// Receives updates from a leader.
    Follower,
    /// Tries to become leader.
    Candidate,
    /// Coordinates writes.
    Leader,
}

/// Configuration of a replica.
#[derive(Debug)]
pub struct ReplicaConfig {
    /// Unique identifier of the replica.
    pub node_id: String,
    /// Addresses of the peers.
    pub peers: Vec<String>,
    /// Range of the election timeout in milliseconds.
    pub election_timeout_ms: (u64, u64),
    /// Interval of heartbeats in milliseconds.
    pub heartbeat_interval_ms: u64,
}

impl Default for ReplicaConfig {
    /// A replica without peers, under a random identifier.
    fn default() -> (r: Self)
        ensures
            r.node_id@.len() == 36,
            r.peers@.len() == 0,
            r.election_timeout_ms == (150u64, 300u64),
            r.heartbeat_interval_ms == 50,
    {
        ReplicaConfig {
            node_id: NodeId::new().to_string(),
            peers: Vec::new(),
            election_timeout_ms: (150, 300),
            heartbeat_interval_ms: 50,
        }
    }
}

/// Commands that are replicated. Payloads are serialized nodes, edges and identifiers.
#[derive(Debug, Clone)]
pub enum ReplicationCommand {
    /// Nothing; confirms a leader.
    Nop,
    /// Insert a node.
    InsertNode(Vec<u8>),
    /// Update a node.
    UpdateNode(Vec<u8>),
    /// Delete a node.
    DeleteNode(Vec<u8>),
    /// Insert an edge.
    InsertEdge(Vec<u8>),
    /// Delete an edge.
    DeleteEdge(Vec<u8>),
}

/// A command with its payload as a sequence.
pub enum CommandView {
    /// Nothing.
    Nop,
    /// Insert a node.
    InsertNode(Seq<u8>),
    /// Update a node.
    UpdateNode(Seq<u8>),
    /// Delete a node.
    DeleteNode(Seq<u8>),
    /// Insert an edge.
    InsertEdge(Seq<u8>),
    /// Delete an edge.
    DeleteEdge(Seq<u8>),
}

impl View for ReplicationCommand {
    type V = CommandView;

    open spec fn view(&self) -> CommandView {
        match *self {
            ReplicationCommand::Nop => CommandView::Nop,
            ReplicationCommand::InsertNode(b) => CommandView::InsertNode(b@),
            ReplicationCommand::UpdateNode(b) => CommandView::UpdateNode(b@),
            ReplicationCommand::DeleteNode(b) => CommandView::DeleteNode(b@),
            ReplicationCommand::InsertEdge(b) => CommandView::InsertEdge(b@),
            ReplicationCommand::DeleteEdge(b) => CommandView::DeleteEdge(b@),
        }
    }
}

impl ReplicationCommand {
    fn copy(&self) -> (r: Self)
        ensures
            r@ == self@,
    {
        match self {
            ReplicationCommand::Nop => ReplicationCommand::Nop,
            ReplicationCommand::InsertNode(b) => ReplicationCommand::InsertNode(copy_all(b)),
            ReplicationCommand::UpdateNode(b) => ReplicationCommand::UpdateNode(copy_all(b)),
            ReplicationCommand::DeleteNode(b) => ReplicationCommand::DeleteNode(copy_all(b)),
            ReplicationCommand::InsertEdge(b) => ReplicationCommand::InsertEdge(copy_all(b)),
            ReplicationCommand::DeleteEdge(b) => ReplicationCommand::DeleteEdge(copy_all(b)),
        }
    }
}

fn copy_all(b: &Vec<u8>) -> (r: Vec<u8>)
    ensures
        r@ == b@,
{
    let r = copy_range(b.as_slice(), 0, b.len());
    assert(r@ =~= b@);
    r
}

/// Entry of the replicated log.
#[derive(Debug, Clone)]
pub struct LogEntry {
    /// Term in which the entry was created.
    pub term: u64,
    /// Position in the log, from 1.
    pub index: u64,
    /// Command to execute.
    pub command: ReplicationCommand,
}

/// A log entry with its payload as a sequence.
pub struct EntryView {
    /// Term in which the entry was created.
    pub term: u64,
    /// Position in the log, from 1.
    pub index: u64,
    /// Command to execute.
    pub command: CommandView,
}

impl View for LogEntry {
    type V = EntryView;

    open spec fn view(&self) -> EntryView {
        EntryView { term: self.term, index: self.index, command: self.command@ }
    }
}

/// The views of some entries.
pub open spec fn entry_views(v: Seq<LogEntry>) -> Seq<EntryView> {
    v.map_values(|e: LogEntry| e@)
}

/// Messages of the consensus protocol.
#[derive(Debug, Clone)]
pub enum ConsensusMessage {
    /// A candidate asks for a vote.
    RequestVote {
        /// Term of the candidate.
        term: u64,
        /// Identifier of the candidate.
        candidate_id: String,
        /// Position of the candidate's last entry.
        last_log_index: u64,
        /// Term of the candidate's last entry.
        last_log_term: u64,
    },
    /// Answer to a request for a vote.
    VoteResponse {
        /// Term of the voter.
        term: u64,
        /// Whether the vote was given.
        vote_granted: bool,
    },
    /// A leader sends entries, or none as a heartbeat.
    AppendEntries {
        /// Term of the leader.
        term: u64,
        /// Identifier of the leader.
        leader_id: String,
        /// Position of the entry before the new ones.
        prev_log_index: u64,
        /// Term of the entry before the new ones.
        prev_log_term: u64,
        /// New entries.
        entries: Vec<LogEntry>,
        /// Position up to which the leader has committed.
        leader_commit: u64,
    },
    /// Answer to entries.
    AppendResponse {
        /// Term of the follower.
        term: u64,
        /// Whether the entries were taken.
        success: bool,
        /// Length of the follower's log.
        match_index: u64,
    },
}

/// The state of a replica.
#[verifier::ext_equal]
pub struct ReplicaView {
    /// Identifier of the replica.
    pub node_id: Seq<char>,
    /// Addresses of the peers.
    pub peers: Seq<Seq<char>>,
    /// Shortest and longest election timeout in milliseconds.
    pub timeout_ms: (u64, u64),
    /// Time between heartbeats in milliseconds.
    pub heartbeat_ms: u64,
    /// Role.
    pub state: ReplicaState,
    /// Current term.
    pub term: u64,
    /// Candidate that got the vote in the current term.
    pub voted_for: Option<Seq<char>>,
    /// Replicated log.
    pub log: Seq<EntryView>,
    /// Position up to which entries are committed.
    pub commit_index: u64,
    /// Position up to which entries are applied.
    pub last_applied: u64,
    /// For a leader, the next position to send to each peer.
    pub next_index: Seq<u64>,
    /// For a leader, the position known to be replicated on each peer.
    pub match_index: Seq<u64>,
    /// Time of the last heartbeat in milliseconds.
    pub last_heartbeat: u64,
    /// Known leader.
    pub leader: Option<Seq<char>>,
}

/// Term of the last entry, 0 in an empty log.
pub open spec fn last_term(log: Seq<EntryView>) -> u64 {
    if log.len() == 0 {
        0
    } else {
        log.last().term
    }
}

/// A log that ends at the given position and term is at least as new as `log`.
pub open spec fn up_to_date(log: Seq<EntryView>, index: u64, term: u64) -> bool {
    term > last_term(log) || (term == last_term(log) && index >= log.len())
}

/// A replica that has seen a term: a higher one makes it a follower without a vote.
pub open spec fn seen_term(r: ReplicaView, term: u64) -> ReplicaView {
    if term > r.term {
        ReplicaView { term, voted_for: None, state: ReplicaState::Follower, ..r }
    } else {
        r
    }
}

/// Whether a replica gives its vote: the candidate's term is not old, no other candidate
/// has the vote, and the candidate's log is at least as new.
pub open spec fn grants_vote(
    r: ReplicaView,
    term: u64,
    candidate: Seq<char>,
    last_log_index: u64,
    last_log_term: u64,
) -> bool {
    let s = seen_term(r, term);
    &&& term >= r.term
    &&& s.voted_for is None || s.voted_for == Some(candidate)
    &&& up_to_date(r.log, last_log_index, last_log_term)
}

/// The log after new entries were offered in order: one is taken where its position lies
/// behind the end.
pub open spec fn with_entries(log: Seq<EntryView>, entries: Seq<EntryView>) -> Seq<EntryView>
    decreases entries.len(),
{
    if entries.len() == 0 {
        log
    } else {
        let e = entries[0];
        with_entries(
            if e.index > log.len() {
                log.push(e)
            } else {
                log
            },
            entries.skip(1),
        )
    }
}

/// The log holds an entry of the given term at the given position; position 0 always fits.
pub open spec fn log_fits(log: Seq<EntryView>, index: u64, term: u64) -> bool {
    index == 0 || (index <= log.len() && log[index - 1].term == term)
}

/// The log after a position was found that does not fit: a conflicting entry goes, with
/// all behind it.
pub open spec fn without_conflict(log: Seq<EntryView>, index: u64) -> Seq<EntryView> {
    if index <= log.len() {
        log.take(index - 1)
    } else {
        log
    }
}

/// A replica after entries from a leader of a term that is not old.
pub open spec fn appended(
    r: ReplicaView,
    term: u64,
    leader: Seq<char>,
    prev_log_index: u64,
    prev_log_term: u64,
    entries: Seq<EntryView>,
    leader_commit: u64,
    now: u64,
) -> ReplicaView {
    let s = ReplicaView {
        term,
        voted_for: if term > r.term {
            None
        } else {
            r.voted_for
        },
        state: ReplicaState::Follower,
        leader: Some(leader),
        last_heartbeat: now,
        ..r
    };
    if !log_fits(r.log, prev_log_index, prev_log_term) {
        ReplicaView { log: without_conflict(r.log, prev_log_index), ..s }
    } else {
        let log = with_entries(r.log, entries);
        ReplicaView {
            log,
            commit_index: if leader_commit > r.commit_index {
                if leader_commit < log.len() {
                    leader_commit
                } else {
                    log.len() as u64
                }
            } else {
                r.commit_index
            },
            ..s
        }
    }
}

/// One replica of a replicated database.
pub struct ReplicaSet {
    config: ReplicaConfig,
    state: ReplicaState,
    current_term: u64,
    voted_for: Option<String>,
    log: Vec<LogEntry>,
    commit_index: u64,
    last_applied: u64,
    next_index: Vec<u64>,
    match_index: Vec<u64>,
    last_heartbeat: u64,
    leader_id: Option<String>,
}

/// An optional string by its characters.
pub open spec fn opt_text(s: Option<String>) -> Option<Seq<char>> {
    match s {
        None => None,
        Some(t) => Some(t@),
    }
}

impl View for ReplicaSet {
    type V = ReplicaView;

    closed spec fn view(&self) -> ReplicaView {
        ReplicaView {
            node_id: self.config.node_id@,
            peers: texts(self.config.peers@),
            timeout_ms: self.config.election_timeout_ms,
            heartbeat_ms: self.config.heartbeat_interval_ms,
            state: self.state,
            term: self.current_term,
            voted_for: opt_text(self.voted_for),
            log: entry_views(self.log@),
            commit_index: self.commit_index,
            last_applied: self.last_applied,
            next_index: self.next_index@,
            match_index: self.match_index@,
            last_heartbeat: self.last_heartbeat,
            leader: opt_text(self.leader_id),
        }
    }
}

impl ReplicaSet {
    /// Creates a follower of term 0 with an empty log, at the given time.
    pub fn new(config: ReplicaConfig, now: u64) -> (r: Self)
        ensures
            r@ == (ReplicaView {
                node_id: config.node_id@,
                peers: texts(config.peers@),
                timeout_ms: config.election_timeout_ms,
                heartbeat_ms: config.heartbeat_interval_ms,
                state: ReplicaState::Follower,
                term: 0,
                voted_for: None,
                log: Seq::empty(),
                commit_index: 0,
                last_applied: 0,
                next_index: Seq::empty(),
                match_index: Seq::empty(),
                last_heartbeat: now,
                leader: None,
            }),
    {
        let r = ReplicaSet {
            config,
            state: ReplicaState::Follower,
            current_term: 0,
            voted_for: None,
            log: Vec::new(),
            commit_index: 0,
            last_applied: 0,
            next_index: Vec::new(),
            match_index: Vec::new(),
            last_heartbeat: now,
            leader_id: None,
        };
        assert(r@.log =~= Seq::<EntryView>::empty());
        r
    }

    /// Role of the replica.
    pub fn state(&self) -> (r: ReplicaState)
        ensures
            r == self@.state,
    {
        self.state
    }

    /// Current term.
    pub fn term(&self) -> (r: u64)
        ensures
            r == self@.term,
    {
        self.current_term
    }

    /// Whether the replica is the leader.
    pub fn is_leader(&self) -> (r: bool)
        ensures
            r == (self@.state == ReplicaState::Leader),
    {
        self.state == ReplicaState::Leader
    }

    /// Identifier of the known leader.
    pub fn leader(&self) -> (r: Option<String>)
        ensures
            opt_text(r) == self@.leader,
    {
        match &self.leader_id {
            None => None,
            Some(l) => Some(copy_str(l.as_str())),
        }
    }

    /// Identifier of the replica.
    pub fn node_id(&self) -> (r: &str)
        ensures
            r@ == self@.node_id,
    {
        self.config.node_id.as_str()
    }

    /// Appends a command to the log. Only a leader can; any other replica refuses and
    /// keeps its state.
    pub fn append_command(&mut self, command: ReplicationCommand) -> (r: Result<u64, NotLeader>)
        requires
            old(self)@.log.len() < u64::MAX,
        ensures
            r is Ok <==> old(self)@.state == ReplicaState::Leader,
            r is Err ==> *final(self) == *old(self),
            r matches Ok(index) ==> {
                &&& index == old(self)@.log.len() + 1
                &&& final(self)@ == (ReplicaView {
                    log: old(self)@.log.push(
                        EntryView { term: old(self)@.term, index, command: command@ },
                    ),
                    ..old(self)@
                })
            },
    {
        if !self.is_leader() {
            return Err(NotLeader);
        }
        let index: u64 = self.log.len() as u64 + 1;
        self.log.push(LogEntry { term: self.current_term, index, command });
        proof {
            let e = EntryView { term: old(self)@.term, index, command: command@ };
            assert(self@.log =~= old(self)@.log.push(e));
        }
        Ok(index)
    }

    /// Takes a message and returns the answer that it is owed, if any.
    pub fn process_message(&mut self, msg: ConsensusMessage, now: u64) -> (r: Option<
        ConsensusMessage,
    >)
        ensures
            match msg {
                ConsensusMessage::RequestVote {
                    term,
                    candidate_id,
                    last_log_index,
                    last_log_term,
                } => {
                    let granted = grants_vote(
                        old(self)@,
                        term,
                        candidate_id@,
                        last_log_index,
                        last_log_term,
                    );
                    &&& final(self)@ == voted(old(self)@, term, candidate_id@, granted, now)
                    &&& r == Some(
                        ConsensusMessage::VoteResponse {
                            term: final(self)@.term,
                            vote_granted: granted,
                        },
                    )
                },
                ConsensusMessage::AppendEntries {
                    term,
                    leader_id,
                    prev_log_index,
                    prev_log_term,
                    entries,
                    leader_commit,
                } => if term < old(self)@.term {
                    &&& final(self)@ == old(self)@
                    &&& r == Some(
                        ConsensusMessage::AppendResponse {
                            term: old(self)@.term,
                            success: false,
                            match_index: 0,
                        },
                    )
                } else {
                    &&& final(self)@ == appended(
                        old(self)@,
                        term,
                        leader_id@,
                        prev_log_index,
                        prev_log_term,
                        entry_views(entries@),
                        leader_commit,
                        now,
                    )
                    &&& r == Some(
                        ConsensusMessage::AppendResponse {
                            term,
                            success: log_fits(old(self)@.log, prev_log_index, prev_log_term),
                            match_index: final(self)@.log.len() as u64,
                        },
                    )
                },
                ConsensusMessage::VoteResponse { term, vote_granted } => r is None && final(self)@
                    == seen_term(old(self)@, term),
                ConsensusMessage::AppendResponse { term, success, match_index } => r is None
                    && final(self)@ == seen_term(old(self)@, term),
            },
    {
        match msg {
            ConsensusMessage::RequestVote {
                term,
                candidate_id,
                last_log_index,
                last_log_term,
            } => Some(
                self.handle_request_vote(term, candidate_id, last_log_index, last_log_term, now),
            ),
            ConsensusMessage::AppendEntries {
                term,
                leader_id,
                prev_log_index,
                prev_log_term,
                entries,
                leader_commit,
            } => Some(
                self.handle_append_entries(
                    term,
                    leader_id,
                    prev_log_index,
                    prev_log_term,
                    entries,
                    leader_commit,
                    now,
                ),
            ),
            ConsensusMessage::VoteResponse { term, vote_granted } => {
                self.handle_vote_response(term, vote_granted);
                None
            },
            ConsensusMessage::AppendResponse { term, success, match_index } => {
                self.handle_append_response(term, success, match_index);
                None
            },
        }
    }

    fn see_term(&mut self, term: u64)
        ensures
            final(self)@ == seen_term(old(self)@, term),
            final(self).log == old(self).log,
    {
        if term > self.current_term {
            self.current_term = term;
            self.voted_for = None;
            self.state = ReplicaState::Follower;
        }
    }

    /// Answers a request for a vote.
    pub fn handle_request_vote(
        &mut self,
        term: u64,
        candidate_id: String,
        last_log_index: u64,
        last_log_term: u64,
        now: u64,
    ) -> (r: ConsensusMessage)
        ensures
            ({
                let granted = grants_vote(
                    old(self)@,
                    term,
                    candidate_id@,
                    last_log_index,
                    last_log_term,
                );
                &&& final(self)@ == voted(old(self)@, term, candidate_id@, granted, now)
                &&& r == (ConsensusMessage::VoteResponse {
                    term: final(self)@.term,
                    vote_granted: granted,
                })
            }),
    {
        self.see_term(term);
        let free: bool = match &self.voted_for {
            None => true,
            Some(v) => *v == candidate_id,
        };
        let our_last_term: u64 = self.last_log_term();
        let our_last_index: u64 = self.log.len() as u64;
        let log_ok: bool = last_log_term > our_last_term || (last_log_term == our_last_term
            && last_log_index >= our_last_index);
        let vote_granted: bool = term >= self.current_term && free && log_ok;
        assert(vote_granted == grants_vote(
            old(self)@,
            term,
            candidate_id@,
            last_log_index,
            last_log_term,
        ));
        if vote_granted {
            self.voted_for = Some(candidate_id);
            self.last_heartbeat = now;
        }
        ConsensusMessage::VoteResponse { term: self.current_term, vote_granted }
    }

    fn last_log_term(&self) -> (r: u64)
        ensures
            r == last_term(self@.log),
    {
        if self.log.len() == 0 {
            0
        } else {
            self.log[self.log.len() - 1].term
        }
    }

    /// Answers entries of a leader, or its heartbeat.
    pub fn handle_append_entries(
        &mut self,
        term: u64,
        leader_id: String,
        prev_log_index: u64,
        prev_log_term: u64,
        entries: Vec<LogEntry>,
        leader_commit: u64,
        now: u64,
    ) -> (r: ConsensusMessage)
        ensures
            term < old(self)@.term ==> final(self)@ == old(self)@ && r == (
            ConsensusMessage::AppendResponse {
                term: old(self)@.term,
                success: false,
                match_index: 0,
            }),
            term >= old(self)@.term ==> {
                &&& final(self)@ == appended(
                    old(self)@,
                    term,
                    leader_id@,
                    prev_log_index,
                    prev_log_term,
                    entry_views(entries@),
                    leader_commit,
                    now,
                )
                &&& r == (ConsensusMessage::AppendResponse {
                    term,
                    success: log_fits(old(self)@.log, prev_log_index, prev_log_term),
                    match_index: final(self)@.log.len() as u64,
                })
                &&& final(self)@.log.len() <= u64::MAX
            },
    {
        if term < self.current_term {
            return ConsensusMessage::AppendResponse {
                term: self.current_term,
                success: false,
                match_index: 0,
            };
        }
        if term > self.current_term {
            self.current_term = term;
            self.voted_for = None;
        }
        self.state = ReplicaState::Follower;
        self.leader_id = Some(leader_id);
        self.last_heartbeat = now;
        let ghost before = *self;
        if prev_log_index > 0 {
            if prev_log_index <= self.log.len() as u64 {
                let at: usize = (prev_log_index - 1) as usize;
                if self.log[at].term != prev_log_term {
                    self.log.truncate(at);
                    assert(self@.log =~= old(self)@.log.take(at as int));
                    return ConsensusMessage::AppendResponse {
                        term: self.current_term,
                        success: false,
                        match_index: self.log.len() as u64,
                    };
                }
            } else {
                return ConsensusMessage::AppendResponse {
                    term: self.current_term,
                    success: false,
                    match_index: self.log.len() as u64,
                };
            }
        }
        self.take_entries(entries);
        if leader_commit > self.commit_index {
            let len: u64 = self.log.len() as u64;
            self.commit_index = if leader_commit < len {
                leader_commit
            } else {
                len
            };
        }
        ConsensusMessage::AppendResponse {
            term: self.current_term,
            success: true,
            match_index: self.log.len() as u64,
        }
    }

    fn take_entries(&mut self, entries: Vec<LogEntry>)
        ensures
            final(self)@ == (ReplicaView {
                log: with_entries(old(self)@.log, entry_views(entries@)),
                ..old(self)@
            }),
    {
        let ghost goal = with_entries(old(self)@.log, entry_views(entries@));
        let ghost start = self@;
        // Turned around once, so that the entries can be moved out in order.
        let mut rest = entries;
        let mut queue: Vec<LogEntry> = Vec::new();
        let ghost all = rest@;
        while rest.len() > 0
            invariant
                rest@ + queue@.reverse() == all,
            decreases rest@.len(),
        {
            let ghost had = rest@;
            let ghost q = queue@;
            match rest.pop() {
                None => {},
                Some(e) => {
                    queue.push(e);
                    proof {
                        assert(had =~= rest@.push(e));
                        assert(queue@.reverse() =~= seq![e] + q.reverse());
                        assert(rest@ + queue@.reverse() =~= had + q.reverse());
                    }
                },
            }
        }
        assert(queue@.reverse() =~= all);
        while queue.len() > 0
            invariant
                with_entries(self@.log, entry_views(queue@.reverse())) == goal,
                self@ == (ReplicaView { log: self@.log, ..start }),
            decreases queue@.len(),
        {
            let ghost q = queue@;
            let ghost had = self.log@;
            match queue.pop() {
                None => {},
                Some(e) => {
                    proof {
                        let v = entry_views(q.reverse());
                        assert(v[0] == e@);
                        assert(v.skip(1) =~= entry_views(queue@.reverse()));
                    }
                    if e.index > self.log.len() as u64 {
                        let ghost ev = e@;
                        self.log.push(e);
                        assert(self@.log =~= entry_views(had).push(ev));
                    }
                },
            }
        }
        assert(entry_views(queue@.reverse()) =~= Seq::<EntryView>::empty());
    }

    /// Takes the answer to a request for a vote.
    pub fn handle_vote_response(&mut self, term: u64, vote_granted: bool)
        ensures
            final(self)@ == seen_term(old(self)@, term),
    {
        self.see_term(term);
    }

    /// Takes the answer to entries.
    pub fn handle_append_response(&mut self, term: u64, success: bool, match_index: u64)
        ensures
            final(self)@ == seen_term(old(self)@, term),
    {
        self.see_term(term);
    }

    /// Starts an election: the replica becomes a candidate of the next term and votes for
    /// itself. Returns the request for the peers.
    pub fn start_election(&mut self) -> (r: ConsensusMessage)
        requires
            old(self)@.term < u64::MAX,
        ensures
            final(self)@ == (ReplicaView {
                term: (old(self)@.term + 1) as u64,
                state: ReplicaState::Candidate,
                voted_for: Some(old(self)@.node_id),
                ..old(self)@
            }),
            r matches ConsensusMessage::RequestVote {
                term,
                candidate_id,
                last_log_index,
                last_log_term,
            } && term == final(self)@.term && candidate_id@ == old(self)@.node_id && last_log_index
                == old(self)@.log.len() && last_log_term == last_term(old(self)@.log),
    {
        self.current_term = self.current_term + 1;
        self.state = ReplicaState::Candidate;
        self.voted_for = Some(copy_str(self.config.node_id.as_str()));
        ConsensusMessage::RequestVote {
            term: self.current_term,
            candidate_id: copy_str(self.config.node_id.as_str()),
            last_log_index: self.log.len() as u64,
            last_log_term: self.last_log_term(),
        }
    }

    /// Makes the replica the leader. Every peer is to be sent what follows the log's end.
    pub fn become_leader(&mut self)
        requires
            old(self)@.log.len() < u64::MAX,
        ensures
            final(self)@ == (ReplicaView {
                state: ReplicaState::Leader,
                leader: Some(old(self)@.node_id),
                next_index: Seq::new(
                    old(self)@.peers.len(),
                    |i: int| (old(self)@.log.len() + 1) as u64,
                ),
                match_index: Seq::new(old(self)@.peers.len(), |i: int| 0u64),
                ..old(self)@
            }),
    {
        self.state = ReplicaState::Leader;
        self.leader_id = Some(copy_str(self.config.node_id.as_str()));
        let next: u64 = self.log.len() as u64 + 1;
        let mut next_index: Vec<u64> = Vec::new();
        let mut match_index: Vec<u64> = Vec::new();
        let peers: usize = self.config.peers.len();
        let mut i: usize = 0;
        while i < peers
            invariant
                i <= peers,
                next_index@ == Seq::new(i as nat, |j: int| next),
                match_index@ == Seq::new(i as nat, |j: int| 0u64),
            decreases peers - i,
        {
            next_index.push(next);
            match_index.push(0);
            i = i + 1;
            assert(next_index@ =~= Seq::new(i as nat, |j: int| next));
            assert(match_index@ =~= Seq::new(i as nat, |j: int| 0u64));
        }
        self.next_index = next_index;
        self.match_index = match_index;
    }

    /// The heartbeat of this replica: no entries, behind the log's end.
    pub fn create_heartbeat(&self) -> (r: ConsensusMessage)
        ensures
            r matches ConsensusMessage::AppendEntries {
                term,
                leader_id,
                prev_log_index,
                prev_log_term,
                entries,
                leader_commit,
            } && term == self@.term && leader_id@ == self@.node_id && prev_log_index
                == self@.log.len() && prev_log_term == last_term(self@.log) && entries@.len() == 0
                && leader_commit == self@.commit_index,
    {
        ConsensusMessage::AppendEntries {
            term: self.current_term,
            leader_id: copy_str(self.config.node_id.as_str()),
            prev_log_index: self.log.len() as u64,
            prev_log_term: self.last_log_term(),
            entries: Vec::new(),
            leader_commit: self.commit_index,
        }
    }

    /// Whether more than the shortest election timeout has passed since the last heartbeat.
    pub fn election_timeout_elapsed(&self, now: u64) -> (r: bool)
        ensures
            r == (now - self@.last_heartbeat > self@.timeout_ms.0),
    {
        now >= self.last_heartbeat && now - self.last_heartbeat > self.config.election_timeout_ms.0
    }

    /// Committed entries that are still to be applied.
    pub fn get_unapplied_entries(&self) -> (r: Vec<LogEntry>)
        requires
            self@.last_applied <= self@.commit_index,
        ensures
            entry_views(r@) == unapplied(self@),
    {
        let len: usize = self.log.len();
        let end: usize = if self.commit_index < len as u64 {
            self.commit_index as usize
        } else {
            len
        };
        let mut out: Vec<LogEntry> = Vec::new();
        if self.last_applied >= end as u64 {
            assert(entry_views(out@) =~= unapplied(self@));
            return out;
        }
        let start: usize = self.last_applied as usize;
        let mut at: usize = start;
        while at < end
            invariant
                start <= at <= end <= self.log@.len(),
                out@.len() == at - start,
                forall|i: int|
                    0 <= i < out@.len() ==> (#[trigger] out@[i])@ == self.log@[start + i]@,
            decreases end - at,
        {
            let e = &self.log[at];
            out.push(LogEntry { term: e.term, index: e.index, command: e.command.copy() });
            at = at + 1;
        }
        assert(entry_views(out@) =~= unapplied(self@));
        out
    }

    /// Marks entries as applied; going back is ignored.
    pub fn mark_applied(&mut self, up_to: u64)
        ensures
            final(self)@ == (ReplicaView {
                last_applied: if up_to > old(self)@.last_applied {
                    up_to
                } else {
                    old(self)@.last_applied
                },
                ..old(self)@
            }),
    {
        if up_to > self.last_applied {
            self.last_applied = up_to;
        }
    }
}

/// Refusal of a replica that is not the leader.
#[derive(Debug, Clone, Copy, PartialEq, Eq, Structural)]
pub struct NotLeader;

impl NotLeader {
    /// The message of the refusal.
    pub fn message(&self) -> (s: String)
        ensures
            s@ == "Not the leader"@,
    {
        copy_str("Not the leader")
    }
}

/// A replica after a request for its vote.
pub open spec fn voted(
    r: ReplicaView,
    term: u64,
    candidate: Seq<char>,
    granted: bool,
    now: u64,
) -> ReplicaView {
    let s = seen_term(r, term);
    if granted {
        ReplicaView { voted_for: Some(candidate), last_heartbeat: now, ..s }
    } else {
        s
    }
}

/// Committed entries that are still to be applied: what the log holds behind the applied
/// position, up to the committed one.
pub open spec fn unapplied(r: ReplicaView) -> Seq<EntryView> {
    let end = if r.commit_index < r.log.len() {
        r.commit_index as int
    } else {
        r.log.len() as int
    };
    if r.last_applied >= end {
        Seq::empty()
    } else {
        r.log.subrange(r.last_applied as int, end)
    }
}

/// One step of a replica: a message, an election, a command, a promotion or an application.
pub enum Step {
    /// A request for a vote arrived.
    Vote(u64, Seq<char>, u64, u64, u64),
    /// Entries arrived.
    Append(u64, Seq<char>, u64, u64, Seq<EntryView>, u64, u64),
    /// An answer of the given term arrived.
    Answer(u64),
    /// An election was started.
    Elect,
    /// A command was appended.
    Command(CommandView),
    /// The replica was made leader.
    Promote,
    /// Entries were applied.
    Apply(u64),
}

/// The state after a step.
pub open spec fn stepped(r: ReplicaView, step: Step) -> ReplicaView {
    match step {
        Step::Vote(term, candidate, index, last, now) => voted(
            r,
            term,
            candidate,
            grants_vote(r, term, candidate, index, last),
            now,
        ),
        Step::Append(term, leader, index, last, entries, commit, now) => if term < r.term {
            r
        } else {
            appended(r, term, leader, index, last, entries, commit, now)
        },
        Step::Answer(term) => seen_term(r, term),
        Step::Elect => ReplicaView {
            term: (r.term + 1) as u64,
            state: ReplicaState::Candidate,
            voted_for: Some(r.node_id),
            ..r
        },
        Step::Command(command) => if r.state == ReplicaState::Leader {
            ReplicaView {
                log: r.log.push(
                    EntryView { term: r.term, index: (r.log.len() + 1) as u64, command },
                ),
                ..r
            }
        } else {
            r
        },
        Step::Promote => ReplicaView {
            state: ReplicaState::Leader,
            leader: Some(r.node_id),
            next_index: Seq::new(r.peers.len(), |i: int| (r.log.len() + 1) as u64),
            match_index: Seq::new(r.peers.len(), |i: int| 0u64),
            ..r
        },
        Step::Apply(up_to) => ReplicaView {
            last_applied: if up_to > r.last_applied {
                up_to
            } else {
                r.last_applied
            },
            ..r
        },
    }
}

/// The term never goes back, in any step.
pub proof fn law_term_never_decreases(r: ReplicaView, step: Step)
    requires
        step is Elect ==> r.term < u64::MAX,
    ensures
        stepped(r, step).term >= r.term,
{
}

/// A replica votes at most once per term: a vote stands until the term changes.
pub proof fn law_one_vote_per_term(r: ReplicaView, step: Step)
    requires
        step is Elect ==> r.term < u64::MAX,
        r.voted_for is Some,
        stepped(r, step).term == r.term,
    ensures
        stepped(r, step).voted_for == r.voted_for,
{
}

/// A leader is never deposed nor refused a command within its term by answers or by
/// requests for votes of that term or of older ones.
pub proof fn law_leader_keeps_its_term(r: ReplicaView, step: Step)
    requires
        r.state == ReplicaState::Leader,
        step is Vote || step is Answer || step is Command || step is Apply,
        stepped(r, step).term == r.term,
    ensures
        stepped(r, step).state == ReplicaState::Leader,
{
}

/// A message of an old term is refused and changes nothing.
pub proof fn law_old_terms_are_refused(
    r: ReplicaView,
    term: u64,
    id: Seq<char>,
    index: u64,
    last: u64,
    entries: Seq<EntryView>,
    commit: u64,
    now: u64,
)
    requires
        term < r.term,
    ensures
        !grants_vote(r, term, id, index, last),
        stepped(r, Step::Vote(term, id, index, last, now)) == r,
        stepped(r, Step::Append(term, id, index, last, entries, commit, now)) == r,
        stepped(r, Step::Answer(term)) == r,
{
}

/// Only a candidate whose log is at least as new as the voter's gets a vote.
pub proof fn law_votes_go_to_newer_logs(
    r: ReplicaView,
    term: u64,
    candidate: Seq<char>,
    index: u64,
    last: u64,
)
    requires
        grants_vote(r, term, candidate, index, last),
    ensures
        last >= last_term(r.log),
        last == last_term(r.log) ==> index >= r.log.len(),
{
}

/// A vote is granted exactly where the term is not old, the voter has no vote in it for another
/// candidate, and the candidate's log is at least as new. The term becomes the later of the two,
/// the log stays as it is, and once a vote is granted, another candidate of the same term is
/// refused.
pub proof fn law_vote(
    r: ReplicaView,
    term: u64,
    candidate: Seq<char>,
    index: u64,
    last: u64,
    now: u64,
    other: Seq<char>,
    other_index: u64,
    other_last: u64,
)
    ensures
        ({
            let granted = grants_vote(r, term, candidate, index, last);
            let after = voted(r, term, candidate, granted, now);
            &&& granted <==> term >= r.term && (term > r.term || r.voted_for is None || r.voted_for
                == Some(candidate)) && (last > last_term(r.log) || (last == last_term(r.log) && index
                >= r.log.len()))
            &&& after.term == (if term > r.term {
                term
            } else {
                r.term
            })
            &&& after.log == r.log
            &&& granted && other != candidate ==> !grants_vote(
                after,
                term,
                other,
                other_index,
                other_last,
            )
        }),
{
}

/// What new entries, in order behind a position that the log reaches, add to the log: those
/// whose positions lie behind its end.
pub proof fn lemma_entries_behind_the_end(
    log: Seq<EntryView>,
    prev: u64,
    entries: Seq<EntryView>,
)
    requires
        follows(log, prev, entries),
    ensures
        with_entries(log, entries) == log + entries.skip(
            if log.len() - prev < entries.len() {
                log.len() - prev
            } else {
                entries.len() as int
            },
        ),
    decreases entries.len(),
{
    if entries.len() == 0 {
        assert(log + entries.skip(0) =~= log);
    } else {
        let e = entries[0];
        let more = entries.skip(1);
        assert(e.index == prev + 1);
        assert forall|i: int| 0 <= i < more.len() implies (#[trigger] more[i]).index == prev + 1 + 1
            + i by {
            assert(more[i] == entries[i + 1]);
        }
        if prev == log.len() {
            let next = log.push(e);
            lemma_entries_behind_the_end(next, (prev + 1) as u64, more);
            assert(next + more.skip(0) =~= log + entries.skip(0));
        } else {
            let n = if log.len() - prev < entries.len() {
                log.len() - prev
            } else {
                entries.len() as int
            };
            lemma_entries_behind_the_end(log, (prev + 1) as u64, more);
            assert(more.skip(n - 1) =~= entries.skip(n));
        }
    }
}

/// Entries of a leader are refused exactly where its term is old or the log does not fit. An old
/// term changes nothing. Where they are taken, the replica follows the leader in the leader's
/// term, and its log goes on with those entries whose positions lie behind its end.
pub proof fn law_append(
    r: ReplicaView,
    term: u64,
    leader: Seq<char>,
    prev: u64,
    last: u64,
    entries: Seq<EntryView>,
    commit: u64,
    now: u64,
)
    requires
        log_fits(r.log, prev, last) ==> follows(r.log, prev, entries),
    ensures
        ({
            let after = stepped(r, Step::Append(term, leader, prev, last, entries, commit, now));
            let have = r.log.len() - prev;
            &&& log_fits(r.log, prev, last) <==> prev == 0 || (prev <= r.log.len() && r.log[prev
                - 1].term == last)
            &&& term < r.term ==> after == r
            &&& after.term == (if term > r.term {
                term
            } else {
                r.term
            })
            &&& term >= r.term && log_fits(r.log, prev, last) ==> {
                &&& after.state == ReplicaState::Follower
                &&& after.leader == Some(leader)
                &&& after.log == r.log + entries.skip(
                    if have < entries.len() {
                        have
                    } else {
                        entries.len() as int
                    },
                )
            }
        }),
{
    if log_fits(r.log, prev, last) {
        lemma_entries_behind_the_end(r.log, prev, entries);
    }
}

/// Positions of a log are its indices, from 1.
pub open spec fn contiguous(log: Seq<EntryView>) -> bool {
    forall|i: int| 0 <= i < log.len() ==> (#[trigger] log[i]).index == i + 1
}

/// Entries that follow one another from a position that the log reaches.
pub open spec fn follows(log: Seq<EntryView>, prev: u64, entries: Seq<EntryView>) -> bool {
    &&& prev <= log.len()
    &&& prev + entries.len() <= u64::MAX
    &&& forall|i: int| 0 <= i < entries.len() ==> (#[trigger] entries[i]).index == prev + 1 + i
}

/// Offered entries leave what the log holds in place.
pub proof fn lemma_with_entries_extends(log: Seq<EntryView>, entries: Seq<EntryView>)
    ensures
        log.len() <= with_entries(log, entries).len(),
        with_entries(log, entries).take(log.len() as int) == log,
    decreases entries.len(),
{
    if entries.len() == 0 {
        assert(log.take(log.len() as int) =~= log);
    } else {
        let e = entries[0];
        let next = if e.index > log.len() {
            log.push(e)
        } else {
            log
        };
        lemma_with_entries_extends(next, entries.skip(1));
        let out = with_entries(log, entries);
        assert(out.take(log.len() as int) =~= out.take(next.len() as int).take(log.len() as int));
        assert(next.take(log.len() as int) =~= log);
    }
}

/// Entries that follow one another keep the log's positions in order, are all in the log
/// afterwards, and leave the entries that were there in place.
pub proof fn law_entries_keep_positions(log: Seq<EntryView>, prev: u64, entries: Seq<EntryView>)
    requires
        contiguous(log),
        follows(log, prev, entries),
    ensures
        contiguous(with_entries(log, entries)),
        with_entries(log, entries).len() == (if log.len() > prev + entries.len() {
            log.len() as int
        } else {
            prev + entries.len()
        }),
        with_entries(log, entries).take(log.len() as int) == log,
    decreases entries.len(),
{
    lemma_with_entries_extends(log, entries);
    if entries.len() > 0 {
        let e = entries[0];
        let next = if e.index > log.len() {
            log.push(e)
        } else {
            log
        };
        let more = entries.skip(1);
        assert(e.index == prev + 1);
        assert forall|i: int| 0 <= i < more.len() implies (#[trigger] more[i]).index == prev + 1 + 1
            + i by {
            assert(more[i] == entries[i + 1]);
        }
        law_entries_keep_positions(next, (prev + 1) as u64, more);
    }
}

/// A leader's command keeps the log's positions in order.
pub proof fn law_command_keeps_positions(r: ReplicaView, command: CommandView)
    requires
        contiguous(r.log),
        r.log.len() < u64::MAX,
    ensures
        contiguous(stepped(r, Step::Command(command)).log),
{
}

/// The committed position never goes back and never passes the log's end, as long as a
/// conflict is not reported at or before a committed entry.
pub proof fn law_commit_index(
    r: ReplicaView,
    term: u64,
    leader: Seq<char>,
    prev: u64,
    last: u64,
    entries: Seq<EntryView>,
    commit: u64,
    now: u64,
)
    requires
        r.commit_index <= r.log.len(),
        log_fits(r.log, prev, last) || prev > r.commit_index,
    ensures
        ({
            let after = stepped(r, Step::Append(term, leader, prev, last, entries, commit, now));
            &&& r.commit_index <= after.commit_index <= after.log.len()
            &&& after.log.take(r.commit_index as int) == r.log.take(r.commit_index as int)
        }),
{
    lemma_with_entries_extends(r.log, entries);
    let after = stepped(r, Step::Append(term, leader, prev, last, entries, commit, now));
    let c = r.commit_index as int;
    if term >= r.term && log_fits(r.log, prev, last) {
        assert(after.log.take(c) =~= after.log.take(r.log.len() as int).take(c));
    }
    assert(after.log.take(c) =~= r.log.take(c));
}

/// Applying what `get_unapplied_entries` hands out, and marking it, leaves nothing to
/// apply.
pub proof fn law_applied_entries_are_not_handed_out_again(r: ReplicaView)
    requires
        r.last_applied <= r.commit_index <= r.log.len(),
    ensures
        unapplied(r).len() == r.commit_index - r.last_applied,
        unapplied(stepped(r, Step::Apply(r.commit_index))).len() == 0,
{
}

/// A leader whose term is not old is heard: the replica follows it from then on, in its term, and
/// keeps its vote unless the term is a later one. A log that does not fit loses the entry in
/// conflict and all behind it, and nothing where it is too short; nothing is committed then.
pub proof fn law_leader_is_heard(
    r: ReplicaView,
    term: u64,
    leader: Seq<char>,
    prev: u64,
    last: u64,
    entries: Seq<EntryView>,
    commit: u64,
    now: u64,
)
    requires
        term >= r.term,
    ensures
        ({
            let after = stepped(r, Step::Append(term, leader, prev, last, entries, commit, now));
            let fits = prev == 0 || (prev <= r.log.len() && r.log[prev - 1].term == last);
            &&& after.state == ReplicaState::Follower
            &&& after.leader == Some(leader)
            &&& after.last_heartbeat == now
            &&& after.term == term
            &&& term == r.term ==> after.voted_for == r.voted_for
            &&& term > r.term ==> after.voted_for is None
            &&& !fits && prev > r.log.len() ==> after.log == r.log
            &&& !fits && prev <= r.log.len() ==> after.log.len() == prev - 1 && forall|i: int|
                0 <= i < prev - 1 ==> after.log[i] == r.log[i]
            &&& !fits ==> after.commit_index == r.commit_index
            &&& fits && commit <= r.commit_index ==> after.commit_index == r.commit_index
            &&& fits && r.commit_index < commit <= after.log.len() ==> after.commit_index == commit
            &&& fits && r.commit_index < commit && after.log.len() < commit
                ==> after.commit_index == after.log.len() as u64
            &&& after.last_applied == r.last_applied
            &&& after.node_id == r.node_id
            &&& after.peers == r.peers
        }),
{
}

/// A later term makes a replica a follower without a vote, whoever tells of it; any other term
/// changes nothing by itself. A vote that is granted counts as a sign of life.
pub proof fn law_later_term_is_followed(
    r: ReplicaView,
    term: u64,
    candidate: Seq<char>,
    index: u64,
    last: u64,
    now: u64,
)
    ensures
        ({
            let told = stepped(r, Step::Answer(term));
            let asked = stepped(r, Step::Vote(term, candidate, index, last, now));
            let granted = grants_vote(r, term, candidate, index, last);
            &&& term <= r.term ==> told == r
            &&& term > r.term ==> told.term == term && told.voted_for is None && told.state
                == ReplicaState::Follower && told.log == r.log && told.commit_index
                == r.commit_index
            &&& granted ==> asked.voted_for == Some(candidate) && asked.last_heartbeat == now
            &&& !granted ==> asked == told
            &&& asked.state == told.state
            &&& asked.log == r.log
        }),
{
}

/// What is to be applied are the entries behind the last that was applied, up to the last that is
/// committed and in the log.
pub proof fn law_unapplied(r: ReplicaView, i: int)
    requires
        r.last_applied <= r.log.len(),
    ensures
        ({
            let u = unapplied(r);
            &&& 0 <= i < u.len() ==> u[i] == r.log[r.last_applied + i]
            &&& r.last_applied + u.len() <= r.log.len()
            &&& u.len() > 0 ==> r.last_applied + u.len() <= r.commit_index
            &&& r.last_applied < r.commit_index && r.last_applied < r.log.len() ==> u.len() > 0
            &&& u.len() > 0 ==> r.last_applied + u.len() == r.commit_index || r.last_applied
                + u.len() == r.log.len()
        }),
{
}

} // verus!
