//! Single-leader replicated-log consensus core.
//!
//! Each replica is a [`RaftNode`]: a pure state machine driven by two kinds of
//! events, timer ticks and inbound [`RaftMessage`]s. A handler mutates the
//! node and may hand back a response message; the surrounding driver owns the
//! timers, the message queue and the transport, and never reaches into a
//! node's state except through these handlers.
//!
//! Every handler carries a full functional contract: the new state and the
//! response are pinned down, for every input, in terms of the old state. The
//! cluster-level safety arguments built on these contracts live in
//! `raft_safety`.
//!
//! The driver is also trusted with durability: before it sends a response
//! that depends on an updated `current_term`, `voted_for` or `log`, it must
//! persist those fields, and a node that cannot persist must stay silent
//! rather than respond.

use vstd::prelude::*;

verus! {

/// One entry of the replicated log. `index` is 1-based and contiguous;
/// `term` is the election epoch in which a leader first appended the entry.
pub struct LogEntry {
    pub term: u64,
    pub index: usize,
    pub command: String,
}

impl Clone for LogEntry {
    fn clone(&self) -> (r: Self)
        ensures
            r == *self,
    {
        LogEntry { term: self.term, index: self.index, command: self.command.clone() }
    }
}

/// The role a replica currently plays. Exactly one of the three holds at any
/// instant for a given node.
#[derive(Clone, Copy, PartialEq, Eq, Structural, Debug)]
pub enum NodeState {
    Follower,
    Candidate,
    Leader,
}

/// The messages exchanged between replicas, together with the one request a
/// client can make of a leader.
pub enum RaftMessage {
    RequestVote { term: u64, candidate_id: u64, last_log_index: usize, last_log_term: u64 },
    RequestVoteResponse { term: u64, vote_granted: bool },
    AppendEntries {
        term: u64,
        leader_id: u64,
        prev_log_index: usize,
        prev_log_term: u64,
        entries: Vec<LogEntry>,
        leader_commit: usize,
    },
    AppendEntriesResponse { term: u64, success: bool, match_index: usize },
    ClientRequest { command: String },
}

/// A log is well formed when its 1-based indices are contiguous.
pub open spec fn log_indices_ok(log: Seq<LogEntry>) -> bool {
    forall|i: int| 0 <= i < log.len() ==> #[trigger] log[i].index == i + 1
}

/// Term of the last entry, or 0 for an empty log.
pub open spec fn last_term_of(log: Seq<LogEntry>) -> u64 {
    if log.len() == 0 {
        0
    } else {
        log[log.len() - 1].term
    }
}

/// Index of the last entry, or 0 for an empty log.
pub open spec fn last_index_of(log: Seq<LogEntry>) -> int {
    log.len() as int
}

/// One replica of the consensus group.
///
/// Persistent state: `current_term`, `voted_for`, `log`. Volatile state:
/// `commit_index`, `last_applied`. Leader-only replication trackers:
/// `next_index` and `match_index`, one slot per peer, aligned with `peers`;
/// `votes_from` records, slot by slot, which peers granted this term's vote,
/// so a grant duplicated by the transport is never counted twice.
/// Timing is modelled in abstract ticks supplied by the driver.
pub struct RaftNode {
    pub id: u64,
    pub state: NodeState,
    pub current_term: u64,
    pub voted_for: Option<u64>,
    pub log: Vec<LogEntry>,
    pub commit_index: usize,
    pub last_applied: usize,
    pub next_index: Vec<usize>,
    pub match_index: Vec<usize>,
    pub ticks_since_contact: u64,
    pub election_timeout: u64,
    pub heartbeat_interval: u64,
    pub votes_received: usize,
    pub votes_from: Vec<bool>,
    pub peers: Vec<u64>,
}

/// How many peers have granted their vote.
pub open spec fn count_granted(s: Seq<bool>) -> nat
    decreases s.len(),
{
    if s.len() == 0 {
        0
    } else {
        count_granted(s.drop_last()) + if s.last() {
            1nat
        } else {
            0nat
        }
    }
}

/// Granting one new vote raises the count by exactly one.
proof fn lemma_count_granted_set(s: Seq<bool>, i: int)
    requires
        0 <= i < s.len(),
        !s[i],
    ensures
        count_granted(s.update(i, true)) == count_granted(s) + 1,
    decreases s.len(),
{
    if i == s.len() - 1 {
        assert(s.update(i, true).drop_last() =~= s.drop_last());
    } else {
        lemma_count_granted_set(s.drop_last(), i);
        assert(s.update(i, true).drop_last() =~= s.drop_last().update(i, true));
        assert(s.update(i, true).last() == s.last());
    }
}

/// A record with no grants counts zero.
proof fn lemma_count_granted_none(s: Seq<bool>)
    requires
        forall|i: int| 0 <= i < s.len() ==> !(#[trigger] s[i]),
    ensures
        count_granted(s) == 0,
    decreases s.len(),
{
    if s.len() > 0 {
        lemma_count_granted_none(s.drop_last());
    }
}

/// The count never exceeds the number of slots.
proof fn lemma_count_granted_le(s: Seq<bool>)
    ensures
        count_granted(s) <= s.len(),
    decreases s.len(),
{
    if s.len() > 0 {
        lemma_count_granted_le(s.drop_last());
    }
}

impl RaftNode {
    /// Structural well-formedness: replication trackers and the grant record
    /// aligned with the peer list, apply cursor behind the commit cursor,
    /// commit cursor inside the log, log indices contiguous, and a
    /// candidate's tally equal to its own vote plus the distinct peer grants
    /// recorded, never past the majority.
    pub open spec fn wf(self) -> bool {
        &&& self.next_index.len() == self.peers.len()
        &&& self.match_index.len() == self.peers.len()
        &&& self.commit_index <= self.log.len()
        &&& self.last_applied <= self.commit_index
        &&& log_indices_ok(self.log@)
        &&& self.log.len() < usize::MAX
        &&& self.peers.len() + 2 <= usize::MAX
        &&& (forall|i: int, j: int|
            0 <= i < j < self.peers.len() ==> #[trigger] self.peers[i] != #[trigger] self.peers[j])
        &&& !self.peers@.contains(self.id)
        &&& self.votes_from.len() == self.peers.len()
        &&& (self.state is Candidate ==> self.votes_received == 1 + count_granted(
            self.votes_from@,
        ) && self.votes_received <= self.spec_majority())
        &&& (self.state is Leader ==> forall|i: int|
            0 <= i < self.next_index.len() ==> 1 <= #[trigger] self.next_index[i]
                <= self.log.len() + 1)
    }

    /// Size of the whole cluster, this node included.
    pub open spec fn cluster_size(self) -> int {
        self.peers.len() + 1
    }

    /// Votes needed to win an election or commit an entry.
    pub open spec fn spec_majority(self) -> int {
        self.cluster_size() / 2 + 1
    }

    /// A fresh follower with an empty log. The election timeout is staggered
    /// by node id so that concurrent timeouts rarely collide; the field is
    /// public, so a driver that prefers a freshly randomized duration per
    /// election can write one before each campaign (only liveness depends on
    /// the choice).
    pub fn new(id: u64, peers: Vec<u64>) -> (node: RaftNode)
        requires
            id <= (u64::MAX - 150) / 50,
            peers.len() + 2 <= usize::MAX,
            forall|i: int, j: int|
                0 <= i < j < peers.len() ==> #[trigger] peers[i] != #[trigger] peers[j],
            !peers@.contains(id),
        ensures
            node.wf(),
            node.id == id,
            node.peers == peers,
            node.state == NodeState::Follower,
            node.current_term == 0,
            node.voted_for is None,
            node.log@.len() == 0,
            node.commit_index == 0,
            node.last_applied == 0,
            node.votes_received == 0,
            node.election_timeout == 150 + id * 50,
            node.heartbeat_interval == 50,
            node.ticks_since_contact == 0,
            node.next_index.len() == peers.len(),
            node.match_index.len() == peers.len(),
            node.votes_from.len() == peers.len(),
    {
        let election_timeout: u64 = 150 + id * 50;
        let mut next_index: Vec<usize> = Vec::new();
        let mut match_index: Vec<usize> = Vec::new();
        let mut votes_from: Vec<bool> = Vec::new();
        let mut i: usize = 0;
        while i < peers.len()
            invariant
                i <= peers.len(),
                next_index.len() == i,
                match_index.len() == i,
                votes_from.len() == i,
                forall|j: int| 0 <= j < i ==> #[trigger] next_index[j] == 1,
            decreases peers.len() - i,
        {
            next_index.push(1);
            match_index.push(0);
            votes_from.push(false);
            i += 1;
        }
        RaftNode {
            id,
            state: NodeState::Follower,
            current_term: 0,
            voted_for: None,
            log: Vec::new(),
            commit_index: 0,
            last_applied: 0,
            next_index,
            match_index,
            ticks_since_contact: 0,
            election_timeout,
            heartbeat_interval: 50,
            votes_received: 0,
            votes_from,
            peers,
        }
    }

    /// The driver reports one elapsed tick of wall-clock time.
    pub fn tick(&mut self)
        ensures
            *final(self) == (RaftNode {
                ticks_since_contact: if old(self).ticks_since_contact == u64::MAX {
                    u64::MAX
                } else {
                    (old(self).ticks_since_contact + 1) as u64
                },
                ..*old(self)
            }),
    {
        self.ticks_since_contact = self.ticks_since_contact.saturating_add(1);
    }

    /// Record contact from a legitimate leader or a granted vote: the
    /// election timer starts over.
    pub fn reset_election_timer(&mut self)
        ensures
            *final(self) == (RaftNode { ticks_since_contact: 0, ..*old(self) }),
    {
        self.ticks_since_contact = 0;
    }

    /// Has the randomized election timeout elapsed without leader contact?
    pub fn is_election_timeout(&self) -> (r: bool)
        ensures
            r == (self.ticks_since_contact > self.election_timeout),
    {
        self.ticks_since_contact > self.election_timeout
    }

    /// The state this node reaches when it steps down to follower on seeing
    /// `term`: the term is adopted (and the vote cleared) only if it is newer.
    pub open spec fn after_step_down(self, term: u64) -> RaftNode {
        RaftNode {
            state: NodeState::Follower,
            current_term: if term > self.current_term {
                term
            } else {
                self.current_term
            },
            voted_for: if term > self.current_term {
                None
            } else {
                self.voted_for
            },
            ticks_since_contact: 0,
            ..self
        }
    }

    /// Step down to follower because a message carried `term`. A newer term
    /// is adopted and the vote for the old term is cleared; `current_term`
    /// never decreases.
    pub fn become_follower(&mut self, term: u64)
        requires
            old(self).wf(),
        ensures
            final(self).wf(),
            *final(self) == old(self).after_step_down(term),
            old(self).current_term <= final(self).current_term,
            old(self).commit_index == final(self).commit_index,
    {
        if term > self.current_term {
            self.current_term = term;
            self.voted_for = None;
        }
        self.state = NodeState::Follower;
        self.reset_election_timer();
    }

    /// Begin an election: move to candidate in the next term, vote for
    /// ourselves, forget the previous campaign's grants, and restart the
    /// election timer. The caller broadcasts the message built by
    /// [`RaftNode::create_request_vote`].
    pub fn start_election(&mut self)
        requires
            old(self).wf(),
            old(self).current_term < u64::MAX,
        ensures
            final(self).wf(),
            *final(self) == (RaftNode {
                state: NodeState::Candidate,
                current_term: (old(self).current_term + 1) as u64,
                voted_for: Some(old(self).id),
                votes_received: 1,
                votes_from: final(self).votes_from,
                ticks_since_contact: 0,
                ..*old(self)
            }),
            final(self).votes_from.len() == old(self).peers.len(),
            forall|i: int|
                0 <= i < final(self).votes_from.len() ==> !(#[trigger] final(self).votes_from[i]),
            old(self).current_term <= final(self).current_term,
            old(self).commit_index == final(self).commit_index,
    {
        self.state = NodeState::Candidate;
        self.current_term = self.current_term + 1;
        self.voted_for = Some(self.id);
        self.votes_received = 1;
        let n = self.peers.len();
        let mut votes_from: Vec<bool> = Vec::new();
        let mut i: usize = 0;
        while i < n
            invariant
                i <= n,
                votes_from.len() == i,
                forall|j: int| 0 <= j < i ==> !(#[trigger] votes_from[j]),
            decreases n - i,
        {
            votes_from.push(false);
            i += 1;
        }
        self.votes_from = votes_from;
        proof {
            lemma_count_granted_none(self.votes_from@);
        }
        self.reset_election_timer();
    }

    /// Take leadership of the current term: initialize the replication
    /// trackers (`next_index` one past our last entry, `match_index` zero)
    /// for every peer. Heartbeats begin on the next driver cycle.
    pub fn become_leader(&mut self)
        requires
            old(self).wf(),
        ensures
            final(self).wf(),
            *final(self) == (RaftNode {
                state: NodeState::Leader,
                next_index: final(self).next_index,
                match_index: final(self).match_index,
                ..*old(self)
            }),
            final(self).next_index.len() == old(self).peers.len(),
            final(self).match_index.len() == old(self).peers.len(),
            forall|i: int|
                0 <= i < final(self).next_index.len() ==> #[trigger] final(self).next_index[i]
                    == old(self).log.len() + 1,
            forall|i: int|
                0 <= i < final(self).match_index.len() ==> #[trigger] final(self).match_index[i]
                    == 0,
            old(self).current_term == final(self).current_term,
            old(self).commit_index == final(self).commit_index,
    {
        self.state = NodeState::Leader;
        let next_idx = self.log.len() + 1;
        let n = self.peers.len();
        let mut next_index: Vec<usize> = Vec::new();
        let mut match_index: Vec<usize> = Vec::new();
        let mut i: usize = 0;
        while i < n
            invariant
                i <= n,
                next_index.len() == i,
                match_index.len() == i,
                next_idx == old(self).log.len() + 1,
                forall|j: int| 0 <= j < i ==> #[trigger] next_index[j] == next_idx,
                forall|j: int| 0 <= j < i ==> #[trigger] match_index[j] == 0,
            decreases n - i,
        {
            next_index.push(next_idx);
            match_index.push(0);
            i += 1;
        }
        self.next_index = next_index;
        self.match_index = match_index;
    }
}

/// Is the candidate's log at least as up to date as a voter with log `log`?
/// Last terms are compared first; a tie is broken by log length.
pub open spec fn candidate_log_ok(
    last_log_index: usize,
    last_log_term: u64,
    log: Seq<LogEntry>,
) -> bool {
    ||| last_log_term > last_term_of(log)
    ||| (last_log_term == last_term_of(log) && last_log_index >= last_index_of(log))
}

/// May `voted_for` vote for `candidate_id` in the current term?
pub open spec fn vote_free(voted_for: Option<u64>, candidate_id: u64) -> bool {
    voted_for is None || voted_for == Some(candidate_id)
}

/// The complete vote-granting rule of the protocol, evaluated over the
/// voter's state before the request arrives: the request's term must be at
/// least the voter's, the voter must not have promised this term's vote to
/// someone else, and the candidate's log must be at least as up to date.
pub open spec fn vote_granted_when(
    s: RaftNode,
    term: u64,
    candidate_id: u64,
    last_log_index: usize,
    last_log_term: u64,
) -> bool {
    &&& term >= s.current_term
    &&& (term > s.current_term || vote_free(s.voted_for, candidate_id))
    &&& candidate_log_ok(last_log_index, last_log_term, s.log@)
}

impl RaftNode {
    /// Decide a vote request.
    ///
    /// The vote is granted if and only if [`vote_granted_when`] holds of the
    /// incoming request and the prior state; a granted vote is remembered in
    /// `voted_for` and never reverts within the same term. The reply always
    /// carries the (possibly just adopted) current term.
    pub fn handle_request_vote(
        &mut self,
        term: u64,
        candidate_id: u64,
        last_log_index: usize,
        last_log_term: u64,
    ) -> (r: RaftMessage)
        requires
            old(self).wf(),
        ensures
            final(self).wf(),
            ({
                let granted = vote_granted_when(
                    *old(self),
                    term,
                    candidate_id,
                    last_log_index,
                    last_log_term,
                );
                let adopted = if term > old(self).current_term {
                    term
                } else {
                    old(self).current_term
                };
                &&& r == (RaftMessage::RequestVoteResponse {
                    term: adopted,
                    vote_granted: granted,
                })
                &&& final(self).current_term == adopted
                &&& final(self).state == (if term > old(self).current_term {
                    NodeState::Follower
                } else {
                    old(self).state
                })
                &&& final(self).voted_for == (if granted {
                    Some(candidate_id)
                } else if term > old(self).current_term {
                    Option::<u64>::None
                } else {
                    old(self).voted_for
                })
                &&& final(self).ticks_since_contact == (if granted || term > old(
                    self,
                ).current_term {
                    0u64
                } else {
                    old(self).ticks_since_contact
                })
            }),
            final(self).log == old(self).log,
            final(self).commit_index == old(self).commit_index,
            final(self).last_applied == old(self).last_applied,
            final(self).votes_received == old(self).votes_received,
            final(self).votes_from == old(self).votes_from,
            final(self).next_index == old(self).next_index,
            final(self).match_index == old(self).match_index,
            final(self).peers == old(self).peers,
            final(self).id == old(self).id,
            final(self).election_timeout == old(self).election_timeout,
            final(self).heartbeat_interval == old(self).heartbeat_interval,
            old(self).current_term <= final(self).current_term,
    {
        let mut vote_granted = false;

        if term > self.current_term {
            self.become_follower(term);
        }

        if term >= self.current_term {
            let log_ok = if self.log.len() == 0 {
                true
            } else {
                let my_last = &self.log[self.log.len() - 1];
                last_log_term > my_last.term || (last_log_term == my_last.term && last_log_index
                    >= my_last.index)
            };

            let not_committed_elsewhere = match self.voted_for {
                None => true,
                Some(v) => v == candidate_id,
            };

            if not_committed_elsewhere && log_ok {
                vote_granted = true;
                self.voted_for = Some(candidate_id);
                self.reset_election_timer();
            }
        }

        RaftMessage::RequestVoteResponse { term: self.current_term, vote_granted }
    }

    /// Count a vote-request reply from `peer_id` while campaigning.
    ///
    /// A newer term forces a step-down. A grant for the current term as
    /// candidate marks that peer's slot and raises the tally only if the
    /// slot was clear, so a grant the transport duplicates is counted once;
    /// grants from unknown peers are ignored. Reaching a majority of the
    /// cluster's nodes makes this node leader.
    pub fn handle_vote_response(&mut self, peer_id: u64, term: u64, vote_granted: bool)
        requires
            old(self).wf(),
        ensures
            final(self).wf(),
            term > old(self).current_term ==> *final(self) == old(self).after_step_down(term),
            term <= old(self).current_term && !(old(self).state is Candidate && term == old(
                self,
            ).current_term && vote_granted) ==> *final(self) == *old(self),
            (term <= old(self).current_term && old(self).state is Candidate && term == old(
                self,
            ).current_term && vote_granted) ==> {
                &&& (!old(self).peers@.contains(peer_id) ==> *final(self) == *old(self))
                &&& forall|p: int|
                    0 <= p < old(self).peers.len() && #[trigger] old(self).peers[p] == peer_id
                        ==> vote_tally_step(*old(self), *final(self), p)
            },
            old(self).current_term <= final(self).current_term,
            old(self).commit_index == final(self).commit_index,
            final(self).log == old(self).log,
    {
        if term > self.current_term {
            self.become_follower(term);
            return ;
        }

        let is_candidate = match self.state {
            NodeState::Candidate => true,
            _ => false,
        };
        if is_candidate && term == self.current_term && vote_granted {
            let pos = match self.find_peer(peer_id) {
                Some(p) => p,
                None => {
                    return ;
                },
            };
            if self.votes_from[pos] {
                return ;
            }
            let tally = self.votes_received + 1;
            let majority = (self.peers.len() + 1) / 2 + 1;

            if tally >= majority {
                self.become_leader();
            }
            proof {
                lemma_count_granted_set(self.votes_from@, pos as int);
            }
            self.votes_from.set(pos, true);
            self.votes_received = tally;
        }
    }
}

/// The candidate's state after a grant from the peer in slot `p`: a repeat
/// grant changes nothing; a first grant marks the slot, raises the tally by
/// one, and takes leadership exactly on reaching the majority.
pub open spec fn vote_tally_step(pre: RaftNode, post: RaftNode, p: int) -> bool {
    if pre.votes_from[p] {
        post == pre
    } else {
        let tally = pre.votes_received + 1;
        &&& post.votes_from@ == pre.votes_from@.update(p, true)
        &&& post.votes_received == tally
        &&& (tally >= pre.spec_majority() <==> post.state is Leader)
        &&& (tally < pre.spec_majority() ==> post == (RaftNode {
            votes_received: tally as usize,
            votes_from: post.votes_from,
            ..pre
        }))
        &&& (tally >= pre.spec_majority() ==> {
            &&& post == (RaftNode {
                state: NodeState::Leader,
                votes_received: tally as usize,
                votes_from: post.votes_from,
                next_index: post.next_index,
                match_index: post.match_index,
                ..pre
            })
            &&& forall|i: int|
                0 <= i < post.next_index.len() ==> #[trigger] post.next_index[i] == pre.log.len()
                    + 1
            &&& forall|i: int|
                0 <= i < post.match_index.len() ==> #[trigger] post.match_index[i] == 0
        })
    }
}

/// The leader's state after digesting a successful replication reply from
/// the peer in slot `p`: that peer's `match_index` takes the reported value,
/// its `next_index` moves one past it, and the commit index is recomputed by
/// the commit rule over the updated trackers. Nothing else moves.
pub open spec fn aer_success_step(pre: RaftNode, post: RaftNode, p: int, match_index: usize) -> bool {
    let replied = RaftNode { next_index: post.next_index, match_index: post.match_index, ..pre };
    &&& post.match_index@ == pre.match_index@.update(p, match_index)
    &&& post.next_index@ == pre.next_index@.update(p, (match_index + 1) as usize)
    &&& post == (RaftNode { commit_index: post.commit_index, ..replied })
    &&& pre.commit_index <= post.commit_index <= pre.log.len()
    &&& (post.commit_index == pre.commit_index || replied.commit_ok(post.commit_index as int))
    &&& forall|m: int| post.commit_index < m <= pre.log.len() ==> !replied.commit_ok(m)
}

/// The leader's state after a failed replication reply from the peer in
/// slot `p`: that peer's `next_index` backs off by one, stopping at one.
pub open spec fn aer_backoff_step(pre: RaftNode, post: RaftNode, p: int) -> bool {
    &&& post.next_index@ == (if pre.next_index[p] > 1 {
        pre.next_index@.update(p, (pre.next_index[p] - 1) as usize)
    } else {
        pre.next_index@
    })
    &&& post == (RaftNode { next_index: post.next_index, ..pre })
}

/// How one incoming entry lands at 1-based position `idx`: an existing entry
/// of a different term wipes the log from there on, an existing entry of the
/// same term is kept (idempotent re-delivery), a missing entry is appended.
pub open spec fn merge_one(log: Seq<LogEntry>, idx: int, entry: LogEntry) -> Seq<LogEntry> {
    if idx <= log.len() {
        if log[idx - 1].term != entry.term {
            log.take(idx - 1).push(entry)
        } else {
            log
        }
    } else {
        log.push(entry)
    }
}

/// The log after landing `entries[k..]` one by one, the first at position
/// `prev + k + 1`.
pub open spec fn merged_from(
    log: Seq<LogEntry>,
    prev: int,
    entries: Seq<LogEntry>,
    k: int,
) -> Seq<LogEntry>
    decreases entries.len() - k,
{
    if k < 0 || k >= entries.len() {
        log
    } else {
        merged_from(merge_one(log, prev + k + 1, entries[k]), prev, entries, k + 1)
    }
}

/// The follower's log after accepting `AppendEntries` with `prev_log_index
/// == prev`: the consistency-checked merge of §the protocol's replication
/// rule.
pub open spec fn merged_log(log: Seq<LogEntry>, prev: int, entries: Seq<LogEntry>) -> Seq<
    LogEntry,
> {
    merged_from(log, prev, entries, 0)
}

/// Entries shipped with `prev_log_index == prev` carry the contiguous
/// indices `prev + 1, prev + 2, ...`.
pub open spec fn entries_extend(prev: int, entries: Seq<LogEntry>) -> bool {
    forall|i: int| 0 <= i < entries.len() ==> #[trigger] entries[i].index == prev + 1 + i
}

/// Structural facts about the merge, proved once and reused by the handler:
/// the merged log is still well indexed, every shipped entry's term is in
/// place, the log now reaches at least `prev + entries.len()`, it grew no
/// further than the larger of the two sources, and a prefix on whose terms
/// both sides already agreed is untouched.
#[verifier::rlimit(50)]
pub proof fn lemma_merged_from_props(
    log: Seq<LogEntry>,
    prev: int,
    entries: Seq<LogEntry>,
    k: int,
    c: int,
)
    requires
        log_indices_ok(log),
        entries_extend(prev, entries),
        0 <= prev,
        0 <= k <= entries.len(),
        prev + k <= log.len(),
        0 <= c <= log.len(),
        c <= prev + k || forall|j: int|
            k <= j < entries.len() && prev + j + 1 <= c ==> #[trigger] entries[j].term == log[prev
                + j].term,
    ensures
        log_indices_ok(merged_from(log, prev, entries, k)),
        merged_from(log, prev, entries, k).len() >= prev + entries.len(),
        merged_from(log, prev, entries, k).len() >= c,
        merged_from(log, prev, entries, k).len() <= if log.len() >= prev + entries.len() {
            log.len() as int
        } else {
            prev + entries.len()
        },
        merged_from(log, prev, entries, k).take(c) == log.take(c),
        forall|j: int|
            k <= j < entries.len() ==> #[trigger] merged_from(log, prev, entries, k)[prev
                + j].term == entries[j].term,
        forall|j: int| 0 <= j < prev + k ==> merged_from(log, prev, entries, k)[j] == log[j],
        forall|j: int|
            k <= j < entries.len() ==> #[trigger] merged_from(log, prev, entries, k)[prev + j]
                == entries[j] || (prev + j < log.len() && merged_from(log, prev, entries, k)[prev
                + j] == log[prev + j] && log[prev + j].term == entries[j].term),
    decreases entries.len() - k,
{
    if k >= entries.len() {
        assert(merged_from(log, prev, entries, k) == log);
        assert(log.take(c) == log.take(c));
    } else {
        let idx = prev + k + 1;
        let stepped = merge_one(log, idx, entries[k]);
        assert(log_indices_ok(stepped)) by {
            if idx <= log.len() && log[idx - 1].term != entries[k].term {
                assert forall|i: int| 0 <= i < stepped.len() implies #[trigger] stepped[i].index
                    == i + 1 by {
                    if i < idx - 1 {
                        assert(stepped[i] == log[i]);
                    } else {
                        assert(stepped[i] == entries[k]);
                    }
                }
            }
        }
        assert(prev + (k + 1) <= stepped.len());
        if c <= prev + k {
            assert(c <= prev + k + 1);
            assert(c <= stepped.len());
            lemma_merged_from_props(stepped, prev, entries, k + 1, c);
            assert(stepped.take(c) =~= log.take(c));
        } else {
            // every shipped entry below `c` agrees with the log, so the
            // entry at `idx <= c` is kept rather than truncating
            if idx <= c {
                assert(entries[k].term == log[prev + k].term);
                assert(stepped == log);
                lemma_merged_from_props(stepped, prev, entries, k + 1, c);
            } else {
                assert(c <= prev + k + 1);
                assert(c <= stepped.len()) by {
                    if idx <= log.len() && log[idx - 1].term != entries[k].term {
                        assert(stepped.len() == idx);
                    }
                }
                lemma_merged_from_props(stepped, prev, entries, k + 1, c);
                assert(stepped.take(c) =~= log.take(c)) by {
                    assert forall|i: int| 0 <= i < c implies stepped[i] == log[i] by {
                        assert(i < idx - 1 || i == idx - 1);
                    }
                }
            }
        }
        assert(merged_from(log, prev, entries, k) == merged_from(stepped, prev, entries, k + 1));
        assert(merged_from(stepped, prev, entries, k + 1)[prev + k].term == entries[k].term) by {
            assert(stepped[prev + k].term == entries[k].term);
        }
        assert forall|j: int| 0 <= j < prev + k implies merged_from(log, prev, entries, k)[j]
            == log[j] by {
            assert(merged_from(stepped, prev, entries, k + 1)[j] == stepped[j]);
            assert(stepped[j] == log[j]);
        }
        assert forall|j: int|
            k <= j < entries.len() implies (#[trigger] merged_from(log, prev, entries, k)[prev
                + j] == entries[j] || (prev + j < log.len() && merged_from(log, prev, entries, k)[
            prev + j] == log[prev + j] && log[prev + j].term == entries[j].term)) by {
            let m = merged_from(stepped, prev, entries, k + 1);
            if j == k {
                assert(m[prev + k] == stepped[prev + k]);
                if idx <= log.len() && log[idx - 1].term == entries[k].term {
                    assert(stepped == log);
                    assert(stepped[prev + k] == log[prev + k]);
                }
            } else {
                assert(m[prev + j] == entries[j] || (prev + j < stepped.len() && m[prev + j]
                    == stepped[prev + j] && stepped[prev + j].term == entries[j].term));
                if !(m[prev + j] == entries[j]) {
                    assert(prev + j < stepped.len());
                    // only the no-conflict branch leaves entries beyond
                    // `idx` in place, and there `stepped` is the old log
                    assert(prev + j >= prev + k + 1);
                    if idx <= log.len() && log[idx - 1].term != entries[k].term {
                        assert(stepped.len() == idx);
                    } else if idx > log.len() {
                        assert(stepped.len() == idx);
                    } else {
                        assert(stepped == log);
                    }
                }
            }
        }
    }
}

/// Does the follower's log pass the consistency check for `prev_log_index` /
/// `prev_log_term`? Sending from the start of the log always passes.
pub open spec fn consistency_ok(log: Seq<LogEntry>, prev: int, prev_term: u64) -> bool {
    if prev == 0 {
        true
    } else if prev <= log.len() {
        log[prev - 1].term == prev_term
    } else {
        false
    }
}

impl RaftNode {
    /// Replicate entries shipped by a leader.
    ///
    /// A request whose term is behind ours is rejected outright and changes
    /// nothing. Otherwise we adopt the term, fall back to follower, and
    /// restart the election timer; if the log disagrees at `prev_log_index`
    /// the request is rejected reporting our log length, and if it agrees the
    /// entries are merged in ([`merged_log`]) and the commit index advances
    /// to `min(leader_commit, log len)` when the leader is ahead. A success
    /// reply reports `prev_log_index + entries.len()`: the index through
    /// which this log is now known to match the leader's, never the length
    /// of a retained stale tail. Newly committed entries are handed to the
    /// state machine by a separate [`RaftNode::apply_committed_entries`]
    /// step.
    pub fn handle_append_entries(
        &mut self,
        term: u64,
        leader_id: u64,
        prev_log_index: usize,
        prev_log_term: u64,
        entries: Vec<LogEntry>,
        leader_commit: usize,
    ) -> (r: RaftMessage)
        requires
            old(self).wf(),
            entries_extend(prev_log_index as int, entries@),
            prev_log_index + entries@.len() + 1 <= usize::MAX,
            // a leader never ships an entry that contradicts what this node
            // has already committed
            forall|j: int|
                0 <= j < entries@.len() && prev_log_index + j + 1 <= old(self).commit_index
                    && prev_log_index + j < old(self).log.len()
                    ==> #[trigger] entries@[j].term == old(self).log[prev_log_index + j].term,
        ensures
            final(self).wf(),
            old(self).current_term <= final(self).current_term,
            old(self).commit_index <= final(self).commit_index,
            final(self).last_applied == old(self).last_applied,
            term < old(self).current_term ==> {
                &&& *final(self) == *old(self)
                &&& r == (RaftMessage::AppendEntriesResponse {
                    term: old(self).current_term,
                    success: false,
                    match_index: 0,
                })
            },
            term >= old(self).current_term ==> {
                let after = old(self).after_step_down(term);
                let ok = consistency_ok(old(self).log@, prev_log_index as int, prev_log_term);
                let merged = merged_log(old(self).log@, prev_log_index as int, entries@);
                let new_commit = if leader_commit > old(self).commit_index {
                    if leader_commit <= merged.len() {
                        leader_commit as int
                    } else {
                        merged.len() as int
                    }
                } else {
                    old(self).commit_index as int
                };
                &&& final(self).state is Follower
                &&& final(self).current_term == after.current_term
                &&& final(self).voted_for == after.voted_for
                &&& final(self).ticks_since_contact == 0
                &&& (!ok ==> {
                    &&& final(self).log == old(self).log
                    &&& final(self).commit_index == old(self).commit_index
                    &&& r == (RaftMessage::AppendEntriesResponse {
                        term: after.current_term,
                        success: false,
                        match_index: old(self).log.len(),
                    })
                })
                &&& (ok ==> {
                    &&& final(self).log@ == merged
                    &&& final(self).commit_index == new_commit
                    &&& r == (RaftMessage::AppendEntriesResponse {
                        term: after.current_term,
                        success: true,
                        match_index: (prev_log_index + entries@.len()) as usize,
                    })
                })
            },
            final(self).peers == old(self).peers,
            final(self).next_index == old(self).next_index,
            final(self).match_index == old(self).match_index,
            final(self).votes_received == old(self).votes_received,
            final(self).votes_from == old(self).votes_from,
            final(self).id == old(self).id,
            final(self).election_timeout == old(self).election_timeout,
            final(self).heartbeat_interval == old(self).heartbeat_interval,
    {
        let _ = leader_id;
        if term < self.current_term {
            return RaftMessage::AppendEntriesResponse {
                term: self.current_term,
                success: false,
                match_index: 0,
            };
        }

        self.become_follower(term);

        let log_ok = if prev_log_index == 0 {
            true
        } else if prev_log_index <= self.log.len() {
            self.log[prev_log_index - 1].term == prev_log_term
        } else {
            false
        };

        if !log_ok {
            return RaftMessage::AppendEntriesResponse {
                term: self.current_term,
                success: false,
                match_index: self.log.len(),
            };
        }

        let matched_through = prev_log_index + entries.len();
        proof {
            lemma_merged_from_props(
                old(self).log@,
                prev_log_index as int,
                entries@,
                0,
                old(self).commit_index as int,
            );
        }

        let ghost old_log = self.log@;
        let ghost settled = *self;
        let prev: usize = prev_log_index;
        let mut i: usize = 0;
        while i < entries.len()
            invariant
                old(self).wf(),
                i <= entries.len(),
                prev == prev_log_index,
                prev + entries@.len() + 1 <= usize::MAX,
                old_log == old(self).log@,
                settled == (RaftNode { log: settled.log, ..*self }),
                settled.log@ == old_log,
                log_indices_ok(self.log@),
                entries_extend(prev as int, entries@),
                self.log.len() >= prev + i,
                self.log.len() <= usize::MAX - 1,
                merged_from(self.log@, prev as int, entries@, i as int) == merged_log(
                    old_log,
                    prev as int,
                    entries@,
                ),
            decreases entries.len() - i,
        {
            let ghost pre = self.log@;
            let idx = prev + i + 1;
            let e = &entries[i];
            let fresh = LogEntry { term: e.term, index: e.index, command: e.command.clone() };
            assert(fresh == entries@[i as int]);
            if idx <= self.log.len() {
                if self.log[idx - 1].term != fresh.term {
                    self.log.truncate(idx - 1);
                    self.log.push(fresh);
                    assert(self.log@ =~= pre.take(idx - 1).push(entries@[i as int]));
                }
            } else {
                self.log.push(fresh);
            }
            proof {
                assert(self.log@ == merge_one(pre, idx as int, entries@[i as int]));
                assert(merged_from(pre, prev as int, entries@, i as int) == merged_from(
                    self.log@,
                    prev as int,
                    entries@,
                    i + 1,
                ));
                assert(entries@[i as int].index == idx);
                assert forall|t: int| 0 <= t < self.log.len() implies #[trigger] self.log@[t].index
                    == t + 1 by {
                    if t < idx - 1 {
                        assert(self.log@[t] == pre[t]);
                    }
                }
            }
            i += 1;
        }

        proof {
            assert(merged_from(self.log@, prev as int, entries@, entries@.len() as int)
                == self.log@);
        }

        if leader_commit > self.commit_index {
            self.commit_index = if leader_commit <= self.log.len() {
                leader_commit
            } else {
                self.log.len()
            };
        }

        RaftMessage::AppendEntriesResponse {
            term: self.current_term,
            success: true,
            match_index: matched_through,
        }
    }
}

/// How many replication trackers report at least `n`.
pub open spec fn count_at_least(m: Seq<usize>, n: int) -> int
    decreases m.len(),
{
    if m.len() == 0 {
        0
    } else {
        count_at_least(m.drop_last(), n) + if m.last() >= n {
            1int
        } else {
            0int
        }
    }
}

impl RaftNode {
    /// May a leader with this state commit through index `n`? The entry must
    /// exist, be of the current term (never commit an older term's entry by
    /// counting), and be replicated on a majority of the cluster, the leader
    /// itself included.
    pub open spec fn commit_ok(self, n: int) -> bool {
        &&& 1 <= n <= self.log.len()
        &&& self.log[n - 1].term == self.current_term
        &&& count_at_least(self.match_index@, n) + 1 >= self.spec_majority()
    }

    /// Advance `commit_index` to the largest index the commit rule allows.
    /// Only a leader recomputes; the index never moves backwards.
    pub fn update_commit_index(&mut self)
        requires
            old(self).wf(),
        ensures
            final(self).wf(),
            !(old(self).state is Leader) ==> *final(self) == *old(self),
            old(self).state is Leader ==> {
                &&& *final(self) == (RaftNode {
                    commit_index: final(self).commit_index,
                    ..*old(self)
                })
                &&& old(self).commit_index <= final(self).commit_index <= old(self).log.len()
                &&& (final(self).commit_index == old(self).commit_index || old(self).commit_ok(
                    final(self).commit_index as int,
                ))
                &&& forall|m: int|
                    final(self).commit_index < m <= old(self).log.len() ==> !old(
                        self,
                    ).commit_ok(m)
            },
            old(self).current_term == final(self).current_term,
            old(self).commit_index <= final(self).commit_index,
    {
        let is_leader = match self.state {
            NodeState::Leader => true,
            _ => false,
        };
        if !is_leader {
            return ;
        }

        let len = self.log.len();
        let mut n = self.commit_index + 1;
        while n <= len
            invariant
                old(self).wf(),
                old(self).state is Leader,
                len == old(self).log.len(),
                old(self).commit_index < n,
                n <= len + 1,
                *self == (RaftNode { commit_index: self.commit_index, ..*old(self) }),
                old(self).commit_index <= self.commit_index < n,
                self.commit_index == old(self).commit_index || old(self).commit_ok(
                    self.commit_index as int,
                ),
                forall|m: int| self.commit_index < m < n ==> !old(self).commit_ok(m),
            decreases len + 1 - n,
        {
            if self.log[n - 1].term == self.current_term {
                let mut count: usize = 1;
                let mut j: usize = 0;
                while j < self.match_index.len()
                    invariant
                        old(self).wf(),
                        j <= self.match_index.len(),
                        self.match_index == old(self).match_index,
                        count == 1 + count_at_least(self.match_index@.take(j as int), n as int),
                        count <= 1 + j,
                        n >= 1,
                    decreases self.match_index.len() - j,
                {
                    if self.match_index[j] >= n {
                        count = count + 1;
                    }
                    proof {
                        assert(self.match_index@.take(j + 1).drop_last() =~= self.match_index@
                            .take(j as int));
                        assert(self.match_index@.take(j + 1).last() == self.match_index@[j as int]);
                    }
                    j += 1;
                }
                proof {
                    assert(self.match_index@.take(self.match_index.len() as int) =~= self
                        .match_index@);
                }

                let majority = (self.peers.len() + 1) / 2 + 1;
                if count >= majority {
                    self.commit_index = n;
                }
            }
            n += 1;
        }
    }

    /// Hand every newly committed entry to the state machine, in index
    /// order. Each entry is returned (and so applied) exactly once per node:
    /// `last_applied` catches up to `commit_index` and never moves back.
    pub fn apply_committed_entries(&mut self) -> (applied: Vec<LogEntry>)
        requires
            old(self).wf(),
        ensures
            final(self).wf(),
            *final(self) == (RaftNode { last_applied: old(self).commit_index, ..*old(self) }),
            applied@ == old(self).log@.subrange(
                old(self).last_applied as int,
                old(self).commit_index as int,
            ),
    {
        let mut applied: Vec<LogEntry> = Vec::new();
        while self.last_applied < self.commit_index
            invariant
                old(self).wf(),
                *self == (RaftNode { last_applied: self.last_applied, ..*old(self) }),
                old(self).last_applied <= self.last_applied <= self.commit_index,
                applied@ == old(self).log@.subrange(
                    old(self).last_applied as int,
                    self.last_applied as int,
                ),
            decreases self.commit_index - self.last_applied,
        {
            let e = &self.log[self.last_applied];
            applied.push(LogEntry { term: e.term, index: e.index, command: e.command.clone() });
            self.last_applied = self.last_applied + 1;
            proof {
                assert(applied@ =~= old(self).log@.subrange(
                    old(self).last_applied as int,
                    self.last_applied as int,
                ));
            }
        }
        applied
    }

    /// Accept a client command if and only if this node is the leader: the
    /// command is appended to the log at the next index in the current term,
    /// to be propagated and committed by the replication cycle. A non-leader
    /// rejects, leaving its state untouched.
    pub fn handle_client_request(&mut self, command: String) -> (r: Result<(), String>)
        requires
            old(self).wf(),
            old(self).log.len() + 2 <= usize::MAX,
        ensures
            final(self).wf(),
            old(self).state is Leader <==> r is Ok,
            !(old(self).state is Leader) ==> {
                &&& *final(self) == *old(self)
                &&& (r matches Err(m) && m@ == "Not the leader"@)
            },
            old(self).state is Leader ==> {
                &&& final(self).log@ == old(self).log@.push(LogEntry {
                    term: old(self).current_term,
                    index: (old(self).log.len() + 1) as usize,
                    command,
                })
                &&& *final(self) == (RaftNode { log: final(self).log, ..*old(self) })
            },
            old(self).current_term == final(self).current_term,
            old(self).commit_index == final(self).commit_index,
    {
        let is_leader = match self.state {
            NodeState::Leader => true,
            _ => false,
        };
        if !is_leader {
            return Err("Not the leader".to_string());
        }

        let entry = LogEntry { term: self.current_term, index: self.log.len() + 1, command };
        self.log.push(entry);
        Ok(())
    }

    /// Build the vote request a candidate broadcasts: our term and the
    /// position of our last log entry, by which voters judge freshness.
    pub fn create_request_vote(&self) -> (r: RaftMessage)
        requires
            self.wf(),
        ensures
            r == (RaftMessage::RequestVote {
                term: self.current_term,
                candidate_id: self.id,
                last_log_index: self.log.len(),
                last_log_term: last_term_of(self.log@),
            }),
    {
        let (last_log_index, last_log_term) = if self.log.len() == 0 {
            (0, 0)
        } else {
            let last = &self.log[self.log.len() - 1];
            (last.index, last.term)
        };

        RaftMessage::RequestVote {
            term: self.current_term,
            candidate_id: self.id,
            last_log_index,
            last_log_term,
        }
    }

    /// Find the replication-tracker slot of a peer. Peer ids are distinct
    /// (`wf`), so the slot is unique when it exists.
    fn find_peer(&self, peer_id: u64) -> (r: Option<usize>)
        ensures
            r matches Some(p) ==> p < self.peers.len() && self.peers[p as int] == peer_id,
            r is None ==> !self.peers@.contains(peer_id),
    {
        let mut i: usize = 0;
        while i < self.peers.len()
            invariant
                i <= self.peers.len(),
                forall|j: int| 0 <= j < i ==> self.peers[j] != peer_id,
            decreases self.peers.len() - i,
        {
            if self.peers[i] == peer_id {
                return Some(i);
            }
            i += 1;
        }
        None
    }

    /// Digest a replication reply as leader.
    ///
    /// A newer term forces a step-down. A stale reply, a reply while not
    /// leader, or one from an unknown peer changes nothing. On success the
    /// peer's `match_index` takes the reported value, `next_index` moves one
    /// past it, and the commit index is recomputed; on failure `next_index`
    /// backs off by one (never below one) so the next cycle retries earlier.
    /// A success reply from a correct follower never reports a match beyond
    /// the leader's own log, which the precondition records.
    pub fn handle_append_entries_response(
        &mut self,
        peer_id: u64,
        term: u64,
        success: bool,
        match_index: usize,
    )
        requires
            old(self).wf(),
            old(self).state is Leader && term == old(self).current_term && success
                ==> match_index <= old(self).log.len(),
        ensures
            final(self).wf(),
            term > old(self).current_term ==> *final(self) == old(self).after_step_down(term),
            term <= old(self).current_term && !(old(self).state is Leader && term == old(
                self,
            ).current_term) ==> *final(self) == *old(self),
            term <= old(self).current_term && old(self).state is Leader && term == old(
                self,
            ).current_term ==> {
                &&& (!old(self).peers@.contains(peer_id) ==> *final(self) == *old(self))
                &&& (success ==> forall|p: int|
                    0 <= p < old(self).peers.len() && #[trigger] old(self).peers[p] == peer_id
                        ==> aer_success_step(*old(self), *final(self), p, match_index))
                &&& (!success ==> forall|p: int|
                    0 <= p < old(self).peers.len() && #[trigger] old(self).peers[p] == peer_id
                        ==> aer_backoff_step(*old(self), *final(self), p))
            },
            old(self).current_term <= final(self).current_term,
            old(self).commit_index <= final(self).commit_index,
    {
        if term > self.current_term {
            self.become_follower(term);
            return ;
        }

        let is_leader = match self.state {
            NodeState::Leader => true,
            _ => false,
        };
        if !is_leader || term != self.current_term {
            return ;
        }

        let pos = match self.find_peer(peer_id) {
            Some(p) => p,
            None => {
                return ;
            },
        };

        if success {
            self.match_index.set(pos, match_index);
            self.next_index.set(pos, match_index + 1);
            self.update_commit_index();
        } else {
            let next = self.next_index[pos];
            if next > 1 {
                self.next_index.set(pos, next - 1);
            }
        }
    }

    /// Build the replication request for one peer: everything from that
    /// peer's `next_index` to the end of our log, preceded by the index and
    /// term of the entry just before it (or 0/0 from the very start), and
    /// our commit index so the follower can advance its own. With no entries
    /// pending this is the empty heartbeat.
    pub fn create_append_entries(&self, peer_id: u64) -> (r: RaftMessage)
        requires
            self.wf(),
            self.state is Leader,
        ensures
            ({
                let nx = if self.peers@.contains(peer_id) {
                    self.next_index@[choose|p: int|
                        0 <= p < self.peers.len() && self.peers[p] == peer_id] as int
                } else {
                    1int
                };
                &&& r == (RaftMessage::AppendEntries {
                    term: self.current_term,
                    leader_id: self.id,
                    prev_log_index: (nx - 1) as usize,
                    prev_log_term: if nx > 1 {
                        self.log[nx - 2].term
                    } else {
                        0u64
                    },
                    entries: r->AppendEntries_entries,
                    leader_commit: self.commit_index,
                })
                &&& r->AppendEntries_entries@ == self.log@.subrange(
                    nx - 1,
                    self.log.len() as int,
                )
            }),
    {
        let next_idx = match self.find_peer(peer_id) {
            Some(p) => self.next_index[p],
            None => 1,
        };
        proof {
            if self.peers@.contains(peer_id) {
                let w = choose|p: int| 0 <= p < self.peers.len() && self.peers[p] == peer_id;
                assert(self.next_index@[w] == next_idx);
            }
        }

        let (prev_log_index, prev_log_term) = if next_idx > 1 && self.log.len() > 0 {
            let prev = &self.log[next_idx - 2];
            (prev.index, prev.term)
        } else {
            (0, 0)
        };

        let mut entries: Vec<LogEntry> = Vec::new();
        let mut i: usize = next_idx - 1;
        while i < self.log.len()
            invariant
                next_idx >= 1,
                next_idx - 1 <= i <= self.log.len(),
                entries@ == self.log@.subrange(next_idx - 1, i as int),
            decreases self.log.len() - i,
        {
            let e = &self.log[i];
            entries.push(LogEntry { term: e.term, index: e.index, command: e.command.clone() });
            proof {
                assert(entries@ =~= self.log@.subrange(next_idx - 1, i + 1));
            }
            i += 1;
        }
        proof {
            assert(entries@ =~= self.log@.subrange(next_idx - 1, self.log.len() as int));
        }

        RaftMessage::AppendEntries {
            term: self.current_term,
            leader_id: self.id,
            prev_log_index,
            prev_log_term,
            entries,
            leader_commit: self.commit_index,
        }
    }
}

} // verus!
