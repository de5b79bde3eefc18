//! Cluster-level safety arguments for the consensus core.
//!
//! The handlers in [`crate::raft`] pin down each node's behaviour; the proof
//! functions here state what those behaviours buy the cluster as a whole.
//! Quorums are modelled as finite sets of node ids and the per-term ballot as
//! a map from voter to backed candidate — exactly the shape
//! [`crate::raft::RaftNode::handle_request_vote`] guarantees, since a node
//! records a granted vote in `voted_for` and never reverts it within a term.
//! On the counting side, [`crate::raft::RaftNode::handle_vote_response`]
//! marks each granting peer once in `votes_from` and ignores repeats, so a
//! tally that reaches the majority really names a majority-sized set of
//! distinct voters, which is the hypothesis the election-safety argument
//! consumes.

use vstd::prelude::*;

use crate::raft::LogEntry;
use crate::raft::last_term_of;
use crate::raft::log_indices_ok;
use crate::raft::candidate_log_ok;
use crate::raft::merged_log;
use crate::raft::lemma_merged_from_props;
use crate::raft::entries_extend;
use vstd::set_lib::lemma_len_subset;

verus! {

/// Two sets that each hold more than half of `u` share a member.
pub proof fn lemma_quorum_overlap(u: Set<u64>, a: Set<u64>, b: Set<u64>)
    requires
        u.finite(),
        a.finite(),
        b.finite(),
        a.subset_of(u),
        b.subset_of(u),
        a.len() + b.len() > u.len(),
    ensures
        exists|v: u64| a.contains(v) && b.contains(v),
{
    if !(exists|v: u64| a.contains(v) && b.contains(v)) {
        lemma_disjoint_bound(u, a, b);
    }
}

proof fn lemma_disjoint_bound(u: Set<u64>, a: Set<u64>, b: Set<u64>)
    requires
        u.finite(),
        a.finite(),
        b.finite(),
        a.subset_of(u),
        b.subset_of(u),
        forall|v: u64| !(a.contains(v) && b.contains(v)),
    ensures
        a.len() + b.len() <= u.len(),
    decreases a.len(),
{
    if a.len() == 0 {
        assert(a =~= Set::empty());
        lemma_len_subset(b, u);
    } else {
        let x = a.choose();
        assert(a.contains(x));
        assert(!b.contains(x));
        lemma_disjoint_bound(u.remove(x), a.remove(x), b);
    }
}

/// Election safety: at most one node becomes leader in a term.
///
/// Within one term every node backs at most one candidate: a grant records
/// the candidate in `voted_for`, and the granting rule refuses any other
/// candidate while that record stands. So the term's ballot is a map from
/// voter to candidate. A node only takes leadership of the term after grants
/// from a strict majority of the cluster; two such vote sets must share a
/// voter, and that voter backed both candidates — so they are the same node.
pub proof fn lemma_election_safety(
    nodes: Set<u64>,
    ballot: Map<u64, u64>,
    votes_for_a: Set<u64>,
    votes_for_b: Set<u64>,
    a: u64,
    b: u64,
)
    requires
        nodes.finite(),
        votes_for_a.finite(),
        votes_for_b.finite(),
        votes_for_a.subset_of(nodes),
        votes_for_b.subset_of(nodes),
        2 * votes_for_a.len() > nodes.len(),
        2 * votes_for_b.len() > nodes.len(),
        forall|v: u64| votes_for_a.contains(v) ==> ballot.dom().contains(v) && ballot[v] == a,
        forall|v: u64| votes_for_b.contains(v) ==> ballot.dom().contains(v) && ballot[v] == b,
    ensures
        a == b,
{
    lemma_quorum_overlap(nodes, votes_for_a, votes_for_b);
    let w = choose|v: u64| votes_for_a.contains(v) && votes_for_b.contains(v);
    assert(ballot[w] == a && ballot[w] == b);
}

/// The log-matching relation between two logs: wherever they agree on the
/// term of an entry at some index, they agree on that entry and on every
/// entry before it.
pub open spec fn log_matching_pair(l1: Seq<LogEntry>, l2: Seq<LogEntry>) -> bool {
    forall|i: int, j: int|
        #![trigger l1[i], l2[i], l1[j]]
        0 <= j <= i && i < l1.len() && i < l2.len() && l1[i].term == l2[i].term ==> l1[j] == l2[j]
}

/// Log matching is preserved by replication, and a successful append makes
/// the follower's log identical to the leader's over the leader's whole
/// length (the stale tail, if any, was truncated at the first conflict).
///
/// The hypotheses are exactly the success path of
/// [`crate::raft::RaftNode::handle_append_entries`]: the shipped entries are
/// the leader's suffix from `prev`, and the follower passed the consistency
/// check at `prev`.
pub proof fn lemma_replication_preserves_matching(
    ldr: Seq<LogEntry>,
    fol: Seq<LogEntry>,
    prev: int,
)
    requires
        log_indices_ok(ldr),
        log_indices_ok(fol),
        0 <= prev <= ldr.len(),
        prev <= fol.len(),
        prev > 0 ==> fol[prev - 1].term == ldr[prev - 1].term,
        log_matching_pair(ldr, fol),
    ensures
        ({
            let merged = merged_log(fol, prev, ldr.subrange(prev, ldr.len() as int));
            &&& merged.len() >= ldr.len()
            &&& forall|j: int| 0 <= j < ldr.len() ==> merged[j] == ldr[j]
            &&& log_matching_pair(ldr, merged)
            &&& log_indices_ok(merged)
        }),
{
    let entries = ldr.subrange(prev, ldr.len() as int);
    assert(entries_extend(prev, entries));
    lemma_merged_from_props(fol, prev, entries, 0, 0);
    let merged = merged_log(fol, prev, entries);

    assert forall|j: int| 0 <= j < ldr.len() implies merged[j] == ldr[j] by {
        if j < prev {
            assert(merged[j] == fol[j]);
            assert(fol[j] == ldr[j]) by {
                assert(ldr[prev - 1].term == fol[prev - 1].term);
            }
        } else {
            let k = j - prev;
            assert(merged[prev + k] == entries[k] || (prev + k < fol.len() && merged[prev + k]
                == fol[prev + k] && fol[prev + k].term == entries[k].term));
            if !(merged[j] == entries[k]) {
                // the follower already held an entry of the same term there,
                // so by log matching it is the leader's entry
                assert(fol[j].term == ldr[j].term);
                assert(fol[j] == ldr[j]);
            }
        }
    }
}

/// Terms never decrease along a log: every entry was appended in the term
/// of the then-leader, and terms only grow.
pub open spec fn terms_nondecreasing(l: Seq<LogEntry>) -> bool {
    forall|i: int, j: int| 0 <= i <= j < l.len() ==> #[trigger] l[i].term <= #[trigger] l[j].term
}

/// Provenance of a term's entries: every entry of term `t` in log `l` is the
/// entry the term-`t` leader (`creator`) held at that index. The protocol
/// maintains this because only the one leader of a term creates entries in
/// it, and replication ships the leader's entries unchanged.
pub open spec fn term_entries_from(creator: Seq<LogEntry>, l: Seq<LogEntry>, t: u64) -> bool {
    forall|i: int|
        0 <= i < l.len() && (#[trigger] l[i]).term == t ==> i < creator.len() && l[i] == creator[i]
}

/// Leader completeness within a term: an entry `e` of term `t` committed on
/// a majority is contained, with its whole prefix, in the log of any
/// candidate that wins an election whose deciding comparison happens at term
/// `t` (the candidate's last entry carries term `t`).
///
/// `creator` stands for the term-`t` leader's log; the provenance and
/// monotone-term hypotheses are invariants the protocol maintains, spelled
/// out here because this proof is local to a handful of logs rather than a
/// whole execution. Elections decided in a later term need an induction over
/// the intervening terms that is not carried out here.
pub proof fn lemma_leader_completeness(
    nodes: Set<u64>,
    logs: Map<u64, Seq<LogEntry>>,
    commit_quorum: Set<u64>,
    vote_quorum: Set<u64>,
    e: LogEntry,
    ci: int,
    t: u64,
    lc: Seq<LogEntry>,
    creator: Seq<LogEntry>,
)
    requires
        nodes.finite(),
        commit_quorum.finite(),
        vote_quorum.finite(),
        commit_quorum.subset_of(nodes),
        vote_quorum.subset_of(nodes),
        2 * commit_quorum.len() > nodes.len(),
        2 * vote_quorum.len() > nodes.len(),
        ci >= 1,
        e.term == t,
        // every member of the commit quorum holds `e` at index `ci`
        forall|v: u64|
            commit_quorum.contains(v) ==> logs.dom().contains(v) && (#[trigger] logs[v]).len()
                >= ci && logs[v][ci - 1] == e,
        // every voter found the candidate's log at least as up to date
        forall|v: u64|
            vote_quorum.contains(v) ==> logs.dom().contains(v) && candidate_log_ok(
                lc.len() as usize,
                last_term_of(lc),
                #[trigger] logs[v],
            ),
        forall|v: u64| commit_quorum.contains(v) ==> terms_nondecreasing(#[trigger] logs[v]),
        forall|v: u64|
            commit_quorum.contains(v) ==> term_entries_from(creator, #[trigger] logs[v], t),
        forall|v: u64| commit_quorum.contains(v) ==> log_matching_pair(#[trigger] logs[v], creator),
        term_entries_from(creator, lc, t),
        log_matching_pair(lc, creator),
        // the election is decided at term `t` itself
        last_term_of(lc) == t,
        lc.len() <= usize::MAX,
    ensures
        lc.len() >= ci,
        lc[ci - 1] == e,
        forall|j: int, v: u64|
            #![trigger lc[j], logs[v]]
            0 <= j < ci && commit_quorum.contains(v) && vote_quorum.contains(v) ==> lc[j]
                == logs[v][j],
{
    lemma_quorum_overlap(nodes, commit_quorum, vote_quorum);
    let w = choose|v: u64| commit_quorum.contains(v) && vote_quorum.contains(v);
    assert(commit_quorum.contains(w) && vote_quorum.contains(w));
    let lw = logs[w];
    assert(lw.len() >= ci && lw[ci - 1] == e);

    // the voter's last term is at least `t`, since it holds an entry of
    // term `t` and terms never decrease
    assert(lw[ci - 1].term == t);
    assert(last_term_of(lw) >= t) by {
        assert(lw[ci - 1].term <= lw[lw.len() - 1].term);
    }

    // the up-to-date comparison with a candidate whose last term is `t`
    // forces a tie on terms, decided by length
    assert(last_term_of(lw) == t && lc.len() >= lw.len());
    assert(lc.len() >= ci);

    // the candidate's last entry has term `t`, so provenance places it in
    // the creator's log, and log matching then identifies the whole prefix
    assert(lc[lc.len() - 1].term == t);
    assert(lc[lc.len() - 1] == creator[lc.len() - 1] && creator.len() >= lc.len());
    assert(lc[lc.len() - 1].term == creator[lc.len() - 1].term);
    assert forall|j: int| 0 <= j < lc.len() implies lc[j] == creator[j] by {
        assert(lc[lc.len() - 1].term == creator[lc.len() - 1].term);
    }

    // the committed entry likewise sits in the creator's log
    assert(lw[ci - 1] == creator[ci - 1]);
    assert(lc[ci - 1] == e);

    // and any overlap node's committed prefix agrees with the candidate
    assert forall|j: int, v: u64|
        0 <= j < ci && commit_quorum.contains(v) && vote_quorum.contains(v) implies lc[j]
        == logs[v][j] by {
        let lv = logs[v];
        assert(lv[ci - 1] == e);
        assert(lv[ci - 1] == creator[ci - 1]);
        assert(lv[ci - 1].term == creator[ci - 1].term);
        assert(lv[j] == creator[j]);
    }
}

/// State-machine safety across two nodes, given log matching: logs that
/// agree on the term at an applied index carry the very same command there,
/// so the two state machines apply the same operation at that position.
pub proof fn lemma_state_machine_safety(l1: Seq<LogEntry>, l2: Seq<LogEntry>, i: int)
    requires
        log_matching_pair(l1, l2),
        0 <= i < l1.len(),
        i < l2.len(),
        l1[i].term == l2[i].term,
    ensures
        l1[i] == l2[i],
        forall|j: int| 0 <= j <= i ==> l1[j] == l2[j],
{
}

} // verus!
