use rustlab::raft::LogEntry;
use rustlab::raft::NodeState;
use rustlab::raft::RaftMessage;
use rustlab::raft::RaftNode;

fn make_cluster(n: u64) -> Vec<RaftNode> {
    let mut nodes = Vec::new();
    for id in 0..n {
        let peers: Vec<u64> = (0..n).filter(|p| *p != id).collect();
        nodes.push(RaftNode::new(id, peers));
    }
    nodes
}

fn request_vote_fields(msg: &RaftMessage) -> (u64, u64, usize, u64) {
    match msg {
        RaftMessage::RequestVote { term, candidate_id, last_log_index, last_log_term } => {
            (*term, *candidate_id, *last_log_index, *last_log_term)
        }
        _ => panic!("expected RequestVote"),
    }
}

fn append_entries_fields(msg: RaftMessage) -> (u64, u64, usize, u64, Vec<LogEntry>, usize) {
    match msg {
        RaftMessage::AppendEntries {
            term,
            leader_id,
            prev_log_index,
            prev_log_term,
            entries,
            leader_commit,
        } => (term, leader_id, prev_log_index, prev_log_term, entries, leader_commit),
        _ => panic!("expected AppendEntries"),
    }
}

fn response_fields(msg: &RaftMessage) -> (u64, bool, usize) {
    match msg {
        RaftMessage::AppendEntriesResponse { term, success, match_index } => {
            (*term, *success, *match_index)
        }
        _ => panic!("expected AppendEntriesResponse"),
    }
}

/// Run one full election: `candidate` times out, campaigns, and gathers
/// votes from every node in `voters`.
fn elect(nodes: &mut Vec<RaftNode>, candidate: usize, voters: &[usize]) {
    nodes[candidate].start_election();
    let req = nodes[candidate].create_request_vote();
    let (term, cand_id, lli, llt) = request_vote_fields(&req);
    for &v in voters {
        let voter_id = nodes[v].id;
        let resp = nodes[v].handle_request_vote(term, cand_id, lli, llt);
        match resp {
            RaftMessage::RequestVoteResponse { term, vote_granted } => {
                nodes[candidate].handle_vote_response(voter_id, term, vote_granted);
            }
            _ => panic!("expected RequestVoteResponse"),
        }
    }
}

/// Replicate the leader's pending entries to `follower` and feed the reply
/// back, advancing the leader's commit index when a quorum is reached.
fn replicate(nodes: &mut Vec<RaftNode>, leader: usize, follower: usize) {
    let follower_id = nodes[follower].id;
    let msg = nodes[leader].create_append_entries(follower_id);
    let (term, leader_id, pli, plt, entries, commit) = append_entries_fields(msg);
    let _ = leader_id;
    let resp = nodes[follower].handle_append_entries(term, leader_id, pli, plt, entries, commit);
    let (rterm, success, match_index) = response_fields(&resp);
    nodes[leader].handle_append_entries_response(follower_id, rterm, success, match_index);
}

#[test]
fn five_node_partition_majority_elects_minority_does_not() {
    let mut nodes = make_cluster(5);

    // nodes 3 and 4 are cut off; the three-node majority elects node 0
    elect(&mut nodes, 0, &[1, 2]);
    assert_eq!(nodes[0].state, NodeState::Leader);

    // the majority keeps committing client requests
    nodes[0].handle_client_request("SET a = 1".to_string()).unwrap();
    replicate(&mut nodes, 0, 1);
    replicate(&mut nodes, 0, 2);
    assert_eq!(nodes[0].commit_index, 1);

    // meanwhile a node in the two-node minority campaigns and hears only
    // from the other minority member: one vote plus its own is short of the
    // majority of five
    elect(&mut nodes, 3, &[4]);
    assert_eq!(nodes[3].state, NodeState::Candidate);
    assert_ne!(nodes[3].state, NodeState::Leader);

    // even if the transport duplicates the lone grant, it is counted once
    // per peer: the minority still cannot elect a leader
    let minority_term = nodes[3].current_term;
    nodes[3].handle_vote_response(4, minority_term, true);
    nodes[3].handle_vote_response(4, minority_term, true);
    assert_eq!(nodes[3].votes_received, 2);
    assert_eq!(nodes[3].state, NodeState::Candidate);

    // once the partition heals, the stale candidate steps down on contact
    // with the legitimate leader
    replicate(&mut nodes, 0, 3);
    assert_eq!(nodes[3].state, NodeState::Follower);
    assert_eq!(nodes[3].current_term, nodes[0].current_term);
}

#[test]
fn client_request_commits_and_applies_exactly_once() {
    let mut nodes = make_cluster(3);
    elect(&mut nodes, 0, &[1, 2]);
    assert_eq!(nodes[0].state, NodeState::Leader);

    nodes[0].handle_client_request("SET x = 10".to_string()).unwrap();

    // replication to one follower already forms a majority of three
    replicate(&mut nodes, 0, 1);
    assert_eq!(nodes[0].commit_index, 1);

    // the next cycle carries the advanced commit index to both followers
    replicate(&mut nodes, 0, 1);
    replicate(&mut nodes, 0, 2);
    let mut total_applies = 0;
    for node in nodes.iter_mut() {
        let applied = node.apply_committed_entries();
        assert_eq!(applied.len(), 1);
        assert_eq!(applied[0].command, "SET x = 10");
        assert_eq!(applied[0].index, 1);
        total_applies += applied.len();

        // a second sweep finds nothing new to apply
        let again = node.apply_committed_entries();
        assert_eq!(again.len(), 0);
    }
    assert_eq!(total_applies, 3);
}

#[test]
fn divergent_follower_tail_is_truncated() {
    let mut nodes = make_cluster(3);

    // node 2 leads term 1 and appends entries that never reach a majority
    elect(&mut nodes, 2, &[0, 1]);
    assert_eq!(nodes[2].state, NodeState::Leader);
    nodes[2].handle_client_request("old-1".to_string()).unwrap();
    nodes[2].handle_client_request("old-2".to_string()).unwrap();
    assert_eq!(nodes[2].log.len(), 2);

    // node 0 wins term 2 with node 1's vote and accepts new commands
    elect(&mut nodes, 0, &[1]);
    assert_eq!(nodes[0].state, NodeState::Leader);
    nodes[0].handle_client_request("new-1".to_string()).unwrap();
    nodes[0].handle_client_request("new-2".to_string()).unwrap();
    nodes[0].handle_client_request("new-3".to_string()).unwrap();

    // the deposed leader's divergent tail is backed off and overwritten:
    // its log ends up identical to the new leader's
    for _ in 0..6 {
        replicate(&mut nodes, 0, 2);
    }
    assert_eq!(nodes[2].state, NodeState::Follower);
    assert_eq!(nodes[2].log.len(), nodes[0].log.len());
    for i in 0..nodes[0].log.len() {
        assert_eq!(nodes[2].log[i].term, nodes[0].log[i].term);
        assert_eq!(nodes[2].log[i].index, nodes[0].log[i].index);
        assert_eq!(nodes[2].log[i].command, nodes[0].log[i].command);
    }
}

#[test]
fn vote_is_not_revoted_within_a_term() {
    let mut nodes = make_cluster(3);
    nodes[1].start_election();
    let req = nodes[1].create_request_vote();
    let (term, _, lli, llt) = request_vote_fields(&req);

    // node 0 grants its term-1 vote to node 1
    match nodes[0].handle_request_vote(term, 1, lli, llt) {
        RaftMessage::RequestVoteResponse { vote_granted, .. } => assert!(vote_granted),
        _ => panic!("expected RequestVoteResponse"),
    }
    // a rival candidate of the same term is refused
    match nodes[0].handle_request_vote(term, 2, 0, 0) {
        RaftMessage::RequestVoteResponse { vote_granted, .. } => assert!(!vote_granted),
        _ => panic!("expected RequestVoteResponse"),
    }
    // but the original candidate is granted again (idempotent re-delivery)
    match nodes[0].handle_request_vote(term, 1, lli, llt) {
        RaftMessage::RequestVoteResponse { vote_granted, .. } => assert!(vote_granted),
        _ => panic!("expected RequestVoteResponse"),
    }
}

#[test]
fn stale_term_messages_are_rejected_without_state_change() {
    let mut nodes = make_cluster(3);
    elect(&mut nodes, 0, &[1, 2]);
    let term_before = nodes[0].current_term;
    assert!(term_before >= 1);

    // an append from a long-dead term-0 leader is refused
    let resp = nodes[0].handle_append_entries(0, 2, 0, 0, Vec::new(), 0);
    let (rterm, success, _) = response_fields(&resp);
    assert!(!success);
    assert_eq!(rterm, term_before);
    assert_eq!(nodes[0].state, NodeState::Leader);
    assert_eq!(nodes[0].current_term, term_before);
}

#[test]
fn out_of_date_candidate_is_refused() {
    let mut nodes = make_cluster(3);
    elect(&mut nodes, 0, &[1, 2]);
    nodes[0].handle_client_request("SET x = 1".to_string()).unwrap();
    replicate(&mut nodes, 0, 1);

    // node 2 never got the entry; node 1 holds it, so node 1 refuses a
    // candidate whose log is behind its own
    let stale_term = nodes[2].current_term + 1;
    match nodes[1].handle_request_vote(stale_term, 2, 0, 0) {
        RaftMessage::RequestVoteResponse { vote_granted, .. } => assert!(!vote_granted),
        _ => panic!("expected RequestVoteResponse"),
    }
}

#[test]
fn commit_index_and_term_never_decrease() {
    let mut nodes = make_cluster(3);
    let mut max_term = 0;
    let mut max_commit = 0;
    let mut check = |n: &RaftNode, max_term: &mut u64, max_commit: &mut usize| {
        assert!(n.current_term >= *max_term);
        assert!(n.commit_index >= *max_commit);
        *max_term = n.current_term;
        *max_commit = n.commit_index;
    };

    elect(&mut nodes, 0, &[1, 2]);
    check(&nodes[0], &mut max_term, &mut max_commit);
    nodes[0].handle_client_request("a".to_string()).unwrap();
    check(&nodes[0], &mut max_term, &mut max_commit);
    replicate(&mut nodes, 0, 1);
    check(&nodes[0], &mut max_term, &mut max_commit);
    replicate(&mut nodes, 0, 2);
    check(&nodes[0], &mut max_term, &mut max_commit);
    let _ = nodes[0].handle_request_vote(max_term + 3, 1, 5, 5);
    assert!(nodes[0].current_term >= max_term);
}

#[test]
fn election_timer_counts_ticks() {
    let peers = vec![1, 2];
    let mut node = RaftNode::new(0, peers);
    assert!(!node.is_election_timeout());
    for _ in 0..=node.election_timeout {
        node.tick();
    }
    assert!(node.is_election_timeout());
    node.reset_election_timer();
    assert!(!node.is_election_timeout());
}
