use ds_raft::raft_server::log_entry::{Log, LogEntry, RaftList, RaftOperation};
use ds_raft::raft_server::rpc::{
    AppendEntriesParameters, RPCResponse, RPCResponseParameters, RPCType, RequestVoteParameters,
    Response,
};
use ds_raft::raft_server::server::{RaftPersistence, RaftServer, ServerState};

fn entry(term: u64, operation: RaftOperation) -> LogEntry {
    LogEntry { operation, term }
}

fn server_with(rank: i32, term: u64, log_terms: &[u64]) -> RaftServer {
    let mut log = Log::new();
    for t in log_terms {
        log.put(entry(*t, RaftOperation::Incr));
    }
    RaftServer::new(rank, RaftPersistence { current_term: term, voted_for: -1, log })
}

fn log_terms(s: &RaftServer) -> Vec<u64> {
    (1..=s.persistence.log.len()).map(|i| s.persistence.log.get(i).term).collect()
}

fn vote_params(term: u64, candidate: i32, last_index: usize, last_term: u64) -> RequestVoteParameters {
    RequestVoteParameters { term, candidate_id: candidate, last_log_index: last_index, last_log_term: last_term }
}

fn ae_params(term: u64, prev: usize, prev_term: u64, entries: Vec<LogEntry>, commit: usize) -> AppendEntriesParameters {
    AppendEntriesParameters { term, leader_id: 0, prev_log_index: prev, prev_log_term: prev_term, entries, leader_commit: commit }
}

#[test]
fn fresh_server_is_a_follower_with_default_persistence() {
    let s = RaftServer::new(3, RaftPersistence::default());
    assert_eq!(s.state, ServerState::Follower);
    assert_eq!(s.rank, 3);
    assert_eq!(s.persistence.current_term, 0);
    assert_eq!(s.persistence.voted_for, -1);
    assert_eq!(s.persistence.log.len(), 0);
    assert_eq!((s.commit_index, s.last_applied, s.vote_count, s.val), (0, 0, 0, 0));
    assert!(s.next_index.is_empty() && s.match_index.is_empty());
}

#[test]
fn request_vote_carries_term_and_last_entry() {
    let s = server_with(2, 5, &[1, 4]);
    let m = s.request_vote();
    assert_eq!(m.rtype, RPCType::RequestVote);
    assert!(m.ae_params.is_none());
    assert_eq!(m.rv_params, Some(vote_params(5, 2, 2, 4)));
}

#[test]
fn empty_append_is_a_heartbeat_after_the_last_entry() {
    let mut s = server_with(1, 3, &[1, 2, 3]);
    s.commit_index = 2;
    let m = s.empty_append();
    assert_eq!(m.rtype, RPCType::AppendEntries);
    let p = m.ae_params.unwrap();
    assert_eq!((p.term, p.leader_id, p.prev_log_index, p.prev_log_term, p.leader_commit), (3, 1, 3, 3, 2));
    assert!(p.entries.is_empty());
}

#[test]
fn custom_append_sends_entries_from_next_index() {
    let mut s = server_with(0, 3, &[1, 2, 3]);
    s.init_leader_state(3);
    s.set_next_index(1, 2);
    let p = s.custom_append(1).ae_params.unwrap();
    assert_eq!((p.prev_log_index, p.prev_log_term), (1, 1));
    assert_eq!(p.entries.iter().map(|e| e.term).collect::<Vec<_>>(), vec![2, 3]);
    s.set_next_index(1, 1);
    let p = s.custom_append(1).ae_params.unwrap();
    assert_eq!((p.prev_log_index, p.prev_log_term, p.entries.len()), (0, 0, 3));
    let p = s.custom_append(2).ae_params.unwrap();
    assert_eq!((p.prev_log_index, p.prev_log_term, p.entries.len()), (3, 3, 0));
}

#[test]
fn init_leader_state_sets_every_rank() {
    let mut s = server_with(0, 1, &[1, 1]);
    s.init_leader_state(3);
    for r in 0..3 {
        assert_eq!(s.next_index[&r], 3);
        assert_eq!(s.match_index[&r], 0);
    }
    assert_eq!(s.next_index.len(), 3);
}

#[test]
fn decr_next_index_steps_back_but_not_below_one() {
    let mut s = server_with(0, 1, &[]);
    s.set_next_index(1, 5);
    s.decr_next_index(1);
    assert_eq!(s.next_index[&1], 4);
    s.decr_next_index(1);
    assert_eq!(s.next_index[&1], 3);
    s.set_next_index(2, 2);
    s.decr_next_index(2);
    assert_eq!(s.next_index[&2], 1);
    s.decr_next_index(2);
    assert_eq!(s.next_index[&2], 1);
}

#[test]
fn set_match_index_records_progress() {
    let mut s = server_with(0, 1, &[]);
    s.set_match_index(4, 7);
    s.set_match_index(4, 9);
    assert_eq!(s.match_index[&4], 9);
    assert_eq!(s.match_index.len(), 1);
}

#[test]
fn update_commit_index_needs_a_majority_of_the_current_term() {
    // the leader and one of the two others hold raft index 3: a majority of 3
    let mut s = server_with(0, 2, &[1, 2, 2, 2]);
    s.init_leader_state(3);
    s.set_match_index(1, 3);
    s.update_commit_index(3);
    assert_eq!(s.commit_index, 3);
    // the last raft index counts too
    s.set_match_index(2, 4);
    s.update_commit_index(3);
    assert_eq!(s.commit_index, 4);
    // no majority: the leader alone among 3
    let mut t = server_with(0, 2, &[1, 2, 2, 2]);
    t.init_leader_state(3);
    t.update_commit_index(3);
    assert_eq!(t.commit_index, 0);
    // half of 4 is no majority
    let mut v = server_with(0, 2, &[2]);
    v.init_leader_state(4);
    v.set_match_index(1, 1);
    v.update_commit_index(4);
    assert_eq!(v.commit_index, 0);
    // entries of an older term are not committed by counting
    let mut u = server_with(0, 3, &[1, 2, 2, 2]);
    u.init_leader_state(3);
    u.set_match_index(1, 4);
    u.set_match_index(2, 4);
    u.update_commit_index(3);
    assert_eq!(u.commit_index, 0);
}

#[test]
fn update_commit_index_commits_a_single_entry_held_by_leader_and_one_follower() {
    let mut s = server_with(0, 2, &[2]);
    s.init_leader_state(3);
    s.set_match_index(1, 1);
    s.update_commit_index(3);
    assert_eq!(s.commit_index, 1);
}

#[test]
fn apply_commited_applies_one_entry() {
    let mut s = server_with(0, 1, &[]);
    s.dummy_incr();
    s.dummy_incr();
    s.dummy_decr();
    assert_eq!(s.persistence.log.get(3), entry(1, RaftOperation::Decr));
    s.commit_index = 3;
    s.apply_commited();
    assert_eq!((s.last_applied, s.val), (1, 1));
    s.apply_commited();
    s.apply_commited();
    assert_eq!((s.last_applied, s.val), (3, 1));
    s.apply_commited();
    assert_eq!((s.last_applied, s.val), (3, 1));
}

#[test]
fn start_election_makes_a_candidate_voting_for_itself() {
    let mut s = server_with(2, 4, &[3]);
    let m = s.start_election();
    assert_eq!(s.state, ServerState::Candidate);
    assert_eq!(s.persistence.current_term, 5);
    assert_eq!(s.persistence.voted_for, 2);
    assert_eq!(s.vote_count, 1);
    assert_eq!(m.rv_params, Some(vote_params(5, 2, 1, 3)));
}

#[test]
fn try_become_leader_needs_more_votes_than_the_rest() {
    let mut s = server_with(0, 1, &[1]);
    s.start_election();
    assert!(s.try_become_leader(3).is_none());
    assert_eq!(s.state, ServerState::Candidate);
    s.vote_count = 2;
    let m = s.try_become_leader(3).unwrap();
    assert_eq!(s.state, ServerState::Leader);
    assert_eq!(s.next_index[&1], 2);
    assert_eq!(m.ae_params.unwrap().prev_log_index, 1);
}

#[test]
fn leader_round_addresses_every_other_rank() {
    let mut s = server_with(1, 1, &[1]);
    s.init_leader_state(3);
    let msgs = s.leader_round(3);
    assert_eq!(msgs.iter().map(|(r, _)| *r).collect::<Vec<_>>(), vec![0, 2]);
    let p = msgs[0].1.ae_params.clone().unwrap();
    assert_eq!(p.entries.len(), 0);
    s.set_next_index(2, 1);
    let msgs = s.leader_round(3);
    assert_eq!(msgs[1].1.ae_params.clone().unwrap().entries.len(), 1);
}

#[test]
fn request_vote_is_granted_to_an_up_to_date_candidate() {
    let mut s = server_with(1, 2, &[1, 2]);
    let r = s.issue_requestvote(vote_params(2, 0, 2, 2), 0);
    assert!(r.params.success);
    assert_eq!(r.params.term, 2);
    assert_eq!(r.to, 0);
    assert_eq!(r.rtype, RPCType::RequestVote);
    assert_eq!(s.persistence.voted_for, 0);
}

#[test]
fn request_vote_is_refused_to_a_second_candidate_in_the_same_term() {
    let mut s = server_with(1, 2, &[1]);
    assert!(s.issue_requestvote(vote_params(2, 0, 1, 1), 0).params.success);
    let r = s.issue_requestvote(vote_params(2, 2, 5, 2), 2);
    assert!(!r.params.success);
    assert_eq!(s.persistence.voted_for, 0);
    assert!(s.issue_requestvote(vote_params(2, 0, 1, 1), 0).params.success);
}

#[test]
fn request_vote_is_refused_for_a_stale_term_or_an_older_log() {
    let mut s = server_with(1, 3, &[1, 3]);
    let r = s.issue_requestvote(vote_params(2, 0, 9, 3), 0);
    assert!(!r.params.success);
    assert_eq!(r.params.term, 3);
    let r = s.issue_requestvote(vote_params(3, 0, 5, 2), 0);
    assert!(!r.params.success);
    let r = s.issue_requestvote(vote_params(3, 0, 1, 3), 0);
    assert!(!r.params.success);
    assert_eq!(s.persistence.voted_for, -1);
}

#[test]
fn request_vote_of_a_newer_term_makes_a_follower() {
    let mut s = server_with(1, 3, &[3]);
    s.start_election();
    assert_eq!(s.persistence.current_term, 4);
    let r = s.issue_requestvote(vote_params(6, 0, 0, 0), 0);
    assert!(!r.params.success);
    assert_eq!(r.params.term, 4);
    assert_eq!(s.persistence.current_term, 6);
    assert_eq!(s.persistence.voted_for, -1);
    assert_eq!(s.state, ServerState::Follower);
    let r = s.issue_requestvote(vote_params(7, 2, 1, 3), 2);
    assert!(r.params.success);
    assert_eq!(r.params.term, 7);
}

#[test]
fn append_entries_accepts_matching_entries() {
    let mut s = server_with(1, 2, &[1]);
    let r = s.issue_appendentries(ae_params(2, 1, 1, vec![entry(2, RaftOperation::Incr), entry(2, RaftOperation::Decr)], 5), 0);
    assert!(r.params.success);
    assert_eq!(r.params.term, 2);
    assert_eq!(r.rtype, RPCType::AppendEntries);
    assert_eq!(r.params.ae_params.as_ref().unwrap().prev_log_index, 1);
    assert_eq!(log_terms(&s), vec![1, 2, 2]);
    assert_eq!(s.commit_index, 3);
}

#[test]
fn append_entries_refuses_stale_term_and_missing_previous_entry() {
    let mut s = server_with(1, 3, &[1, 2]);
    assert!(!s.issue_appendentries(ae_params(2, 2, 2, vec![entry(2, RaftOperation::Incr)], 0), 0).params.success);
    assert!(!s.issue_appendentries(ae_params(3, 2, 1, vec![entry(3, RaftOperation::Incr)], 0), 0).params.success);
    assert!(!s.issue_appendentries(ae_params(3, 5, 2, vec![], 0), 0).params.success);
    assert!(!s.issue_appendentries(ae_params(3, 0, 1, vec![], 0), 0).params.success);
    assert_eq!(log_terms(&s), vec![1, 2]);
}

#[test]
fn append_entries_cuts_at_the_first_conflict() {
    let mut s = server_with(1, 3, &[1, 1, 2, 2]);
    let sent = vec![entry(1, RaftOperation::Incr), entry(3, RaftOperation::Decr)];
    assert!(s.issue_appendentries(ae_params(3, 1, 1, sent.clone(), 0), 0).params.success);
    assert_eq!(log_terms(&s), vec![1, 1, 3]);
    assert!(s.issue_appendentries(ae_params(3, 1, 1, sent, 0), 0).params.success);
    assert_eq!(log_terms(&s), vec![1, 1, 3]);
}

#[test]
fn append_entries_keeps_extra_entries_without_conflict() {
    let mut s = server_with(1, 3, &[1, 1, 2]);
    assert!(s.issue_appendentries(ae_params(3, 0, 0, vec![entry(1, RaftOperation::Decr)], 9), 0).params.success);
    assert_eq!(log_terms(&s), vec![1, 1, 2]);
    assert_eq!(s.persistence.log.get(1).operation, RaftOperation::Incr);
    assert_eq!(s.commit_index, 3);
}

#[test]
fn append_entries_of_a_newer_term_makes_a_follower_of_that_term() {
    let mut s = server_with(1, 3, &[]);
    s.start_election();
    assert_eq!(s.persistence.voted_for, 1);
    let r = s.issue_appendentries(ae_params(9, 0, 0, vec![], 0), 0);
    assert!(r.params.success);
    assert_eq!(r.params.term, 9);
    assert_eq!(s.state, ServerState::Follower);
    assert_eq!(s.persistence.current_term, 9);
    assert_eq!(s.persistence.voted_for, -1);
    let mut f = server_with(1, 0, &[]);
    let r = f.issue_appendentries(ae_params(9, 4, 1, vec![], 0), 0);
    assert!(!r.params.success);
    assert_eq!(r.params.term, 9);
    assert_eq!(f.persistence.current_term, 9);
}

fn response(rtype: RPCType, term: u64, success: bool, ae: Option<AppendEntriesParameters>) -> RPCResponse {
    RPCResponse {
        response: Response,
        rtype,
        params: RPCResponseParameters { term, success, rv_params: None, ae_params: ae },
        to: 0,
    }
}

#[test]
fn vote_responses_count_or_step_down() {
    let mut s = server_with(0, 1, &[]);
    s.start_election();
    s.handle_response(response(RPCType::RequestVote, 2, true, None), 1);
    assert_eq!(s.vote_count, 2);
    s.handle_response(response(RPCType::RequestVote, 1, true, None), 2);
    assert_eq!(s.vote_count, 2);
    s.handle_response(response(RPCType::RequestVote, 2, false, None), 2);
    assert_eq!(s.state, ServerState::Candidate);
    s.handle_response(response(RPCType::RequestVote, 5, false, None), 2);
    assert_eq!(s.state, ServerState::Follower);
    assert_eq!(s.persistence.current_term, 5);
    assert_eq!(s.persistence.voted_for, -1);
}

#[test]
fn append_responses_move_next_and_match_index() {
    let mut s = server_with(0, 1, &[1, 1]);
    s.init_leader_state(2);
    s.handle_response(response(RPCType::AppendEntries, 1, true, Some(ae_params(1, 0, 0, vec![entry(1, RaftOperation::Incr); 2], 0))), 1);
    assert_eq!(s.next_index[&1], 3);
    assert_eq!(s.match_index[&1], 2);
    s.handle_response(response(RPCType::AppendEntries, 1, false, None), 1);
    assert_eq!(s.next_index[&1], 2);
    s.handle_response(response(RPCType::AppendEntries, 1, false, None), 1);
    assert_eq!(s.next_index[&1], 1);
    s.handle_response(response(RPCType::AppendEntries, 1, false, None), 1);
    assert_eq!(s.next_index[&1], 1);
    s.handle_response(response(RPCType::AppendEntries, 1, true, None), 1);
    assert_eq!(s.next_index[&1], 1);
    s.handle_response(response(RPCType::AppendEntries, 4, false, None), 1);
    assert_eq!(s.persistence.current_term, 4);
    assert_eq!(s.state, ServerState::Follower);
    assert_eq!(s.next_index[&1], 1);
}

#[test]
fn follower_with_the_same_log_accepts_the_heartbeat() {
    let leader = server_with(0, 2, &[1, 2]);
    let mut follower = server_with(1, 2, &[1, 2]);
    let params = leader.empty_append().ae_params.unwrap();
    assert!(follower.issue_appendentries(params, 0).params.success);
    assert_eq!(log_terms(&follower), vec![1, 2]);
}

#[test]
fn follower_takes_the_leaders_entries_from_next_index() {
    let mut leader = server_with(0, 3, &[1, 1, 3, 3]);
    leader.init_leader_state(2);
    leader.set_next_index(1, 2);
    let mut follower = server_with(1, 2, &[1, 2, 2, 2, 2]);
    let params = leader.custom_append(1).ae_params.unwrap();
    assert!(follower.issue_appendentries(params, 0).params.success);
    assert_eq!(log_terms(&follower), vec![1, 1, 3, 3]);
}
