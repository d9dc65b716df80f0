use vstd::prelude::*;

use std::collections::HashMap;

use crate::raft_server::log_entry::{
    accept_entries, last_term_of, law_accepted_entries_agree, law_first_conflict_is_first, Log,
    LogEntry, RaftList, RaftOperation,
};
use crate::raft_server::rpc::{
    AppendEntriesParameters, RPCMessage, RPCResponse, RPCResponseParameters, RPCType, Rank,
    Request, RequestVoteParameters, Response,
};

verus! {

broadcast use vstd::std_specs::hash::group_hash_axioms;

/// The role of a server.
#[derive(Debug, Clone, Copy, PartialEq, Eq, Structural)]
pub enum ServerState {
    Follower,
    Leader,
    Candidate,
}

/// What a server keeps on disk: its term, its vote and its log.
#[derive(Debug)]
pub struct RaftPersistence {
    pub current_term: u64,
    pub voted_for: Rank,
    pub log: Log,
}

impl Default for RaftPersistence {
    /// The state of a server that has never run: term 0, no vote (-1), an
    /// empty log.
    fn default() -> (res: RaftPersistence)
        ensures
            res.current_term == 0,
            res.voted_for == -1,
            res.log@ == Seq::<LogEntry>::empty(),
    {
        RaftPersistence { current_term: 0, voted_for: -1, log: Log::new() }
    }
}

/// A Raft server: its persistent state, its volatile state, and on a leader
/// the replication progress of each follower.
#[derive(Debug)]
pub struct RaftServer {
    pub persistence: RaftPersistence,
    pub state: ServerState,
    pub rank: Rank,
    pub commit_index: usize,
    pub last_applied: usize,
    pub vote_count: Rank,
    pub val: i32,
    pub next_index: HashMap<Rank, usize>,
    pub match_index: HashMap<Rank, usize>,
}

/// `m` is an AppendEntries request with exactly these arguments.
pub open spec fn is_append_message(
    m: RPCMessage,
    term: u64,
    leader: Rank,
    prev: int,
    prev_term: u64,
    entries: Seq<LogEntry>,
    commit: int,
) -> bool {
    &&& m.message == Request
    &&& m.rtype == RPCType::AppendEntries
    &&& m.rv_params is None
    &&& m.ae_params is Some
    &&& m.ae_params.unwrap().term == term
    &&& m.ae_params.unwrap().leader_id == leader
    &&& m.ae_params.unwrap().prev_log_index == prev
    &&& m.ae_params.unwrap().prev_log_term == prev_term
    &&& m.ae_params.unwrap().entries@ == entries
    &&& m.ae_params.unwrap().leader_commit == commit
}

/// The term of the entry at raft index `i`, 0 for raft index 0.
pub open spec fn term_at(entries: Seq<LogEntry>, i: int) -> u64 {
    if i >= 1 {
        entries[i - 1].term
    } else {
        0
    }
}

/// The map that sends each rank in `[0, size)` to `v`.
pub open spec fn ranks_map(size: int, v: usize) -> Map<Rank, usize> {
    Map::new(|r: Rank| 0 <= r < size, |r: Rank| v)
}

/// How many ranks in `[0, upto)`, other than `rank`, have replicated the
/// entry at raft index `n`, by `match_index`.
pub open spec fn replication_count(match_index: Map<Rank, usize>, rank: Rank, upto: int, n: int) -> int
    decreases upto,
{
    if upto <= 0 {
        0
    } else {
        replication_count(match_index, rank, upto - 1, n) + if upto - 1 != rank && match_index[(upto
            - 1) as Rank] >= n {
            1int
        } else {
            0int
        }
    }
}

/// A leader in term `term` may commit raft index `n`: the entry there is of
/// its own term, and a majority of the `size` servers have it, the leader
/// counted.
pub open spec fn committable(
    entries: Seq<LogEntry>,
    term: u64,
    match_index: Map<Rank, usize>,
    rank: Rank,
    size: int,
    n: int,
) -> bool {
    let votes = replication_count(match_index, rank, size, n) + 1;
    &&& entries[n - 1].term == term
    &&& 2 * votes > size
}

/// The highest raft index in `[lo, hi)` that may be committed, or `default`
/// when there is none.
pub open spec fn highest_committable(
    entries: Seq<LogEntry>,
    term: u64,
    match_index: Map<Rank, usize>,
    rank: Rank,
    size: int,
    lo: int,
    hi: int,
    default: int,
) -> int
    decreases hi - lo,
{
    if hi <= lo {
        default
    } else if committable(entries, term, match_index, rank, size, hi - 1) {
        hi - 1
    } else {
        highest_committable(entries, term, match_index, rank, size, lo, hi - 1, default)
    }
}

/// The counter after applying `op` to `val`.
pub open spec fn apply_operation(val: int, op: RaftOperation) -> int {
    match op {
        RaftOperation::Incr => val + 1,
        RaftOperation::Decr => val - 1,
    }
}

/// The candidate's log is at least as up to date as a log whose last entry
/// has term `last_term` at raft index `last_index`.
pub open spec fn candidate_up_to_date(params: RequestVoteParameters, last_term: u64, last_index: int) -> bool {
    ||| params.last_log_term > last_term
    ||| params.last_log_term == last_term && params.last_log_index >= last_index
}

/// Whether a server in term `current_term` that voted for `voted_for` (-1
/// for nobody), with a log ending in term `last_term` at raft index
/// `last_index`, grants its vote to the request `params`: the request is not
/// stale, the server has not voted for another candidate in the request's
/// term, and the candidate's log is at least as up to date.
pub open spec fn vote_granted(
    current_term: u64,
    voted_for: Rank,
    last_term: u64,
    last_index: int,
    params: RequestVoteParameters,
) -> bool {
    let vote: Rank = if params.term > current_term {
        -1i32
    } else {
        voted_for
    };
    &&& params.term >= current_term
    &&& (vote == -1 || vote == params.candidate_id)
    &&& candidate_up_to_date(params, last_term, last_index)
}

/// The log holds term `prev_term` at raft index `prev` (raft index 0 holds
/// term 0).
pub open spec fn log_matches(entries: Seq<LogEntry>, prev: int, prev_term: u64) -> bool {
    ||| prev == 0 && prev_term == 0
    ||| 1 <= prev <= entries.len() && entries[prev - 1].term == prev_term
}

/// The answer to a RequestVote request.
pub open spec fn vote_response(term: u64, success: bool, params: RequestVoteParameters, to: Rank) -> RPCResponse {
    RPCResponse {
        response: Response,
        rtype: RPCType::RequestVote,
        params: RPCResponseParameters {
            term: term,
            success: success,
            rv_params: Some(params),
            ae_params: None,
        },
        to: to,
    }
}

/// The answer to an AppendEntries request.
pub open spec fn append_response(
    term: u64,
    success: bool,
    params: AppendEntriesParameters,
    to: Rank,
) -> RPCResponse {
    RPCResponse {
        response: Response,
        rtype: RPCType::AppendEntries,
        params: RPCResponseParameters {
            term: term,
            success: success,
            rv_params: None,
            ae_params: Some(params),
        },
        to: to,
    }
}

/// The ranks in `[0, upto)` other than `rank`, in increasing order.
pub open spec fn peers(rank: Rank, upto: int) -> Seq<Rank>
    decreases upto,
{
    if upto <= 0 {
        Seq::empty()
    } else if upto - 1 != rank {
        peers(rank, upto - 1).push((upto - 1) as Rank)
    } else {
        peers(rank, upto - 1)
    }
}

/// The counter after applying, from 0, the operations of `entries` in order.
pub open spec fn applied_value(entries: Seq<LogEntry>) -> int
    decreases entries.len(),
{
    if entries.len() == 0 {
        0
    } else {
        apply_operation(applied_value(entries.drop_last()), entries.last().operation)
    }
}

/// The counter of `s` is the result of the entries it has applied.
pub open spec fn counter_matches(s: RaftServer) -> bool {
    &&& s.last_applied <= s.log_entries().len()
    &&& s.val == applied_value(s.log_entries().take(s.last_applied as int))
}

/// `after` is `before` once `apply_commited` has run: when an entry is
/// committed but not applied, the next one is applied to the counter;
/// otherwise nothing changes.
pub open spec fn applied_next(before: RaftServer, after: RaftServer) -> bool {
    if before.last_applied < before.commit_index {
        &&& after.last_applied == before.last_applied + 1
        &&& after.val == apply_operation(
            before.val as int,
            before.log_entries()[before.last_applied as int].operation,
        )
        &&& after == (RaftServer { last_applied: after.last_applied, val: after.val, ..before })
    } else {
        after == before
    }
}

/// The next index after a refused AppendEntries: one less, but never below 1.
pub open spec fn decremented_next_index(n: usize) -> usize {
    if n - 1 >= 1 {
        (n - 1) as usize
    } else {
        1usize
    }
}

/// Every next index that a leader keeps is at least 1: the entries it sends
/// start at raft index 1 or later.
pub open spec fn next_indices_positive(next_index: Map<Rank, usize>) -> bool {
    forall|r: Rank| #[trigger] next_index.contains_key(r) ==> next_index[r] >= 1
}

/// Stepping a next index back keeps every next index at least 1.
pub proof fn law_decrement_keeps_next_indices_positive(next_index: Map<Rank, usize>, of: Rank)
    requires
        next_indices_positive(next_index),
    ensures
        decremented_next_index(next_index[of]) >= 1,
        next_indices_positive(next_index.insert(of, decremented_next_index(next_index[of]))),
{
}

/// A follower whose log ends like the leader's accepts the leader's
/// heartbeat: every log holds its own last term at its last raft index.
pub proof fn law_heartbeat_matches_own_log(entries: Seq<LogEntry>)
    ensures
        log_matches(entries, entries.len() as int, last_term_of(entries)),
{
}

/// Election safety: a server that has voted in its current term grants no
/// vote to another candidate in that term or an older one.
pub proof fn law_one_vote_per_term(
    current_term: u64,
    voted_for: Rank,
    last_term: u64,
    last_index: int,
    params: RequestVoteParameters,
)
    requires
        voted_for != -1,
        params.term <= current_term,
        params.candidate_id != voted_for,
    ensures
        !vote_granted(current_term, voted_for, last_term, last_index, params),
{
}

/// A vote goes only to a candidate whose term is not behind and whose log
/// is at least as up to date as the voter's.
pub proof fn law_vote_needs_up_to_date_log(
    current_term: u64,
    voted_for: Rank,
    last_term: u64,
    last_index: int,
    params: RequestVoteParameters,
)
    requires
        vote_granted(current_term, voted_for, last_term, last_index, params),
    ensures
        params.term >= current_term,
        candidate_up_to_date(params, last_term, last_index),
{
}

/// The up-to-date rule: a candidate whose last entry has a later term is up
/// to date whatever the lengths of the two logs; with the same last term it
/// is up to date exactly when its log is at least as long; with an earlier
/// last term it never is.
pub proof fn law_up_to_date_rule(params: RequestVoteParameters, last_term: u64, last_index: int)
    ensures
        params.last_log_term > last_term ==> candidate_up_to_date(params, last_term, last_index),
        params.last_log_term == last_term ==> (candidate_up_to_date(params, last_term, last_index)
            <==> params.last_log_index >= last_index),
        params.last_log_term < last_term ==> !candidate_up_to_date(params, last_term, last_index),
{
}

/// A voter grants its vote exactly when the request's term is not behind its
/// own, it has cast no vote for another candidate in the request's term, and
/// the candidate is up to date by the up-to-date rule.
pub proof fn law_vote_granted_exactly_when_eligible(
    current_term: u64,
    voted_for: Rank,
    last_term: u64,
    last_index: int,
    params: RequestVoteParameters,
)
    ensures
        vote_granted(current_term, voted_for, last_term, last_index, params) <==> {
            &&& params.term >= current_term
            &&& (params.term > current_term || voted_for == -1 || voted_for == params.candidate_id)
            &&& (params.last_log_term > last_term || params.last_log_term == last_term
                && params.last_log_index >= last_index)
        },
{
}

/// The consistency check of AppendEntries: raft index 0 matches only term
/// 0; a raft index in the log matches exactly the term of the entry there,
/// wherever it lies in the log; a raft index past the end never matches.
pub proof fn law_consistency_check(entries: Seq<LogEntry>, prev: int, prev_term: u64)
    ensures
        prev == 0 ==> (log_matches(entries, prev, prev_term) <==> prev_term == 0),
        1 <= prev <= entries.len() ==> (log_matches(entries, prev, prev_term) <==> entries[prev
            - 1].term == prev_term),
        (prev < 0 || prev > entries.len()) ==> !log_matches(entries, prev, prev_term),
{
}

/// Every raft index of a log, 0 included, matches the log's own term there:
/// `term_at` reads the entry at that raft index, and 0 before the first.
pub proof fn law_term_at_reads_the_entry(entries: Seq<LogEntry>, i: int)
    requires
        0 <= i <= entries.len(),
    ensures
        log_matches(entries, i, term_at(entries, i)),
        i == 0 ==> term_at(entries, i) == 0,
        i >= 1 ==> term_at(entries, i) == entries[i - 1].term,
        last_term_of(entries) == term_at(entries, entries.len() as int),
{
}

/// The ranks in `[0, upto)`, in order.
pub open spec fn ranks_upto(upto: int) -> Seq<int> {
    Seq::new(if upto > 0 { upto as nat } else { 0 }, |r: int| r)
}

/// The replication count of raft index `n` is the number of ranks in
/// `[0, upto)` other than `rank` whose match index is `n` or more.
pub proof fn law_replication_count_counts_ranks(
    match_index: Map<Rank, usize>,
    rank: Rank,
    upto: int,
    n: int,
)
    ensures
        replication_count(match_index, rank, upto, n) == ranks_upto(upto).filter(
            |r: int| r != rank && match_index[r as Rank] >= n,
        ).len(),
    decreases upto,
{
    let pred = |r: int| r != rank && match_index[r as Rank] >= n;
    if upto <= 0 {
        assert(ranks_upto(upto) =~= Seq::<int>::empty());
    } else {
        law_replication_count_counts_ranks(match_index, rank, upto - 1, n);
        assert(ranks_upto(upto) =~= ranks_upto(upto - 1).push(upto - 1));
        ranks_upto(upto - 1).lemma_filter_len_push(pred, upto - 1);
    }
}

/// Replication only counts up: raising match indices never lowers the count
/// of any raft index, and a lower raft index is held by at least as many.
pub proof fn law_replication_count_monotone(
    lower: Map<Rank, usize>,
    higher: Map<Rank, usize>,
    rank: Rank,
    upto: int,
    n: int,
    m: int,
)
    requires
        forall|r: int| 0 <= r < upto ==> lower[r as Rank] <= #[trigger] higher[r as Rank],
        m <= n,
    ensures
        replication_count(lower, rank, upto, n) <= replication_count(higher, rank, upto, n),
        replication_count(lower, rank, upto, n) <= replication_count(lower, rank, upto, m),
        0 <= replication_count(lower, rank, upto, n) <= if upto > 0 { upto } else { 0 },
    decreases upto,
{
    if upto > 0 {
        assert(lower[(upto - 1) as Rank] <= higher[(upto - 1) as Rank]);
        law_replication_count_monotone(lower, higher, rank, upto - 1, n, m);
    }
}

/// The counter after applying a log: the number of increments minus the
/// number of decrements; each increment raises it and each decrement lowers
/// it by exactly one, whatever its value.
pub proof fn law_counter_counts_operations(entries: Seq<LogEntry>, val: int)
    ensures
        applied_value(entries) == entries.filter(|e: LogEntry| e.operation == RaftOperation::Incr).len()
            - entries.filter(|e: LogEntry| e.operation == RaftOperation::Decr).len(),
        apply_operation(val, RaftOperation::Incr) == val + 1,
        apply_operation(val, RaftOperation::Decr) == val - 1,
    decreases entries.len(),
{
    let incr = |e: LogEntry| e.operation == RaftOperation::Incr;
    let decr = |e: LogEntry| e.operation == RaftOperation::Decr;
    if entries.len() > 0 {
        let init = entries.drop_last();
        law_counter_counts_operations(init, val);
        assert(init.push(entries.last()) =~= entries);
        init.lemma_filter_len_push(incr, entries.last());
        init.lemma_filter_len_push(decr, entries.last());
    }
}

/// Every AppendEntries request that a leader builds for `to` carries the
/// leader's term, rank and commit index; it starts after raft index
/// `next_index[to] - 1`, or after the last entry when the leader has nothing
/// from there on; it passes the consistency check on the leader's own log;
/// and it carries all of the leader's entries after its previous index.
pub proof fn law_custom_append_is_consistent(s: RaftServer, to: Rank, m: RPCMessage)
    requires
        s.next_index@.contains_key(to),
        s.next_index@[to] >= 1,
        s.is_custom_append(to, m),
    ensures
        m.rtype == RPCType::AppendEntries,
        m.ae_params is Some,
        ({
            let p = m.ae_params.unwrap();
            let n = s.next_index@[to] as int;
            let len = s.log_entries().len() as int;
            &&& p.term == s.persistence.current_term
            &&& p.leader_id == s.rank
            &&& p.leader_commit == s.commit_index
            &&& p.prev_log_index == if n - 1 <= len {
                n - 1
            } else {
                len
            }
            &&& log_matches(s.log_entries(), p.prev_log_index as int, p.prev_log_term)
            &&& p.entries@ == s.log_entries().skip(p.prev_log_index as int)
        }),
{
    let n = s.next_index@[to] as int;
    let len = s.log_entries().len() as int;
    let p = m.ae_params.unwrap();
    if len >= n {
        law_term_at_reads_the_entry(s.log_entries(), n - 1);
        assert(p.entries@ =~= s.log_entries().skip(p.prev_log_index as int));
    } else {
        law_heartbeat_matches_own_log(s.log_entries());
        assert(p.entries@ =~= s.log_entries().skip(p.prev_log_index as int));
    }
}

/// A leader's replication progress on becoming leader covers exactly the
/// ranks in `[0, size)`, each with the same value.
pub proof fn law_ranks_map_covers_the_ranks(size: int, v: usize, r: Rank)
    ensures
        ranks_map(size, v).contains_key(r) <==> 0 <= r < size,
        0 <= r < size ==> ranks_map(size, v)[r] == v,
{
}

/// The peers of `rank` among `[0, upto)` are every other rank of that range,
/// each once, in increasing order.
pub proof fn law_peers_are_the_other_ranks(rank: Rank, upto: int)
    requires
        upto <= i32::MAX + 1,
    ensures
        forall|r: Rank| peers(rank, upto).contains(r) <==> (0 <= r < upto && r != rank),
        forall|i: int, j: int|
            0 <= i < j < peers(rank, upto).len() ==> peers(rank, upto)[i] < peers(rank, upto)[j],
        peers(rank, upto).len() == if upto <= 0 {
            0
        } else if 0 <= rank < upto {
            upto - 1
        } else {
            upto
        },
    decreases upto,
{
    if upto > 0 {
        law_peers_are_the_other_ranks(rank, upto - 1);
        let before = peers(rank, upto - 1);
        if upto - 1 != rank {
            let now = peers(rank, upto);
            assert(now == before.push((upto - 1) as Rank));
            assert forall|r: Rank| now.contains(r) <==> (0 <= r < upto && r != rank) by {
                if now.contains(r) {
                    let i = choose|i: int| 0 <= i < now.len() && now[i] == r;
                    if i < before.len() {
                        assert(before[i] == r);
                        assert(before.contains(r));
                    }
                }
                if 0 <= r < upto && r != rank {
                    if r == upto - 1 {
                        assert(now[before.len() as int] == r);
                    } else {
                        assert(before.contains(r));
                        let i = choose|i: int| 0 <= i < before.len() && before[i] == r;
                        assert(now[i] == r);
                    }
                }
            }
            assert forall|i: int, j: int|
                0 <= i < j < peers(rank, upto).len() implies peers(rank, upto)[i] < peers(rank, upto)[j] by {
                if j == before.len() {
                    assert(before.contains(before[i]));
                }
            }
        }
    }
}

/// Stepping a next index back: one less from 2 on, and 1 from 1 or 0.
pub proof fn law_decrement_steps_back_one(n: usize)
    ensures
        n >= 2 ==> decremented_next_index(n) == n - 1,
        n <= 1 ==> decremented_next_index(n) == 1,
{
}

/// A leader's heartbeat starts after its last entry, with that entry's term,
/// and carries no entries; a candidate's vote request describes the end of
/// its log.
pub proof fn law_heartbeat_and_vote_request_describe_the_log(s: RaftServer, m: RPCMessage)
    ensures
        s.is_empty_append(m) ==> {
            &&& m.rtype == RPCType::AppendEntries
            &&& m.ae_params is Some
            &&& m.ae_params.unwrap().prev_log_index == s.log_entries().len()
            &&& log_matches(s.log_entries(), s.log_entries().len() as int, m.ae_params.unwrap().prev_log_term)
            &&& m.ae_params.unwrap().entries@.len() == 0
            &&& m.ae_params.unwrap().term == s.persistence.current_term
            &&& m.ae_params.unwrap().leader_id == s.rank
            &&& m.ae_params.unwrap().leader_commit == s.commit_index
        },
        s.vote_request().rtype == RPCType::RequestVote,
        s.vote_request().ae_params is None,
        s.vote_request().rv_params is Some,
        s.vote_request().rv_params.unwrap().term == s.persistence.current_term,
        s.vote_request().rv_params.unwrap().candidate_id == s.rank,
        s.log_entries().len() <= usize::MAX ==> s.vote_request().rv_params.unwrap().last_log_index
            == s.log_entries().len(),
        log_matches(
            s.log_entries(),
            s.log_entries().len() as int,
            s.vote_request().rv_params.unwrap().last_log_term,
        ),
{
    law_heartbeat_matches_own_log(s.log_entries());
}

/// A response goes to the server that sent the request, with the given term
/// and outcome, and carries that request's arguments.
pub proof fn law_responses_answer_the_request(
    term: u64,
    success: bool,
    rv: RequestVoteParameters,
    ae: AppendEntriesParameters,
    to: Rank,
)
    ensures
        vote_response(term, success, rv, to).to == to,
        vote_response(term, success, rv, to).rtype == RPCType::RequestVote,
        vote_response(term, success, rv, to).params.term == term,
        vote_response(term, success, rv, to).params.success == success,
        vote_response(term, success, rv, to).params.rv_params == Some(rv),
        append_response(term, success, ae, to).to == to,
        append_response(term, success, ae, to).rtype == RPCType::AppendEntries,
        append_response(term, success, ae, to).params.term == term,
        append_response(term, success, ae, to).params.success == success,
        append_response(term, success, ae, to).params.ae_params == Some(ae),
{
}

/// Applying the next committed entry moves `last_applied` on by one and
/// raises the counter by one for an increment, lowers it by one for a
/// decrement; with nothing committed beyond `last_applied` nothing changes.
pub proof fn law_apply_step(before: RaftServer, after: RaftServer)
    requires
        applied_next(before, after),
    ensures
        before.last_applied < before.commit_index ==> {
            &&& after.last_applied == before.last_applied + 1
            &&& after.val == before.val + if before.log_entries()[before.last_applied as int].operation
                == RaftOperation::Incr {
                1int
            } else {
                -1int
            }
            &&& after.commit_index == before.commit_index
            &&& after.persistence == before.persistence
        },
        before.last_applied >= before.commit_index ==> after == before,
{
}

proof fn lemma_highest_committable(
    entries: Seq<LogEntry>,
    term: u64,
    match_index: Map<Rank, usize>,
    rank: Rank,
    size: int,
    lo: int,
    hi: int,
    default: int,
)
    requires
        default < lo,
    ensures
        ({
            let c = highest_committable(entries, term, match_index, rank, size, lo, hi, default);
            &&& (c == default || lo <= c < hi && committable(entries, term, match_index, rank, size, c))
            &&& forall|m: int|
                lo <= m < hi && m > c ==> !#[trigger] committable(entries, term, match_index, rank, size, m)
        }),
    decreases hi - lo,
{
    if hi > lo && !committable(entries, term, match_index, rank, size, hi - 1) {
        lemma_highest_committable(entries, term, match_index, rank, size, lo, hi - 1, default);
    }
}

/// The commit rule: the commit index never moves back; when it moves, it
/// goes to the highest raft index up to the end of the log whose entry is of
/// the leader's current term and that a majority holds, the leader counted;
/// and no later raft index qualifies.
pub proof fn law_commit_index_advances(s: RaftServer, size: Rank)
    ensures
        s.commit_target(size) >= s.commit_index,
        s.commit_target(size) != s.commit_index ==> {
            &&& s.commit_index < s.commit_target(size) <= s.log_entries().len()
            &&& s.log_entries()[s.commit_target(size) - 1].term == s.persistence.current_term
            &&& 2 * (replication_count(
                s.match_index@,
                s.rank,
                size as int,
                s.commit_target(size),
            ) + 1) > size
        },
        forall|m: int|
            s.commit_target(size) < m <= s.log_entries().len() && m > s.commit_index ==> !(
            #[trigger] s.log_entries()[m - 1].term == s.persistence.current_term && 2 * (replication_count(
                s.match_index@,
                s.rank,
                size as int,
                m,
            ) + 1) > size),
{
    lemma_highest_committable(
        s.log_entries(),
        s.persistence.current_term,
        s.match_index@,
        s.rank,
        size as int,
        s.commit_index + 1,
        s.log_entries().len() + 1int,
        s.commit_index as int,
    );
    assert forall|m: int|
        s.commit_target(size) < m <= s.log_entries().len() && m > s.commit_index implies !(
        #[trigger] s.log_entries()[m - 1].term == s.persistence.current_term && 2 * (replication_count(
            s.match_index@,
            s.rank,
            size as int,
            m,
        ) + 1) > size) by {
        assert(!committable(
            s.log_entries(),
            s.persistence.current_term,
            s.match_index@,
            s.rank,
            size as int,
            m,
        ));
    }
}

/// Applying the next committed entry keeps the counter equal to the result
/// of the applied entries.
pub proof fn law_apply_keeps_counter(before: RaftServer, after: RaftServer)
    requires
        counter_matches(before),
        before.last_applied < before.commit_index ==> before.last_applied < before.log_entries().len(),
        applied_next(before, after),
    ensures
        counter_matches(after),
{
    if before.last_applied < before.commit_index {
        let e = before.log_entries();
        let k = before.last_applied as int;
        assert(e.take(k + 1).drop_last() =~= e.take(k));
    }
}

/// A server that has applied nothing, with the counter at 0, is consistent.
pub proof fn law_fresh_counter_matches(s: RaftServer)
    requires
        s.last_applied == 0,
        s.val == 0,
    ensures
        counter_matches(s),
{
    assert(s.log_entries().take(0) =~= Seq::<LogEntry>::empty());
}

/// Replication: when a follower holds the entry before raft index `n` with
/// the leader's term, accepting the leader's entries from `n` on gives the
/// follower, at every position up to the leader's last entry, an entry of
/// the leader's term, and leaves its entries before `n` as they were.
pub proof fn law_leader_entries_replicated(leader: Seq<LogEntry>, n: int, follower: Seq<LogEntry>)
    requires
        1 <= n <= leader.len() + 1,
        log_matches(follower, n - 1, term_at(leader, n - 1)),
    ensures
        ({
            let result = accept_entries(follower, n - 1, leader.subrange(n - 1, leader.len() as int));
            &&& result.take(n - 1) == follower.take(n - 1)
            &&& result.len() >= leader.len()
            &&& forall|i: int| n - 1 <= i < leader.len() ==> #[trigger] result[i].term == leader[i].term
        }),
{
    let sent = leader.subrange(n - 1, leader.len() as int);
    law_accepted_entries_agree(follower, n - 1, sent);
    let result = accept_entries(follower, n - 1, sent);
    assert forall|i: int| n - 1 <= i < leader.len() implies #[trigger] result[i].term == leader[i].term by {
        assert(result[(n - 1) + (i - (n - 1))].term == sent[i - (n - 1)].term);
    }
}

impl RaftServer {
    /// The commit index that `update_commit_index(size)` reaches: the highest
    /// raft index after the commit index, up to the last one, that a majority
    /// holds in the current term.
    pub open spec fn commit_target(self, size: Rank) -> int {
        highest_committable(
            self.log_entries(),
            self.persistence.current_term,
            self.match_index@,
            self.rank,
            size as int,
            self.commit_index + 1,
            self.log_entries().len() + 1int,
            self.commit_index as int,
        )
    }

    /// Some raft index after the commit index, up to the last one, holds an
    /// entry of the current term: `update_commit_index` then reads the match
    /// index of every other rank.
    pub open spec fn has_current_term_entry_to_commit(self) -> bool {
        exists|n: int|
            self.commit_index + 1 <= n <= self.log_entries().len() && #[trigger] self.log_entries()[n
                - 1].term == self.persistence.current_term
    }

    /// The log of the server.
    pub open spec fn log_entries(self) -> Seq<LogEntry> {
        self.persistence.log@
    }

    /// The RequestVote request of this server as a candidate.
    pub open spec fn vote_request(self) -> RPCMessage {
        RPCMessage {
            message: Request,
            rtype: RPCType::RequestVote,
            rv_params: Some(
                RequestVoteParameters {
                    term: self.persistence.current_term,
                    candidate_id: self.rank,
                    last_log_index: self.log_entries().len() as usize,
                    last_log_term: last_term_of(self.log_entries()),
                },
            ),
            ae_params: None,
        }
    }

    /// `m` is the heartbeat of this server: an AppendEntries request with no
    /// entries, placed after its last entry.
    pub open spec fn is_empty_append(self, m: RPCMessage) -> bool {
        is_append_message(
            m,
            self.persistence.current_term,
            self.rank,
            self.log_entries().len() as int,
            last_term_of(self.log_entries()),
            Seq::empty(),
            self.commit_index as int,
        )
    }

    /// `m` is the AppendEntries request that this leader sends to `to`: its
    /// entries from raft index `next_index[to]` on, or a heartbeat when it
    /// has none.
    pub open spec fn is_custom_append(self, to: Rank, m: RPCMessage) -> bool {
        let n = self.next_index@[to] as int;
        let len = self.log_entries().len() as int;
        if len >= n {
            is_append_message(
                m,
                self.persistence.current_term,
                self.rank,
                n - 1,
                term_at(self.log_entries(), n - 1),
                self.log_entries().subrange(n - 1, len),
                self.commit_index as int,
            )
        } else {
            self.is_empty_append(m)
        }
    }

    /// A server of rank `rank` starting from `persistence`: a follower that
    /// has applied nothing.
    pub fn new(rank: Rank, persistence: RaftPersistence) -> (res: RaftServer)
        ensures
            res.persistence == persistence,
            res.state == ServerState::Follower,
            res.rank == rank,
            res.commit_index == 0,
            res.last_applied == 0,
            res.vote_count == 0,
            res.val == 0,
            res.next_index@ == Map::<Rank, usize>::empty(),
            res.match_index@ == Map::<Rank, usize>::empty(),
    {
        RaftServer {
            persistence: persistence,
            state: ServerState::Follower,
            rank: rank,
            commit_index: 0,
            last_applied: 0,
            vote_count: 0,
            val: 0,
            next_index: HashMap::new(),
            match_index: HashMap::new(),
        }
    }

    pub fn last_log_index(&self) -> (res: usize)
        ensures
            res == self.log_entries().len(),
    {
        self.persistence.log.len()
    }

    pub fn last_log_term(&self) -> (res: u64)
        ensures
            res == last_term_of(self.log_entries()),
    {
        self.persistence.log.last_term()
    }

    pub fn request_vote(&self) -> (res: RPCMessage)
        ensures
            res == self.vote_request(),
    {
        RPCMessage {
            message: Request,
            rtype: RPCType::RequestVote,
            rv_params: Some(
                RequestVoteParameters {
                    term: self.persistence.current_term,
                    candidate_id: self.rank,
                    last_log_index: self.last_log_index(),
                    last_log_term: self.last_log_term(),
                },
            ),
            ae_params: None,
        }
    }

    pub fn empty_append(&self) -> (res: RPCMessage)
        ensures
            self.is_empty_append(res),
    {
        RPCMessage {
            message: Request,
            rtype: RPCType::AppendEntries,
            rv_params: None,
            ae_params: Some(
                AppendEntriesParameters {
                    term: self.persistence.current_term,
                    leader_id: self.rank,
                    prev_log_index: self.last_log_index(),
                    prev_log_term: self.last_log_term(),
                    entries: Vec::new(),
                    leader_commit: self.commit_index,
                },
            ),
        }
    }

    pub fn custom_append(&self, to: Rank) -> (res: RPCMessage)
        requires
            self.next_index@.contains_key(to),
            self.next_index@[to] >= 1,
        ensures
            self.is_custom_append(to, res),
    {
        let next = *self.next_index.get(&to).unwrap();
        let last = self.last_log_index();
        if last >= next {
            let mut term: u64 = 0;
            if next > 1 {
                term = self.persistence.log.get(next - 1).term;
            }
            let mut entries = Vec::<LogEntry>::new();
            let mut i: usize = next - 1;
            while i < last
                invariant
                    last == self.log_entries().len(),
                    1 <= next <= last + 1,
                    next - 1 <= i <= last,
                    entries@ == self.log_entries().subrange(next - 1, i as int),
                decreases last - i,
            {
                entries.push(self.persistence.log.get(i + 1));
                i = i + 1;
            }
            return RPCMessage {
                message: Request,
                rtype: RPCType::AppendEntries,
                rv_params: None,
                ae_params: Some(
                    AppendEntriesParameters {
                        term: self.persistence.current_term,
                        leader_id: self.rank,
                        prev_log_index: next - 1,
                        prev_log_term: term,
                        entries: entries,
                        leader_commit: self.commit_index,
                    },
                ),
            };
        }
        self.empty_append()
    }

    pub fn put_in_log(&mut self, entry: LogEntry)
        ensures
            final(self).log_entries() == old(self).log_entries().push(entry),
            final(self).persistence.current_term == old(self).persistence.current_term,
            final(self).persistence.voted_for == old(self).persistence.voted_for,
            *final(self) == (RaftServer { persistence: final(self).persistence, ..*old(self) }),
    {
        self.persistence.log.put(entry);
    }

    /// Appends an increment in the current term.
    pub fn dummy_incr(&mut self)
        ensures
            final(self).log_entries() == old(self).log_entries().push(
                LogEntry { term: old(self).persistence.current_term, operation: RaftOperation::Incr },
            ),
            final(self).persistence.current_term == old(self).persistence.current_term,
            final(self).persistence.voted_for == old(self).persistence.voted_for,
            *final(self) == (RaftServer { persistence: final(self).persistence, ..*old(self) }),
    {
        let entry = LogEntry { term: self.persistence.current_term, operation: RaftOperation::Incr };
        self.put_in_log(entry);
    }

    /// Appends a decrement in the current term.
    pub fn dummy_decr(&mut self)
        ensures
            final(self).log_entries() == old(self).log_entries().push(
                LogEntry { term: old(self).persistence.current_term, operation: RaftOperation::Decr },
            ),
            final(self).persistence.current_term == old(self).persistence.current_term,
            final(self).persistence.voted_for == old(self).persistence.voted_for,
            *final(self) == (RaftServer { persistence: final(self).persistence, ..*old(self) }),
    {
        let entry = LogEntry { term: self.persistence.current_term, operation: RaftOperation::Decr };
        self.put_in_log(entry);
    }

    /// After a refused AppendEntries: steps the next index of `of` back by
    /// one, but not below 1.
    pub fn decr_next_index(&mut self, of: Rank)
        requires
            old(self).next_index@.contains_key(of),
            old(self).next_index@[of] >= 1,
        ensures
            final(self).next_index@ == old(self).next_index@.insert(
                of,
                decremented_next_index(old(self).next_index@[of]),
            ),
            next_indices_positive(old(self).next_index@) ==> next_indices_positive(
                final(self).next_index@,
            ),
            *final(self) == (RaftServer { next_index: final(self).next_index, ..*old(self) }),
    {
        let current = *self.next_index.get(&of).unwrap();
        let new_index = if current - 1 >= 1 {
            current - 1
        } else {
            1
        };
        proof {
            if next_indices_positive(self.next_index@) {
                law_decrement_keeps_next_indices_positive(self.next_index@, of);
            }
        }
        self.next_index.remove(&of);
        self.next_index.insert(of, new_index);
    }

    pub fn set_next_index(&mut self, of: Rank, index: usize)
        ensures
            final(self).next_index@ == old(self).next_index@.insert(of, index),
            *final(self) == (RaftServer { next_index: final(self).next_index, ..*old(self) }),
    {
        self.next_index.remove(&of);
        self.next_index.insert(of, index);
    }

    pub fn set_match_index(&mut self, of: Rank, index: usize)
        ensures
            final(self).match_index@ == old(self).match_index@.insert(of, index),
            *final(self) == (RaftServer { match_index: final(self).match_index, ..*old(self) }),
    {
        self.match_index.remove(&of);
        self.match_index.insert(of, index);
    }

    /// On becoming leader: every rank in `[0, size)` gets next index
    /// `last_log_index + 1` and match index 0.
    pub fn init_leader_state(&mut self, size: Rank)
        requires
            size > 0 ==> old(self).log_entries().len() < usize::MAX,
        ensures
            final(self).next_index@ == old(self).next_index@.union_prefer_right(
                ranks_map(size as int, (old(self).log_entries().len() + 1) as usize),
            ),
            final(self).match_index@ == old(self).match_index@.union_prefer_right(
                ranks_map(size as int, 0),
            ),
            next_indices_positive(old(self).next_index@) ==> next_indices_positive(
                final(self).next_index@,
            ),
            *final(self) == (RaftServer {
                next_index: final(self).next_index,
                match_index: final(self).match_index,
                ..*old(self)
            }),
    {
        let last_log_index = self.persistence.log.len();
        let ghost start = *self;
        let mut rank: Rank = 0;
        while rank < size
            invariant
                last_log_index == start.log_entries().len(),
                size > 0 ==> last_log_index < usize::MAX,
                0 <= rank,
                rank <= size || rank == 0,
                self.next_index@ == start.next_index@.union_prefer_right(
                    ranks_map(rank as int, (last_log_index + 1) as usize),
                ),
                self.match_index@ == start.match_index@.union_prefer_right(ranks_map(rank as int, 0)),
                *self == (RaftServer {
                    next_index: self.next_index,
                    match_index: self.match_index,
                    ..start
                }),
            decreases size - rank,
        {
            self.next_index.insert(rank, last_log_index + 1);
            self.match_index.insert(rank, 0);
            proof {
                assert(self.next_index@ =~= start.next_index@.union_prefer_right(
                    ranks_map(rank + 1, (last_log_index + 1) as usize),
                ));
                assert(self.match_index@ =~= start.match_index@.union_prefer_right(
                    ranks_map(rank + 1, 0),
                ));
            }
            rank = rank + 1;
        }
        proof {
            if size <= 0 {
                assert(ranks_map(size as int, (last_log_index + 1) as usize) =~= ranks_map(0, (last_log_index + 1) as usize));
                assert(ranks_map(size as int, 0) =~= ranks_map(0, 0));
            }
        }
    }

    /// Moves the commit index to the highest raft index after it, up to the
    /// last one, whose entry is of the current term and that a majority of
    /// the `size` servers holds: the leader and the ranks whose match index
    /// reaches it.
    pub fn update_commit_index(&mut self, size: Rank)
        requires
            old(self).has_current_term_entry_to_commit() ==> forall|r: Rank|
                0 <= r < size && r != old(self).rank ==> old(self).match_index@.contains_key(r),
        ensures
            final(self).commit_index == old(self).commit_target(size),
            *final(self) == (RaftServer { commit_index: final(self).commit_index, ..*old(self) }),
    {
        let len = self.persistence.log.len();
        let mut commit = self.commit_index;
        // `i` runs over the 0-based positions; `n = i + 1` is the raft index
        let mut i = self.commit_index;
        while i < len
            invariant
                len == self.log_entries().len(),
                self.commit_index <= i,
                i == self.commit_index || i <= len,
                self.has_current_term_entry_to_commit() ==> forall|r: Rank|
                    0 <= r < size && r != self.rank ==> self.match_index@.contains_key(r),
                commit == highest_committable(
                    self.log_entries(),
                    self.persistence.current_term,
                    self.match_index@,
                    self.rank,
                    size as int,
                    self.commit_index + 1,
                    i + 1,
                    self.commit_index as int,
                ),
            decreases len - i,
        {
            let n = i + 1;
            if self.persistence.log.get(n).term == self.persistence.current_term {
                assert(self.has_current_term_entry_to_commit()) by {
                    assert(self.log_entries()[n - 1].term == self.persistence.current_term);
                }
                let mut count: Rank = 0;
                let mut r: Rank = 0;
                while r < size
                    invariant
                        1 <= n,
                        0 <= r,
                        r <= size || r == 0,
                        0 <= count <= r,
                        forall|q: Rank| 0 <= q < size && q != self.rank ==> self.match_index@.contains_key(q),
                        count == replication_count(self.match_index@, self.rank, r as int, n as int),
                    decreases size - r,
                {
                    if r != self.rank && *self.match_index.get(&r).unwrap() >= n {
                        count = count + 1;
                    }
                    r = r + 1;
                }
                proof {
                    if size <= 0 {
                        assert(replication_count(self.match_index@, self.rank, size as int, n as int) == 0);
                    }
                }
                let votes: i64 = count as i64 + 1;
                if 2 * votes > size as i64 {
                    commit = n;
                }
            }
            i = i + 1;
        }
        proof {
            if len < self.commit_index {
                assert(highest_committable(
                    self.log_entries(),
                    self.persistence.current_term,
                    self.match_index@,
                    self.rank,
                    size as int,
                    self.commit_index + 1,
                    len + 1,
                    self.commit_index as int,
                ) == self.commit_index);
            }
        }
        self.commit_index = commit;
    }

    /// Applies the next committed entry, if any, to the counter.
    pub fn apply_commited(&mut self)
        requires
            old(self).last_applied < old(self).commit_index ==> {
                &&& old(self).last_applied < old(self).log_entries().len()
                &&& i32::MIN <= apply_operation(
                    old(self).val as int,
                    old(self).log_entries()[old(self).last_applied as int].operation,
                ) <= i32::MAX
            },
        ensures
            applied_next(*old(self), *final(self)),
    {
        if self.last_applied < self.commit_index {
            self.last_applied = self.last_applied + 1;
            let entry = self.persistence.log.get(self.last_applied);
            match entry.operation {
                RaftOperation::Incr => {
                    self.val = self.val + 1;
                },
                RaftOperation::Decr => {
                    self.val = self.val - 1;
                },
            }
        }
    }

    /// Moves to the next term; the caller then writes the persistent state.
    pub fn update_term(&mut self)
        requires
            old(self).persistence.current_term < u64::MAX,
        ensures
            final(self).persistence.current_term == old(self).persistence.current_term + 1,
            final(self).persistence.voted_for == old(self).persistence.voted_for,
            final(self).persistence.log == old(self).persistence.log,
            *final(self) == (RaftServer { persistence: final(self).persistence, ..*old(self) }),
    {
        self.persistence.current_term = self.persistence.current_term + 1;
    }

    /// On an election timeout: enters the next term as a candidate that
    /// votes for itself, and returns the RequestVote request to broadcast.
    pub fn start_election(&mut self) -> (res: RPCMessage)
        requires
            old(self).persistence.current_term < u64::MAX,
        ensures
            final(self).persistence.current_term == old(self).persistence.current_term + 1,
            final(self).persistence.voted_for == old(self).rank,
            final(self).persistence.log == old(self).persistence.log,
            final(self).vote_count == 1,
            final(self).state == ServerState::Candidate,
            *final(self) == (RaftServer {
                persistence: final(self).persistence,
                vote_count: final(self).vote_count,
                state: final(self).state,
                ..*old(self)
            }),
            res == final(self).vote_request(),
    {
        self.persistence.current_term = self.persistence.current_term + 1;
        self.persistence.voted_for = self.rank;
        self.vote_count = 1;
        self.state = ServerState::Candidate;
        self.request_vote()
    }

    /// A candidate with more votes than the other servers of the `size`
    /// have left becomes leader: it sets up the replication progress of
    /// every rank and returns the heartbeat to broadcast. Otherwise nothing
    /// changes.
    pub fn try_become_leader(&mut self, size: Rank) -> (res: Option<RPCMessage>)
        requires
            i32::MIN <= size - old(self).vote_count <= i32::MAX,
            size - old(self).vote_count < old(self).vote_count && size > 0 ==> old(self).log_entries().len()
                < usize::MAX,
        ensures
            next_indices_positive(old(self).next_index@) ==> next_indices_positive(
                final(self).next_index@,
            ),
            size - old(self).vote_count < old(self).vote_count ==> {
                &&& final(self).state == ServerState::Leader
                &&& final(self).next_index@ == old(self).next_index@.union_prefer_right(
                    ranks_map(size as int, (old(self).log_entries().len() + 1) as usize),
                )
                &&& final(self).match_index@ == old(self).match_index@.union_prefer_right(
                    ranks_map(size as int, 0),
                )
                &&& *final(self) == (RaftServer {
                    state: final(self).state,
                    next_index: final(self).next_index,
                    match_index: final(self).match_index,
                    ..*old(self)
                })
                &&& res is Some
                &&& final(self).is_empty_append(res.unwrap())
            },
            !(size - old(self).vote_count < old(self).vote_count) ==> {
                &&& *final(self) == *old(self)
                &&& res is None
            },
    {
        if size - self.vote_count < self.vote_count {
            self.state = ServerState::Leader;
            self.init_leader_state(size);
            Some(self.empty_append())
        } else {
            None
        }
    }

    /// One round of a leader: advances the commit index, then builds the
    /// AppendEntries request for every other rank of the `size`.
    pub fn leader_round(&mut self, size: Rank) -> (res: Vec<(Rank, RPCMessage)>)
        requires
            old(self).has_current_term_entry_to_commit() ==> forall|r: Rank|
                0 <= r < size && r != old(self).rank ==> old(self).match_index@.contains_key(r),
            forall|r: Rank|
                0 <= r < size && r != old(self).rank ==> old(self).next_index@.contains_key(r),
            forall|r: Rank|
                0 <= r < size && r != old(self).rank ==> old(self).next_index@[r] >= 1,
        ensures
            final(self).commit_index == old(self).commit_target(size),
            *final(self) == (RaftServer { commit_index: final(self).commit_index, ..*old(self) }),
            res@.len() == peers(old(self).rank, size as int).len(),
            forall|i: int|
                0 <= i < res@.len() ==> {
                    &&& (#[trigger] res@[i]).0 == peers(old(self).rank, size as int)[i]
                    &&& final(self).is_custom_append(res@[i].0, res@[i].1)
                },
    {
        self.update_commit_index(size);
        let mut messages: Vec<(Rank, RPCMessage)> = Vec::new();
        let mut r: Rank = 0;
        while r < size
            invariant
                0 <= r,
                r <= size || r == 0,
                forall|q: Rank| 0 <= q < size && q != self.rank ==> self.next_index@.contains_key(q),
                forall|q: Rank| 0 <= q < size && q != self.rank ==> self.next_index@[q] >= 1,
                messages@.len() == peers(self.rank, r as int).len(),
                forall|i: int|
                    0 <= i < messages@.len() ==> {
                        &&& (#[trigger] messages@[i]).0 == peers(self.rank, r as int)[i]
                        &&& self.is_custom_append(messages@[i].0, messages@[i].1)
                    },
            decreases size - r,
        {
            if r != self.rank {
                let m = self.custom_append(r);
                messages.push((r, m));
            }
            r = r + 1;
        }
        proof {
            if size <= 0 {
                assert(peers(self.rank, size as int) == Seq::<Rank>::empty());
            }
        }
        messages
    }

    /// Answers a RequestVote request from `from`. A request of a newer term
    /// makes this server a follower of that term with no vote; the vote goes
    /// to the candidate when `vote_granted` holds.
    pub fn issue_requestvote(&mut self, params: RequestVoteParameters, from: Rank) -> (res: RPCResponse)
        ensures
            final(self).persistence.current_term >= old(self).persistence.current_term,
            ({
                let ct = old(self).persistence.current_term;
                let granted = vote_granted(
                    ct,
                    old(self).persistence.voted_for,
                    last_term_of(old(self).log_entries()),
                    old(self).log_entries().len() as int,
                    params,
                );
                let new_term = if params.term > ct {
                    params.term
                } else {
                    ct
                };
                &&& final(self).persistence.current_term == new_term
                &&& final(self).persistence.voted_for == if granted {
                    params.candidate_id
                } else if params.term > ct {
                    -1i32
                } else {
                    old(self).persistence.voted_for
                }
                &&& final(self).state == if params.term > ct {
                    ServerState::Follower
                } else {
                    old(self).state
                }
                &&& final(self).persistence.log == old(self).persistence.log
                &&& *final(self) == (RaftServer {
                    persistence: final(self).persistence,
                    state: final(self).state,
                    ..*old(self)
                })
                &&& res == vote_response(
                    if granted {
                        new_term
                    } else {
                        ct
                    },
                    granted,
                    params,
                    from,
                )
            }),
    {
        if params.term > self.persistence.current_term {
            self.persistence.voted_for = -1;
        }
        let mut success = true;
        let mut term = self.persistence.current_term;
        if params.term < self.persistence.current_term {
            success = false;
        }
        let voted_bool = self.persistence.voted_for == -1 || self.persistence.voted_for
            == params.candidate_id;
        let mut candidate_more_up_to_date = false;
        if params.last_log_term > self.last_log_term() {
            candidate_more_up_to_date = true;
        } else if params.last_log_term == self.last_log_term() {
            candidate_more_up_to_date = params.last_log_index >= self.last_log_index();
        }
        if !(voted_bool && candidate_more_up_to_date) {
            success = false;
        }
        if params.term > self.persistence.current_term && self.state != ServerState::Follower {
            self.state = ServerState::Follower;
        }
        if params.term > self.persistence.current_term {
            self.persistence.current_term = params.term;
        }
        if success {
            self.persistence.voted_for = params.candidate_id;
            term = self.persistence.current_term;
        }
        RPCResponse {
            response: Response,
            rtype: RPCType::RequestVote,
            params: RPCResponseParameters {
                term: term,
                success: success,
                rv_params: Some(params),
                ae_params: None,
            },
            to: from,
        }
    }

    /// Answers an AppendEntries request from `from`. It succeeds when the
    /// request is not stale and this log holds the leader's previous entry;
    /// then the log accepts the entries and the commit index follows the
    /// leader's, up to the end of the log. A request of a newer term moves
    /// this server to that term, with no vote cast in it, as a follower.
    pub fn issue_appendentries(&mut self, params: AppendEntriesParameters, from: Rank) -> (res: RPCResponse)
        requires
            params.term >= old(self).persistence.current_term && log_matches(
                old(self).log_entries(),
                params.prev_log_index as int,
                params.prev_log_term,
            ) ==> params.prev_log_index + params.entries.len() <= usize::MAX,
        ensures
            final(self).persistence.current_term >= old(self).persistence.current_term,
            ({
                let ct = old(self).persistence.current_term;
                let new_term = if params.term > ct {
                    params.term
                } else {
                    ct
                };
                let ok = params.term >= ct && log_matches(
                    old(self).log_entries(),
                    params.prev_log_index as int,
                    params.prev_log_term,
                );
                let new_log = if ok {
                    accept_entries(old(self).log_entries(), params.prev_log_index as int, params.entries@)
                } else {
                    old(self).log_entries()
                };
                &&& final(self).log_entries() == new_log
                &&& final(self).persistence.current_term == new_term
                &&& final(self).persistence.voted_for == if params.term > ct {
                    -1i32
                } else {
                    old(self).persistence.voted_for
                }
                &&& final(self).commit_index == if ok && params.leader_commit > old(self).commit_index {
                    if params.leader_commit <= new_log.len() {
                        params.leader_commit as int
                    } else {
                        new_log.len() as int
                    }
                } else {
                    old(self).commit_index as int
                }
                &&& final(self).state == if params.term > ct {
                    ServerState::Follower
                } else {
                    old(self).state
                }
                &&& *final(self) == (RaftServer {
                    persistence: final(self).persistence,
                    state: final(self).state,
                    commit_index: final(self).commit_index,
                    ..*old(self)
                })
                &&& res == append_response(new_term, ok, params, from)
            }),
    {
        let mut success = true;
        if params.term < self.persistence.current_term {
            success = false;
        }
        let res = self.persistence.log.find(params.prev_log_index, params.prev_log_term);
        match res {
            Err(_m) => {
                success = false;
            },
            Ok(b) => {
                if !b {
                    success = false;
                }
            },
        }
        if success {
            let conflict_start = self.persistence.log.find_conflicts(
                params.prev_log_index,
                &params.entries,
            );
            proof {
                law_first_conflict_is_first(
                    self.log_entries(),
                    params.prev_log_index as int,
                    params.entries@,
                );
            }
            match conflict_start {
                Some(index) => {
                    self.persistence.log.truncate(index);
                    self.persistence.log.append_rest(index, params.prev_log_index, &params.entries);
                },
                None => {
                    self.persistence.log.append_all(params.prev_log_index, &params.entries);
                },
            }
            if params.leader_commit > self.commit_index {
                let len = self.persistence.log.len();
                self.commit_index = if params.leader_commit <= len {
                    params.leader_commit
                } else {
                    len
                };
            }
        }
        if params.term > self.persistence.current_term && self.state != ServerState::Follower {
            self.state = ServerState::Follower;
        }
        if params.term > self.persistence.current_term {
            self.persistence.current_term = params.term;
            self.persistence.voted_for = -1;
        }
        RPCResponse {
            response: Response,
            rtype: RPCType::AppendEntries,
            params: RPCResponseParameters {
                term: self.persistence.current_term,
                success: success,
                rv_params: None,
                ae_params: Some(params),
            },
            to: from,
        }
    }

    /// Takes in a response from `from`. A granted vote of the current term
    /// counts; a refusal from a newer term makes this server a follower of
    /// that term, with no vote cast in it. A refused AppendEntries of no newer term steps the next
    /// index of `from` back; an accepted one records how far `from` now
    /// matches the log.
    pub fn handle_response(&mut self, resp: RPCResponse, from: Rank)
        requires
            resp.rtype == RPCType::RequestVote && resp.params.success && resp.params.term
                == old(self).persistence.current_term ==> old(self).vote_count < i32::MAX,
            resp.rtype == RPCType::AppendEntries && !resp.params.success && resp.params.term
                <= old(self).persistence.current_term ==> {
                &&& old(self).next_index@.contains_key(from)
                &&& old(self).next_index@[from] >= 1
            },
            resp.rtype == RPCType::AppendEntries && resp.params.success && resp.params.ae_params is Some
                ==> resp.params.ae_params.unwrap().prev_log_index
                + resp.params.ae_params.unwrap().entries.len() + 1 <= usize::MAX,
        ensures
            final(self).persistence.current_term >= old(self).persistence.current_term,
            final(self).persistence.log == old(self).persistence.log,
            next_indices_positive(old(self).next_index@) ==> next_indices_positive(
                final(self).next_index@,
            ),
            ({
                let ct = old(self).persistence.current_term;
                let newer = resp.params.term > ct;
                let stepped_down = (RaftServer {
                    persistence: RaftPersistence {
                        current_term: resp.params.term,
                        voted_for: -1i32,
                        ..old(self).persistence
                    },
                    state: ServerState::Follower,
                    ..*old(self)
                });
                match resp.rtype {
                    RPCType::RequestVote => if resp.params.success {
                        if resp.params.term == ct {
                            *final(self) == (RaftServer { vote_count: (old(self).vote_count + 1) as Rank, ..*old(self) })
                        } else {
                            *final(self) == *old(self)
                        }
                    } else if newer {
                        *final(self) == stepped_down
                    } else {
                        *final(self) == *old(self)
                    },
                    RPCType::AppendEntries => if !resp.params.success {
                        if newer {
                            *final(self) == stepped_down
                        } else {
                            let next = old(self).next_index@[from];
                            &&& final(self).next_index@ == old(self).next_index@.insert(
                                from,
                                decremented_next_index(next),
                            )
                            &&& *final(self) == (RaftServer { next_index: final(self).next_index, ..*old(self) })
                        }
                    } else {
                        match resp.params.ae_params {
                            Some(p) => {
                                &&& final(self).next_index@ == old(self).next_index@.insert(
                                    from,
                                    (p.prev_log_index + p.entries.len() + 1) as usize,
                                )
                                &&& final(self).match_index@ == old(self).match_index@.insert(
                                    from,
                                    (p.prev_log_index + p.entries.len()) as usize,
                                )
                                &&& *final(self) == (RaftServer {
                                    next_index: final(self).next_index,
                                    match_index: final(self).match_index,
                                    ..*old(self)
                                })
                            },
                            None => *final(self) == *old(self),
                        }
                    },
                }
            }),
    {
        match resp.rtype {
            RPCType::RequestVote => {
                if resp.params.success {
                    if resp.params.term == self.persistence.current_term {
                        self.vote_count = self.vote_count + 1;
                    }
                } else if resp.params.term > self.persistence.current_term {
                    self.persistence.current_term = resp.params.term;
                    self.persistence.voted_for = -1;
                    self.state = ServerState::Follower;
                }
            },
            RPCType::AppendEntries => {
                if !resp.params.success {
                    if resp.params.term > self.persistence.current_term {
                        self.persistence.current_term = resp.params.term;
                        self.persistence.voted_for = -1;
                        self.state = ServerState::Follower;
                    } else {
                        self.decr_next_index(from);
                    }
                } else {
                    match resp.params.ae_params {
                        Some(params) => {
                            self.set_next_index(from, params.prev_log_index + params.entries.len() + 1);
                            self.set_match_index(from, params.prev_log_index + params.entries.len());
                        },
                        None => {},
                    }
                }
            },
        }
    }
}

} // verus!
