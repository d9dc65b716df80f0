use vstd::prelude::*;

verus! {

/// The operation that a log entry applies to the replicated counter.
#[derive(Debug, Clone, Copy, PartialEq, Eq, Structural)]
pub enum RaftOperation {
    Incr,
    Decr,
}

/// One entry of the replicated log: an operation and the term in which the
/// leader received it.
#[derive(Debug, Clone, Copy, PartialEq, Eq, Structural)]
pub struct LogEntry {
    pub operation: RaftOperation,
    pub term: u64,
}

/// A Raft log. Positions are 1-based ("raft indices"): the entry at raft
/// index `i` is `entries()[i - 1]`, and raft index 0 stands before the first
/// entry, with term 0.
pub trait RaftList: Sized {
    /// The entries of the log, the first one at raft index 1.
    spec fn entries(&self) -> Seq<LogEntry>;

    fn new() -> (res: Self)
        ensures
            res.entries() == Seq::<LogEntry>::empty(),
    ;

    fn len(&self) -> (res: usize)
        ensures
            res == self.entries().len(),
    ;

    fn get(&self, raft_index: usize) -> (res: LogEntry)
        requires
            1 <= raft_index <= self.entries().len(),
        ensures
            res == self.entries()[raft_index - 1],
    ;

    fn put(&mut self, entry: LogEntry) -> (res: usize)
        ensures
            final(self).entries() == old(self).entries().push(entry),
            res == final(self).entries().len(),
    ;

    fn last_term(&self) -> (res: u64)
        ensures
            res == last_term_of(self.entries()),
    ;

    /// Whether the entry at `raft_index` has term `term`. Raft index 0 holds
    /// only term 0; an index past the end is an error.
    fn find(&self, raft_index: usize, term: u64) -> (res: Result<bool, &'static str>)
        ensures
            raft_index > self.entries().len() ==> (res matches Err(m) && m@ == "index out of bounds"@),
            raft_index == 0 && term != 0 ==> (res matches Err(m) && m@ == "entry at index 0"@),
            raft_index == 0 && term == 0 ==> res == Ok::<bool, &'static str>(true),
            1 <= raft_index <= self.entries().len() ==> res == Ok::<bool, &'static str>(
                self.entries()[raft_index - 1].term == term,
            ),
    ;

    /// The first 0-based position `i` at or after `prev_index` where the
    /// entry `compare_to[i - prev_index]` and the entry of this log disagree
    /// on the term, among the positions that both hold.
    fn find_conflicts(&self, prev_index: usize, compare_to: &Vec<LogEntry>) -> (res: Option<usize>)
        requires
            prev_index + compare_to.len() <= usize::MAX,
        ensures
            as_int_option(res) == first_conflict(self.entries(), prev_index as int, compare_to@),
    ;

    /// Keeps the first `starting` entries.
    fn truncate(&mut self, starting: usize)
        ensures
            final(self).entries() == truncated(old(self).entries(), starting as int),
    ;

    /// Appends `compare_to` from its position `starting - prev` on.
    fn append_rest(&mut self, starting: usize, prev: usize, compare_to: &Vec<LogEntry>)
        requires
            prev <= starting,
        ensures
            final(self).entries() == old(self).entries() + suffix_from(compare_to@, starting - prev),
    ;

    /// Appends the entries of `compare_to` that lie past the end of this log,
    /// `compare_to[0]` standing at 0-based position `prev`.
    fn append_all(&mut self, prev: usize, compare_to: &Vec<LogEntry>)
        requires
            prev <= old(self).entries().len(),
        ensures
            final(self).entries() == old(self).entries() + suffix_from(
                compare_to@,
                old(self).entries().len() - prev,
            ),
    ;
}

/// The last 0-based position, exclusive, that both the log and the entries
/// `compare_to` (placed from `prev` on) cover.
pub open spec fn overlap_end(entries: Seq<LogEntry>, prev: int, compare_to: Seq<LogEntry>) -> int {
    if prev + compare_to.len() <= entries.len() {
        prev + compare_to.len()
    } else {
        entries.len() as int
    }
}

/// The log and `compare_to` (placed from `prev` on) disagree on the term at
/// 0-based position `i`.
pub open spec fn terms_differ(entries: Seq<LogEntry>, prev: int, compare_to: Seq<LogEntry>, i: int) -> bool {
    compare_to[i - prev].term != entries[i].term
}

/// The first position from `i` on, before `overlap_end`, where the terms
/// differ.
pub open spec fn conflict_from(entries: Seq<LogEntry>, prev: int, compare_to: Seq<LogEntry>, i: int) -> Option<int>
    decreases overlap_end(entries, prev, compare_to) - i,
{
    if i >= overlap_end(entries, prev, compare_to) {
        None
    } else if terms_differ(entries, prev, compare_to, i) {
        Some(i)
    } else {
        conflict_from(entries, prev, compare_to, i + 1)
    }
}

/// The first 0-based position at or after `prev` where the log and
/// `compare_to` (placed from `prev` on) disagree on the term.
pub open spec fn first_conflict(entries: Seq<LogEntry>, prev: int, compare_to: Seq<LogEntry>) -> Option<int> {
    conflict_from(entries, prev, compare_to, prev)
}

pub open spec fn as_int_option(o: Option<usize>) -> Option<int> {
    match o {
        Some(i) => Some(i as int),
        None => None,
    }
}

/// `res` is the first position in `[prev, overlap_end)` where the terms
/// differ, or `None` when they agree on the whole overlap.
pub open spec fn is_first_conflict(
    entries: Seq<LogEntry>,
    prev: int,
    compare_to: Seq<LogEntry>,
    res: Option<int>,
) -> bool {
    match res {
        Some(i) => {
            &&& prev <= i < overlap_end(entries, prev, compare_to)
            &&& terms_differ(entries, prev, compare_to, i)
            &&& forall|j: int| prev <= j < i ==> !terms_differ(entries, prev, compare_to, j)
        },
        None => forall|j: int|
            prev <= j < overlap_end(entries, prev, compare_to) ==> !terms_differ(
                entries,
                prev,
                compare_to,
                j,
            ),
    }
}

/// The log that results from accepting `compare_to` after raft index `prev`:
/// cut at the first conflicting entry and append the rest of `compare_to`
/// from there, or, with no conflict, append the part of `compare_to` that
/// lies past the end of the log.
pub open spec fn accept_entries(entries: Seq<LogEntry>, prev: int, compare_to: Seq<LogEntry>) -> Seq<LogEntry> {
    match first_conflict(entries, prev, compare_to) {
        Some(i) => truncated(entries, i) + suffix_from(compare_to, i - prev),
        None => entries + suffix_from(compare_to, entries.len() - prev),
    }
}

/// Read after write: the entry that `put` appends is the one that `get`
/// returns at the raft index that `put` returned, and the entries before it
/// stay as they were.
pub proof fn law_put_then_get(entries: Seq<LogEntry>, entry: LogEntry)
    ensures
        entries.push(entry).len() == entries.len() + 1,
        entries.push(entry)[entries.push(entry).len() - 1] == entry,
        forall|i: int| 0 <= i < entries.len() ==> #[trigger] entries.push(entry)[i] == entries[i],
        last_term_of(entries.push(entry)) == entry.term,
{
}

/// The entries of a log holding `entries` after putting each of `puts` in
/// order.
pub open spec fn after_puts(entries: Seq<LogEntry>, puts: Seq<LogEntry>) -> Seq<LogEntry>
    decreases puts.len(),
{
    if puts.len() == 0 {
        entries
    } else {
        after_puts(entries, puts.drop_last()).push(puts.last())
    }
}

/// A log built by `k` puts from a new log has length `k`, and `get(i)` gives
/// back the `i`-th entry put, for every raft index `1 <= i <= k`.
pub proof fn law_puts_build_the_log(puts: Seq<LogEntry>)
    ensures
        after_puts(Seq::empty(), puts) == puts,
        after_puts(Seq::empty(), puts).len() == puts.len(),
        forall|i: int|
            1 <= i <= puts.len() ==> #[trigger] after_puts(Seq::empty(), puts)[i - 1] == puts[i - 1],
    decreases puts.len(),
{
    if puts.len() > 0 {
        law_puts_build_the_log(puts.drop_last());
        assert(puts.drop_last().push(puts.last()) =~= puts);
    }
}

proof fn lemma_conflict_from(entries: Seq<LogEntry>, prev: int, compare_to: Seq<LogEntry>, i: int)
    requires
        prev <= i,
    ensures
        match conflict_from(entries, prev, compare_to, i) {
            Some(c) => {
                &&& i <= c < overlap_end(entries, prev, compare_to)
                &&& terms_differ(entries, prev, compare_to, c)
                &&& forall|j: int| i <= j < c ==> !terms_differ(entries, prev, compare_to, j)
            },
            None => forall|j: int|
                i <= j < overlap_end(entries, prev, compare_to) ==> !terms_differ(
                    entries,
                    prev,
                    compare_to,
                    j,
                ),
        },
    decreases overlap_end(entries, prev, compare_to) - i,
{
    if i < overlap_end(entries, prev, compare_to) && !terms_differ(entries, prev, compare_to, i) {
        lemma_conflict_from(entries, prev, compare_to, i + 1);
    }
}

/// `first_conflict` finds the first position where the terms differ: every
/// position before it agrees, and with no conflict every position of the
/// overlap agrees.
pub proof fn law_first_conflict_is_first(entries: Seq<LogEntry>, prev: int, compare_to: Seq<LogEntry>)
    ensures
        is_first_conflict(entries, prev, compare_to, first_conflict(entries, prev, compare_to)),
{
    lemma_conflict_from(entries, prev, compare_to, prev);
}

/// What `find_conflicts` returns, in terms of the entries themselves: a
/// position at or after `prev`, inside both the log and the sent entries,
/// where the terms differ and before which they all agree; or, when it finds
/// none, agreement on every position that both cover.
pub proof fn law_first_conflict_meaning(entries: Seq<LogEntry>, prev: int, compare_to: Seq<LogEntry>)
    ensures
        match first_conflict(entries, prev, compare_to) {
            Some(i) => {
                &&& prev <= i < entries.len()
                &&& i < prev + compare_to.len()
                &&& entries[i].term != compare_to[i - prev].term
                &&& forall|j: int| prev <= j < i ==> #[trigger] entries[j].term == compare_to[j - prev].term
            },
            None => forall|j: int|
                prev <= j < entries.len() && j < prev + compare_to.len() ==> #[trigger] entries[j].term
                    == compare_to[j - prev].term,
        },
{
    law_first_conflict_is_first(entries, prev, compare_to);
    match first_conflict(entries, prev, compare_to) {
        Some(i) => {
            assert forall|j: int| prev <= j < i implies #[trigger] entries[j].term == compare_to[j
                - prev].term by {
                assert(!terms_differ(entries, prev, compare_to, j));
            }
        },
        None => {
            assert forall|j: int| prev <= j < entries.len() && j < prev + compare_to.len() implies #[trigger] entries[j].term
                == compare_to[j - prev].term by {
                assert(!terms_differ(entries, prev, compare_to, j));
            }
        },
    }
}

/// `truncate(n)` keeps exactly the first `n` entries, or all of them when the
/// log is shorter; `append_rest` and `append_all` append the sent entries
/// from position `k` on, or nothing when `k` is past their end.
pub proof fn law_truncate_and_suffix(entries: Seq<LogEntry>, n: int, sent: Seq<LogEntry>, k: int)
    requires
        0 <= n,
        0 <= k,
    ensures
        truncated(entries, n).len() == if n < entries.len() { n } else { entries.len() as int },
        forall|i: int| 0 <= i < truncated(entries, n).len() ==> #[trigger] truncated(entries, n)[i] == entries[i],
        suffix_from(sent, k).len() == if k <= sent.len() { sent.len() - k } else { 0 },
        forall|i: int| 0 <= i < suffix_from(sent, k).len() ==> #[trigger] suffix_from(sent, k)[i] == sent[k + i],
{
}

/// Log matching: after accepting `compare_to` after raft index `prev`, the
/// log keeps its first `prev` entries, reaches at least past the accepted
/// entries, and holds at each of their positions an entry of the same term.
pub proof fn law_accepted_entries_agree(entries: Seq<LogEntry>, prev: int, compare_to: Seq<LogEntry>)
    requires
        0 <= prev <= entries.len(),
    ensures
        accept_entries(entries, prev, compare_to).len() >= prev + compare_to.len(),
        accept_entries(entries, prev, compare_to).take(prev) == entries.take(prev),
        forall|k: int|
            0 <= k < compare_to.len() ==> #[trigger] accept_entries(entries, prev, compare_to)[prev
                + k].term == compare_to[k].term,
{
    law_first_conflict_is_first(entries, prev, compare_to);
    let res = accept_entries(entries, prev, compare_to);
    match first_conflict(entries, prev, compare_to) {
        Some(i) => {
            assert(res.take(prev) =~= entries.take(prev));
            assert forall|k: int| 0 <= k < compare_to.len() implies #[trigger] res[prev + k].term
                == compare_to[k].term by {
                if prev + k < i {
                    assert(!terms_differ(entries, prev, compare_to, prev + k));
                }
            }
        },
        None => {
            assert(res.take(prev) =~= entries.take(prev));
            assert forall|k: int| 0 <= k < compare_to.len() implies #[trigger] res[prev + k].term
                == compare_to[k].term by {
                if prev + k < entries.len() {
                    assert(!terms_differ(entries, prev, compare_to, prev + k));
                }
            }
        },
    }
}

/// What accepting entries keeps and replaces: every position of the sent
/// range holds the sent entry or, before the end of the old log, the old
/// one; when every overlapping entry agrees on its term nothing is removed;
/// when some overlapping entry disagrees the log ends with the last sent
/// entry.
pub proof fn law_accept_entries_keeps_or_replaces(entries: Seq<LogEntry>, prev: int, compare_to: Seq<LogEntry>)
    requires
        0 <= prev <= entries.len(),
    ensures
        forall|k: int|
            0 <= k < compare_to.len() ==> {
                ||| #[trigger] accept_entries(entries, prev, compare_to)[prev + k] == compare_to[k]
                ||| prev + k < entries.len() && accept_entries(entries, prev, compare_to)[prev + k]
                    == entries[prev + k]
            },
        (forall|j: int|
            prev <= j < entries.len() && j < prev + compare_to.len() ==> #[trigger] entries[j].term
                == compare_to[j - prev].term) ==> {
            &&& accept_entries(entries, prev, compare_to).len() >= entries.len()
            &&& accept_entries(entries, prev, compare_to).take(entries.len() as int) == entries
        },
        (exists|j: int|
            prev <= j < entries.len() && j < prev + compare_to.len() && #[trigger] entries[j].term
                != compare_to[j - prev].term) ==> accept_entries(entries, prev, compare_to).len() == prev
            + compare_to.len(),
{
    law_first_conflict_is_first(entries, prev, compare_to);
    let res = accept_entries(entries, prev, compare_to);
    match first_conflict(entries, prev, compare_to) {
        Some(i) => {
            assert forall|k: int| 0 <= k < compare_to.len() implies {
                ||| #[trigger] res[prev + k] == compare_to[k]
                ||| prev + k < entries.len() && res[prev + k] == entries[prev + k]
            } by {
                if prev + k >= i {
                    assert(res[prev + k] == compare_to[k]);
                }
            }
            assert(terms_differ(entries, prev, compare_to, i));
        },
        None => {
            assert(res.take(entries.len() as int) =~= entries);
            if exists|j: int|
                prev <= j < entries.len() && j < prev + compare_to.len() && #[trigger] entries[j].term
                    != compare_to[j - prev].term {
                let j = choose|j: int|
                    prev <= j < entries.len() && j < prev + compare_to.len() && #[trigger] entries[j].term
                        != compare_to[j - prev].term;
                assert(!terms_differ(entries, prev, compare_to, j));
            }
        },
    }
}

/// Accepting the same entries a second time leaves the log as the first
/// time left it: a repeated AppendEntries changes nothing.
pub proof fn law_accept_entries_idempotent(entries: Seq<LogEntry>, prev: int, compare_to: Seq<LogEntry>)
    requires
        0 <= prev <= entries.len(),
    ensures
        accept_entries(accept_entries(entries, prev, compare_to), prev, compare_to) == accept_entries(
            entries,
            prev,
            compare_to,
        ),
{
    let once = accept_entries(entries, prev, compare_to);
    law_accepted_entries_agree(entries, prev, compare_to);
    law_first_conflict_is_first(once, prev, compare_to);
    match first_conflict(once, prev, compare_to) {
        Some(c) => {
            assert(once[prev + (c - prev)].term == compare_to[c - prev].term);
        },
        None => {
            assert(suffix_from(compare_to, once.len() - prev) =~= Seq::<LogEntry>::empty());
            assert(once + Seq::<LogEntry>::empty() =~= once);
        },
    }
}

/// The first `n` entries, or all of them when there are fewer.
pub open spec fn truncated(entries: Seq<LogEntry>, n: int) -> Seq<LogEntry> {
    if n < entries.len() {
        entries.take(n)
    } else {
        entries
    }
}

/// The entries of `s` from position `k` on; empty when `k` is past the end.
pub open spec fn suffix_from(s: Seq<LogEntry>, k: int) -> Seq<LogEntry> {
    if k <= s.len() {
        s.skip(k)
    } else {
        Seq::empty()
    }
}

/// The term of the last entry, or 0 for an empty log.
pub open spec fn last_term_of(entries: Seq<LogEntry>) -> u64 {
    if entries.len() == 0 {
        0
    } else {
        entries.last().term
    }
}

/// The log of a server, held in memory.
#[derive(Debug)]
pub struct Log {
    list: Vec<LogEntry>,
}

impl View for Log {
    type V = Seq<LogEntry>;

    closed spec fn view(&self) -> Seq<LogEntry> {
        self.list@
    }
}

impl RaftList for Log {
    open spec fn entries(&self) -> Seq<LogEntry> {
        self@
    }

    fn new() -> (res: Log) {
        Log { list: Vec::new() }
    }

    fn len(&self) -> (res: usize) {
        self.list.len()
    }

    fn get(&self, raft_index: usize) -> (res: LogEntry) {
        self.list[raft_index - 1]
    }

    fn put(&mut self, entry: LogEntry) -> (res: usize) {
        self.list.push(entry);
        self.list.len()
    }

    fn last_term(&self) -> (res: u64) {
        if self.list.len() != 0 {
            self.list[self.list.len() - 1].term
        } else {
            0
        }
    }

    fn find(&self, raft_index: usize, term: u64) -> (res: Result<bool, &'static str>) {
        if raft_index > self.list.len() {
            Err("index out of bounds")
        } else if raft_index == 0 {
            if term != 0 {
                Err("entry at index 0")
            } else {
                Ok(true)
            }
        } else {
            Ok(self.list[raft_index - 1].term == term)
        }
    }

    fn find_conflicts(&self, prev_index: usize, compare_to: &Vec<LogEntry>) -> (res: Option<usize>) {
        let end = if prev_index + compare_to.len() <= self.list.len() {
            prev_index + compare_to.len()
        } else {
            self.list.len()
        };
        let mut index = prev_index;
        while index < end
            invariant
                prev_index + compare_to.len() <= usize::MAX,
                end == overlap_end(self@, prev_index as int, compare_to@),
                prev_index <= index,
                index < end ==> first_conflict(self@, prev_index as int, compare_to@) == conflict_from(
                    self@,
                    prev_index as int,
                    compare_to@,
                    index as int,
                ),
                index >= end ==> first_conflict(self@, prev_index as int, compare_to@) == None::<int>,
            decreases end - index,
        {
            if compare_to[index - prev_index].term != self.list[index].term {
                return Some(index);
            }
            index = index + 1;
        }
        None
    }

    fn truncate(&mut self, starting: usize) {
        self.list.truncate(starting);
    }

    fn append_rest(&mut self, starting: usize, prev: usize, compare_to: &Vec<LogEntry>) {
        let ghost before = self@;
        let mut index = starting - prev;
        while index < compare_to.len()
            invariant
                prev <= starting,
                starting - prev <= index,
                index <= compare_to.len() ==> self@ == before + compare_to@.subrange(
                    starting - prev,
                    index as int,
                ),
                index > compare_to.len() ==> self@ == before && index == starting - prev,
            decreases compare_to.len() - index,
        {
            self.list.push(compare_to[index]);
            index = index + 1;
        }
    }

    fn append_all(&mut self, prev: usize, compare_to: &Vec<LogEntry>) {
        let ghost before = self@;
        let start = self.len() - prev;
        let mut index = start;
        while index < compare_to.len()
            invariant
                start == before.len() - prev,
                start <= index,
                index <= compare_to.len() ==> self@ == before + compare_to@.subrange(
                    start as int,
                    index as int,
                ),
                index > compare_to.len() ==> self@ == before && index == start,
            decreases compare_to.len() - index,
        {
            self.list.push(compare_to[index]);
            index = index + 1;
        }
    }
}

/// The decimal text of one digit.
pub open spec fn digit_text(d: nat) -> Seq<char> {
    if d == 0 {
        "0"@
    } else if d == 1 {
        "1"@
    } else if d == 2 {
        "2"@
    } else if d == 3 {
        "3"@
    } else if d == 4 {
        "4"@
    } else if d == 5 {
        "5"@
    } else if d == 6 {
        "6"@
    } else if d == 7 {
        "7"@
    } else if d == 8 {
        "8"@
    } else {
        "9"@
    }
}

/// The decimal text of `n`, without leading zeros.
pub open spec fn decimal_text(n: nat) -> Seq<char>
    decreases n,
{
    if n < 10 {
        digit_text(n)
    } else {
        decimal_text(n / 10) + digit_text(n % 10)
    }
}

/// The name of an operation, as the log shows it.
pub open spec fn operation_text(op: RaftOperation) -> Seq<char> {
    match op {
        RaftOperation::Incr => "Incr"@,
        RaftOperation::Decr => "Decr"@,
    }
}

/// The text of the entry at 0-based position `k`: `(raft index|term|operation)`.
pub open spec fn entry_text(k: nat, e: LogEntry) -> Seq<char> {
    "("@ + decimal_text(k + 1) + "|"@ + decimal_text(e.term as nat) + "|"@ + operation_text(e.operation)
        + ")"@
}

/// The texts of the first `n` entries, separated by commas.
pub open spec fn entries_text(entries: Seq<LogEntry>, n: nat) -> Seq<char>
    decreases n,
{
    if n == 0 {
        Seq::empty()
    } else if n == 1 {
        entry_text(0, entries[0])
    } else {
        entries_text(entries, (n - 1) as nat) + ","@ + entry_text((n - 1) as nat, entries[n - 1])
    }
}

/// The text of a whole log: its entries in brackets.
pub open spec fn log_text(entries: Seq<LogEntry>) -> Seq<char> {
    "["@ + entries_text(entries, entries.len()) + "]"@
}

/// The number that a sequence of decimal digits stands for.
pub open spec fn digits_value(s: Seq<char>) -> int
    decreases s.len(),
{
    if s.len() == 0 {
        0
    } else {
        digits_value(s.drop_last()) * 10 + (s.last() as int - '0' as int)
    }
}

/// The decimal text of `n` is made of the digits `0` to `9`, reads back as
/// `n`, and starts with `0` only for `n == 0`.
pub proof fn law_decimal_text_reads_back(n: nat)
    ensures
        decimal_text(n).len() >= 1,
        forall|i: int| 0 <= i < decimal_text(n).len() ==> '0' <= #[trigger] decimal_text(n)[i] <= '9',
        digits_value(decimal_text(n)) == n,
        decimal_text(n)[0] == '0' ==> n == 0,
    decreases n,
{
    reveal_strlit("0");
    reveal_strlit("1");
    reveal_strlit("2");
    reveal_strlit("3");
    reveal_strlit("4");
    reveal_strlit("5");
    reveal_strlit("6");
    reveal_strlit("7");
    reveal_strlit("8");
    reveal_strlit("9");
    if n >= 10 {
        law_decimal_text_reads_back(n / 10);
        law_decimal_text_reads_back(n % 10);
        let head = decimal_text(n / 10);
        let d = digit_text(n % 10);
        assert(d.len() == 1);
        assert((head + d).drop_last() =~= head);
        assert((head + d).last() == d.last());
        assert(d.drop_last() =~= Seq::<char>::empty());
        assert(digits_value(d) == d.last() as int - '0' as int);
        assert(digits_value(head + d) == digits_value(head) * 10 + (d.last() as int - '0' as int));
        assert(decimal_text((n % 10) as nat) == d);
        assert(decimal_text(n) == head + d);
        assert(n == (n / 10) * 10 + n % 10);
        assert(digits_value(head) == n / 10);
        assert(digits_value(d) == n % 10);
        assert(digits_value(head + d) == (n / 10) * 10 + n % 10);
        assert(decimal_text(n)[0] == head[0]);
    } else {
        let d = digit_text(n);
        assert(d.len() == 1);
        assert(d.drop_last() =~= Seq::<char>::empty());
        assert(digits_value(Seq::<char>::empty()) == 0);
        assert(digits_value(d) == d.last() as int - '0' as int);
    }
}

/// The text of a log: `[]` when empty; putting an entry at raft index `k`
/// drops the closing bracket, adds a comma after any earlier entry, then
/// `(k|term|Incr)` or `(k|term|Decr)`, and closes the bracket again.
pub proof fn law_log_text_format(entries: Seq<LogEntry>, e: LogEntry)
    ensures
        log_text(Seq::empty()) == "[]"@,
        log_text(entries.push(e)) == log_text(entries).drop_last() + (if entries.len() > 0 {
            ","@
        } else {
            Seq::empty()
        }) + "("@ + decimal_text(entries.len() + 1) + "|"@ + decimal_text(e.term as nat) + "|"@ + (
        match e.operation {
            RaftOperation::Incr => "Incr"@,
            RaftOperation::Decr => "Decr"@,
        }) + ")"@ + "]"@,
{
    reveal_strlit("[]");
    reveal_strlit("[");
    reveal_strlit("]");
    assert(log_text(Seq::empty()) =~= "[]"@);
    let pushed = entries.push(e);
    assert forall|i: int| 0 <= i < entries.len() implies #[trigger] pushed[i] == entries[i] by {}
    lemma_entries_text_prefix(entries, e, entries.len());
    let body = entries_text(entries, entries.len());
    assert(("["@ + body + "]"@).drop_last() =~= "["@ + body);
    if entries.len() > 0 {
        assert(entries_text(pushed, pushed.len()) == entries_text(pushed, entries.len()) + ","@
            + entry_text(entries.len(), e));
    } else {
        assert(entries_text(pushed, pushed.len()) == entry_text(0, e));
    }
    assert(log_text(pushed) =~= log_text(entries).drop_last() + (if entries.len() > 0 {
        ","@
    } else {
        Seq::empty()
    }) + "("@ + decimal_text(entries.len() + 1) + "|"@ + decimal_text(e.term as nat) + "|"@ + (
    match e.operation {
        RaftOperation::Incr => "Incr"@,
        RaftOperation::Decr => "Decr"@,
    }) + ")"@ + "]"@);
}

proof fn lemma_entries_text_prefix(entries: Seq<LogEntry>, e: LogEntry, n: nat)
    requires
        n <= entries.len(),
    ensures
        entries_text(entries.push(e), n) == entries_text(entries, n),
    decreases n,
{
    if n > 1 {
        lemma_entries_text_prefix(entries, e, (n - 1) as nat);
        assert(entries.push(e)[n - 1] == entries[n - 1]);
    } else if n == 1 {
        assert(entries.push(e)[0] == entries[0]);
    }
}

fn digit_str(d: u64) -> (res: &'static str)
    requires
        d < 10,
    ensures
        res@ == digit_text(d as nat),
{
    if d == 0 {
        "0"
    } else if d == 1 {
        "1"
    } else if d == 2 {
        "2"
    } else if d == 3 {
        "3"
    } else if d == 4 {
        "4"
    } else if d == 5 {
        "5"
    } else if d == 6 {
        "6"
    } else if d == 7 {
        "7"
    } else if d == 8 {
        "8"
    } else {
        "9"
    }
}

/// Appends the decimal text of `n` to `out`.
fn push_decimal(out: &mut String, n: u64)
    ensures
        final(out)@ == old(out)@ + decimal_text(n as nat),
    decreases n,
{
    if n < 10 {
        out.append(digit_str(n));
    } else {
        push_decimal(out, n / 10);
        out.append(digit_str(n % 10));
    }
}

fn operation_str(op: RaftOperation) -> (res: &'static str)
    ensures
        res@ == operation_text(op),
{
    match op {
        RaftOperation::Incr => "Incr",
        RaftOperation::Decr => "Decr",
    }
}

impl Log {
    /// The log as text, such as `[(1|2|Incr),(2|2|Decr)]`: each entry shows
    /// its raft index, its term and its operation.
    pub fn to_string(&self) -> (res: String)
        ensures
            res@ == log_text(self@),
    {
        let mut out = String::new();
        out.append("[");
        let mut count: usize = 0;
        while count < self.list.len()
            invariant
                count <= self.list.len(),
                out@ == "["@ + entries_text(self@, count as nat),
            decreases self.list.len() - count,
        {
            let ghost prefix = out@;
            if count != 0 {
                out.append(",");
            }
            let v = self.list[count];
            out.append("(");
            push_decimal(&mut out, (count + 1) as u64);
            out.append("|");
            push_decimal(&mut out, v.term);
            out.append("|");
            out.append(operation_str(v.operation));
            out.append(")");
            proof {
                if count == 0 {
                    assert(out@ == prefix + entry_text(0, v));
                } else {
                    assert(out@ == prefix + ","@ + entry_text(count as nat, v));
                }
            }
            count = count + 1;
        }
        out.append("]");
        out
    }
}

} // verus!
