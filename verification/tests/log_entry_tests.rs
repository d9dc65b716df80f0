use ds_raft::raft_server::log_entry::{Log, LogEntry, RaftList, RaftOperation};

fn entry(term: u64, operation: RaftOperation) -> LogEntry {
    LogEntry { operation, term }
}

fn log_of(terms: &[u64]) -> Log {
    let mut log = Log::new();
    for t in terms {
        log.put(entry(*t, RaftOperation::Incr));
    }
    log
}

fn terms(log: &Log) -> Vec<u64> {
    (1..=log.len()).map(|i| log.get(i).term).collect()
}

#[test]
fn new_log_is_empty() {
    let log = Log::new();
    assert_eq!(log.len(), 0);
    assert_eq!(log.last_term(), 0);
    assert_eq!(log.to_string(), "[]");
}

#[test]
fn put_returns_length_and_get_reads_back() {
    let mut log = Log::new();
    assert_eq!(log.put(entry(1, RaftOperation::Incr)), 1);
    assert_eq!(log.put(entry(2, RaftOperation::Decr)), 2);
    assert_eq!(log.get(1), entry(1, RaftOperation::Incr));
    assert_eq!(log.get(2), entry(2, RaftOperation::Decr));
    assert_eq!(log.last_term(), 2);
}

#[test]
fn find_reports_each_case() {
    let log = log_of(&[1, 2]);
    assert_eq!(log.find(3, 2), Err("index out of bounds"));
    assert_eq!(log.find(0, 1), Err("entry at index 0"));
    assert_eq!(log.find(0, 0), Ok(true));
    assert_eq!(log.find(2, 2), Ok(true));
    assert_eq!(log.find(2, 1), Ok(false));
    assert_eq!(log.find(1, 1), Ok(true));
}

#[test]
fn find_conflicts_finds_first_disagreement() {
    let log = log_of(&[1, 1, 2, 2]);
    let sent = vec![entry(1, RaftOperation::Incr), entry(3, RaftOperation::Incr), entry(3, RaftOperation::Incr)];
    assert_eq!(log.find_conflicts(1, &sent), Some(2));
    let agreeing = vec![entry(1, RaftOperation::Decr), entry(2, RaftOperation::Incr)];
    assert_eq!(log.find_conflicts(1, &agreeing), None);
    assert_eq!(log.find_conflicts(4, &sent), None);
    assert_eq!(log.find_conflicts(7, &sent), None);
    assert_eq!(log.find_conflicts(0, &vec![]), None);
}

#[test]
fn truncate_keeps_a_prefix() {
    let mut log = log_of(&[1, 2, 3]);
    log.truncate(5);
    assert_eq!(terms(&log), vec![1, 2, 3]);
    log.truncate(1);
    assert_eq!(terms(&log), vec![1]);
    log.truncate(0);
    assert_eq!(log.len(), 0);
}

#[test]
fn append_rest_appends_from_the_conflict() {
    let mut log = log_of(&[1, 1]);
    let sent = vec![entry(1, RaftOperation::Incr), entry(4, RaftOperation::Incr), entry(5, RaftOperation::Decr)];
    log.append_rest(2, 1, &sent);
    assert_eq!(terms(&log), vec![1, 1, 4, 5]);
    let mut other = log_of(&[1]);
    other.append_rest(9, 1, &sent);
    assert_eq!(terms(&other), vec![1]);
}

#[test]
fn append_all_appends_past_the_end() {
    let mut log = log_of(&[1, 1, 2]);
    let sent = vec![entry(1, RaftOperation::Incr), entry(2, RaftOperation::Incr), entry(2, RaftOperation::Decr)];
    log.append_all(1, &sent);
    assert_eq!(terms(&log), vec![1, 1, 2, 2]);
    assert_eq!(log.get(4).operation, RaftOperation::Decr);
    let mut longer = log_of(&[1, 1, 2, 2, 2]);
    longer.append_all(1, &sent);
    assert_eq!(terms(&longer), vec![1, 1, 2, 2, 2]);
}

#[test]
fn to_string_shows_index_term_and_operation() {
    let mut log = Log::new();
    log.put(entry(1, RaftOperation::Incr));
    log.put(entry(3, RaftOperation::Decr));
    assert_eq!(log.to_string(), "[(1|1|Incr),(2|3|Decr)]");
    for _ in 0..8 {
        log.put(entry(12, RaftOperation::Incr));
    }
    assert!(log.to_string().ends_with(",(10|12|Incr)]"));
    let mut big = Log::new();
    big.put(entry(18446744073709551615, RaftOperation::Decr));
    assert_eq!(big.to_string(), "[(1|18446744073709551615|Decr)]");
}

#[test]
fn k_puts_build_the_log_in_order() {
    let puts: Vec<LogEntry> = (1..=7u64)
        .map(|t| entry(t, if t % 2 == 0 { RaftOperation::Decr } else { RaftOperation::Incr }))
        .collect();
    let mut log = Log::new();
    for e in &puts {
        log.put(*e);
    }
    assert_eq!(log.len(), 7);
    for i in 1..=7 {
        assert_eq!(log.get(i), puts[i - 1]);
    }
}
