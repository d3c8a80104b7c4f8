use raft_buddies::{LogEntry, RaftLog};

fn node(term: usize, index: usize, contents: &str) -> LogEntry {
    LogEntry::Node {
        term,
        index,
        contents: contents.to_owned(),
    }
}

#[test]
fn it_has_an_empty_log_at_the_root() {
    let log = RaftLog::default();

    assert!(log[0] == LogEntry::Root)
}

#[test]
fn it_appends() {
    let mut log = RaftLog::default();
    let log_entry = LogEntry::Node {
        term: 1,
        index: 1,
        contents: "set x 42".to_owned(),
    };

    let can_append = log.append_entries(0, 0, &[log_entry.clone()]);

    assert!(can_append);
    assert!(log.len() == 2);
    assert!(log[1] == log_entry);
}

#[test]
fn it_does_not_append_with_gap_in_index() {
    let mut log = RaftLog::default();

    let cannot_append = !log.append_entries(
        0,
        0,
        &[LogEntry::Node {
            term: 1,
            index: 2,
            contents: "set x 42".to_owned(),
        }],
    );

    assert!(cannot_append);
}

#[test]
fn it_does_not_append_when_current_term_is_higher() {
    let mut log = RaftLog::from(
        [
            LogEntry::Root,
            LogEntry::Node {
                term: 1,
                index: 1,
                contents: "set x 42".to_owned(),
            },
            LogEntry::Node {
                term: 2,
                index: 2,
                contents: "set x 24".to_owned(),
            },
        ]
        .as_slice(),
    );

    let cannot_append = !log.append_entries(
        2,
        0,
        &[LogEntry::Node {
            term: 1,
            index: 3,
            contents: "set x 42".to_owned(),
        }],
    );

    assert!(cannot_append);
}

#[test]
fn it_returns_true_for_empty_appends() {
    let mut log = RaftLog::default();

    let can_append = log.append_entries(0, 0, &[]);

    assert!(can_append);
}

#[test]
fn it_returns_true_for_matching_log_entries() {
    let mut log = RaftLog::from(
        [
            LogEntry::Root,
            LogEntry::Node {
                term: 1,
                index: 1,
                contents: "set x 1".to_owned(),
            },
            LogEntry::Node {
                term: 2,
                index: 2,
                contents: "set x 2".to_owned(),
            },
            LogEntry::Node {
                term: 3,
                index: 3,
                contents: "set x 3".to_owned(),
            },
        ]
        .as_slice(),
    );

    let can_append = log.append_entries(
        0,
        0,
        [
            LogEntry::Node {
                term: 1,
                index: 1,
                contents: "set x 1".to_owned(),
            },
            LogEntry::Node {
                term: 2,
                index: 2,
                contents: "set x 2".to_owned(),
            },
            LogEntry::Node {
                term: 3,
                index: 3,
                contents: "set x 3".to_owned(),
            },
        ]
        .as_slice(),
    );

    assert!(can_append);
}

#[test]
fn it_truncates_logs() {
    let mut log = RaftLog::from(
        [
            LogEntry::Root,
            LogEntry::Node {
                term: 1,
                index: 1,
                contents: "set x 1".to_owned(),
            },
            LogEntry::Node {
                term: 2,
                index: 2,
                contents: "set x 2".to_owned(),
            },
            LogEntry::Node {
                term: 3,
                index: 3,
                contents: "set x 3".to_owned(),
            },
        ]
        .as_slice(),
    );

    let can_append = log.append_entries(
        0,
        0,
        [
            LogEntry::Node {
                term: 4,
                index: 1,
                contents: "set x 1".to_owned(),
            },
            LogEntry::Node {
                term: 5,
                index: 2,
                contents: "set x 2".to_owned(),
            },
            LogEntry::Node {
                term: 6,
                index: 3,
                contents: "set x 3".to_owned(),
            },
        ]
        .as_slice(),
    );

    assert!(can_append);
    assert!(
        log.len() == 4,
        "Expected log length of 4, log actually had length of {}",
        log.len()
    );

    assert!(
        log.last()
            == Some(&LogEntry::Node {
                term: 6,
                index: 3,
                contents: "set x 3".to_owned(),
            })
    );
}

#[test]
fn a_gap_leaves_the_log_unchanged() {
    let mut log = RaftLog::default();

    assert!(!log.append_entries(0, 0, &[node(1, 2, "set x 42")]));

    assert_eq!(*log, vec![LogEntry::Root]);
}

#[test]
fn a_missing_previous_entry_refuses_even_an_empty_append() {
    let mut log = RaftLog::default();

    assert!(!log.append_entries(1, 0, &[]));
    assert!(!log.append_entries(1, 0, &[node(1, 2, "a")]));

    assert_eq!(*log, vec![LogEntry::Root]);
}

#[test]
fn an_empty_append_ignores_the_term() {
    let given = [LogEntry::Root, node(1, 1, "a"), node(2, 2, "b")];
    let mut log = RaftLog::from(given.as_slice());

    assert!(log.append_entries(2, 7, &[]));
    assert!(log.append_entries(2, 2, &[]));

    assert_eq!(*log, given.to_vec());
}

#[test]
fn a_wrong_term_or_index_at_the_previous_entry_refuses() {
    let given = [LogEntry::Root, node(1, 1, "a"), node(2, 5, "b")];
    let mut log = RaftLog::from(given.as_slice());

    // The term recorded at 1 is 1, not 2.
    assert!(!log.append_entries(1, 2, &[node(2, 2, "c")]));
    // The entry at 2 is numbered 5.
    assert!(!log.append_entries(2, 2, &[node(2, 3, "c")]));
    // The root cannot follow anything.
    assert!(!log.append_entries(1, 1, &[LogEntry::Root]));

    assert_eq!(*log, given.to_vec());
}

#[test]
fn an_append_in_the_middle_drops_the_old_suffix() {
    let mut log = RaftLog::from(
        [
            LogEntry::Root,
            node(1, 1, "a"),
            node(1, 2, "b"),
            node(1, 3, "c"),
        ]
        .as_slice(),
    );

    assert!(log.append_entries(1, 1, &[node(2, 2, "d")]));

    assert_eq!(
        *log,
        vec![LogEntry::Root, node(1, 1, "a"), node(2, 2, "d")]
    );
}

#[test]
fn only_the_first_new_entry_is_checked_for_its_number() {
    let mut log = RaftLog::default();

    assert!(log.append_entries(0, 9, &[node(1, 1, "a"), node(1, 7, "b")]));

    assert_eq!(
        *log,
        vec![LogEntry::Root, node(1, 1, "a"), node(1, 7, "b")]
    );
}

#[test]
fn a_log_copies_the_entries_it_is_built_from() {
    let log = RaftLog::from([node(3, 4, "x")].as_slice());
    assert_eq!(*log, vec![node(3, 4, "x")]);

    let empty = RaftLog::from([].as_slice());
    assert!(empty.is_empty());

    let entry = node(1, 1, "set x 42");
    assert_eq!(entry.clone(), entry);
}
