use simple_todo::text::decimal_string;
use simple_todo::{
    format_checkpoint, format_record, parse_checkpoint, parse_id, parse_line, read_change_records,
    replay, sorted_keys, largest, next_id_after, read_checkpoint_ids, Database, DatabaseError, ErrorKind, Operation, Record,
};
use std::collections::HashMap;

fn insert(id: u64, content: &str) -> Record {
    Record { id, content: Some(content.to_string()), operation: Operation::APPEND }
}

fn delete(id: u64) -> Record {
    Record { id, content: None, operation: Operation::REMOVE }
}

fn map_of(entries: &[(u64, &str)]) -> HashMap<u64, String> {
    entries.iter().map(|(k, v)| (*k, v.to_string())).collect()
}

fn store(numerator: u32, denominator: u32) -> Database {
    let mut db = Database::open("", "");
    assert!(db.set_compaction_chance(numerator, denominator));
    db
}

#[test]
fn parse_insert_line() {
    let r = parse_line("42,0,buy milk").unwrap();
    assert_eq!(r.id, 42);
    assert_eq!(r.content.as_deref(), Some("buy milk"));
    assert_eq!(r.operation, Operation::APPEND);
}

#[test]
fn parse_two_field_line_is_delete() {
    let r = parse_line("7,1").unwrap();
    assert_eq!(r.id, 7);
    assert_eq!(r.content, None);
    assert_eq!(r.operation, Operation::REMOVE);
    let r = parse_line("7,0").unwrap();
    assert_eq!(r.operation, Operation::REMOVE);
}

#[test]
fn parse_three_field_delete_drops_content() {
    let r = parse_line("9,1,old").unwrap();
    assert_eq!(r.id, 9);
    assert_eq!(r.content, None);
    assert_eq!(r.operation, Operation::REMOVE);
}

#[test]
fn parse_empty_content() {
    let r = parse_line("3,0,").unwrap();
    assert_eq!(r.content.as_deref(), Some(""));
}

#[test]
fn parse_rejects_malformed_lines() {
    assert_eq!(parse_line("garbage").unwrap_err().kind(), ErrorKind::MalformedRecord);
    assert!(parse_line("").is_err());
    assert!(parse_line("5,2").is_err());
    assert!(parse_line("5,2,x").is_err());
    assert!(parse_line("x,0,a").is_err());
    assert!(parse_line(",0,a").is_err());
    assert!(parse_line("5,0,a,b").is_err());
    assert!(parse_line("18446744073709551616,1").is_err());
}

#[test]
fn parse_largest_id() {
    let r = parse_line("18446744073709551615,1").unwrap();
    assert_eq!(r.id, u64::MAX);
}

#[test]
fn format_records() {
    assert_eq!(format_record(&insert(12, "walk dog")).unwrap(), "12,0,walk dog");
    assert_eq!(format_record(&delete(12)).unwrap(), "12,1");
    assert_eq!(format_record(&insert(0, "")).unwrap(), "0,0,");
}

#[test]
fn format_rejects_unwritable_records() {
    assert_eq!(format_record(&insert(1, "a,b")).unwrap_err().kind(), ErrorKind::UnwritableRecord);
    assert!(format_record(&insert(1, "a\nb")).is_err());
    let bad = Record { id: 1, content: None, operation: Operation::APPEND };
    assert!(format_record(&bad).is_err());
}

#[test]
fn formatted_record_reads_back() {
    let line = format_record(&insert(99, "read book")).unwrap();
    let r = parse_line(&line).unwrap();
    assert_eq!(r.id, 99);
    assert_eq!(r.content.as_deref(), Some("read book"));
    assert_eq!(r.operation, Operation::APPEND);
}

#[test]
fn decimal_text_of_numbers() {
    assert_eq!(decimal_string(0), "0");
    assert_eq!(decimal_string(1234), "1234");
    assert_eq!(decimal_string(u64::MAX), "18446744073709551615");
}

#[test]
fn checkpoint_splits_on_first_comma() {
    let m = parse_checkpoint("1,a\n2,b,c\n\n3,\n").unwrap();
    assert_eq!(m, map_of(&[(1, "a"), (2, "b,c"), (3, "")]));
}

#[test]
fn checkpoint_later_line_wins() {
    let m = parse_checkpoint("1,a\n1,b").unwrap();
    assert_eq!(m, map_of(&[(1, "b")]));
}

#[test]
fn checkpoint_empty_text() {
    assert!(parse_checkpoint("").unwrap().is_empty());
}

#[test]
fn checkpoint_missing_separator_is_error() {
    assert_eq!(
        parse_checkpoint("1,a\nno separator\n").unwrap_err().kind(),
        ErrorKind::MalformedCheckpoint
    );
    assert!(parse_checkpoint("x,a\n").is_err());
}

#[test]
fn checkpoint_round_trip() {
    let m = map_of(&[(1, "a"), (20, "b"), (300, "with, comma")]);
    let text = format_checkpoint(&m);
    assert_eq!(text.lines().count(), 3);
    assert!(text.ends_with('\n'));
    assert_eq!(parse_checkpoint(&text).unwrap(), m);
    assert_eq!(format_checkpoint(&HashMap::new()), "");
}

#[test]
fn change_records_skip_malformed() {
    let rs = read_change_records("1,0,a\nbroken\n\n2,1\n3,7\n");
    assert_eq!(rs.len(), 2);
    assert_eq!(rs[0].id, 1);
    assert_eq!(rs[1].id, 2);
    assert_eq!(rs[1].operation, Operation::REMOVE);
}

#[test]
fn replay_conflicts_are_no_ops() {
    let base = map_of(&[(5, "x")]);
    let rs = vec![insert(5, "y"), delete(6), insert(7, "z"), delete(5)];
    let (m, skipped) = replay(base, &rs);
    assert_eq!(m, map_of(&[(7, "z")]));
    assert_eq!(skipped, vec![5, 6]);
}

#[test]
fn add_record_appends_line() {
    let mut db = Database::open("", "");
    assert_eq!(db.add_record(&insert(1, "a")).unwrap(), "1,0,a\n");
    assert_eq!(db.add_record(&delete(1)).unwrap(), "1,1\n");
    assert_eq!(db.change_text(), "1,0,a\n1,1\n");
}

#[test]
fn add_record_starts_new_line_after_partial_line() {
    let mut db = Database::open("", "1,0,a");
    assert_eq!(db.add_record(&insert(2, "b")).unwrap(), "\n2,0,b\n");
    assert_eq!(db.aggregate_with(false).unwrap(), map_of(&[(1, "a"), (2, "b")]));
}

#[test]
fn add_record_rejects_comma_content() {
    let mut db = Database::open("", "");
    assert!(db.add_record(&insert(1, "a,b")).is_err());
    assert_eq!(db.change_text(), "");
}

#[test]
fn aggregate_twice_is_idempotent() {
    for (n, d) in [(0, 1), (1, 1), (1, 10)] {
        let mut db = store(n, d);
        db.add_record(&insert(1, "a")).unwrap();
        db.add_record(&insert(2, "b")).unwrap();
        db.add_record(&delete(1)).unwrap();
        let first = db.aggregate().unwrap();
        let second = db.aggregate().unwrap();
        assert_eq!(first, second);
        assert_eq!(second, map_of(&[(2, "b")]));
    }
}

#[test]
fn disjoint_inserts_regardless_of_compaction() {
    for (n, d) in [(0, 1), (1, 1)] {
        let mut db = store(n, d);
        db.add_record(&insert(1, "a")).unwrap();
        db.add_record(&insert(2, "b")).unwrap();
        assert_eq!(db.aggregate().unwrap(), map_of(&[(1, "a"), (2, "b")]));
    }
    let mut db = store(1, 1);
    db.add_record(&insert(1, "a")).unwrap();
    db.aggregate().unwrap();
    db.add_record(&insert(2, "b")).unwrap();
    assert_eq!(db.aggregate().unwrap(), map_of(&[(1, "a"), (2, "b")]));
}

#[test]
fn delete_after_insert() {
    for (n, d) in [(0, 1), (1, 1)] {
        let mut db = store(n, d);
        db.add_record(&insert(5, "x")).unwrap();
        assert_eq!(db.aggregate().unwrap(), map_of(&[(5, "x")]));
        db.add_record(&delete(5)).unwrap();
        assert!(!db.aggregate().unwrap().contains_key(&5));
    }
}

#[test]
fn first_insert_wins() {
    for (n, d) in [(0, 1), (1, 1)] {
        let mut db = store(n, d);
        db.add_record(&insert(5, "x")).unwrap();
        db.aggregate().unwrap();
        db.add_record(&insert(5, "y")).unwrap();
        assert_eq!(db.aggregate().unwrap(), map_of(&[(5, "x")]));
        assert_eq!(db.skipped_ids(), &vec![5]);
    }
}

#[test]
fn delete_of_unknown_key() {
    let mut db = store(1, 10);
    db.add_record(&delete(999)).unwrap();
    assert!(db.aggregate().unwrap().is_empty());
    assert_eq!(db.skipped_ids(), &vec![999]);
}

#[test]
fn forced_compaction_truncates_change_log() {
    let mut db = store(1, 1);
    db.add_record(&insert(1, "a")).unwrap();
    db.add_record(&insert(2, "b")).unwrap();
    let before = db.aggregate_with(false).unwrap();
    assert_eq!(db.change_text(), "1,0,a\n2,0,b\n");
    let compacted = db.aggregate().unwrap();
    assert_eq!(db.change_text(), "");
    assert_eq!(before, compacted);
    assert_eq!(parse_checkpoint(db.checkpoint_text()).unwrap(), compacted);
    assert_eq!(db.aggregate().unwrap(), compacted);
}

#[test]
fn malformed_change_line_is_skipped() {
    let mut db = Database::open("1,a\n", "garbage\n2,0,b\n");
    assert_eq!(db.aggregate_with(false).unwrap(), map_of(&[(1, "a"), (2, "b")]));
}

#[test]
fn malformed_checkpoint_fails_cleanly() {
    let mut db = Database::open("no separator\n", "2,0,b\n");
    assert_eq!(db.aggregate_with(true).unwrap_err().kind(), ErrorKind::MalformedCheckpoint);
    assert_eq!(db.checkpoint_text(), "no separator\n");
    assert_eq!(db.change_text(), "2,0,b\n");
}

#[test]
fn next_ids_increase() {
    let mut db = Database::open("", "");
    let a = db.get_next_id();
    let b = db.get_next_id();
    let c = db.get_next_id();
    assert!(a < b && b < c);
}

#[test]
fn compaction_chance_must_be_valid() {
    let mut db = Database::open("", "");
    assert!(!db.set_compaction_chance(1, 0));
    assert!(!db.set_compaction_chance(3, 2));
    assert!(db.set_compaction_chance(0, 5));
    db.add_record(&insert(1, "a")).unwrap();
    db.aggregate().unwrap();
    assert_eq!(db.change_text(), "1,0,a\n");
}

#[test]
fn error_message() {
    let e = DatabaseError::new("bad line");
    assert_eq!(e.message(), "bad line");
    assert_eq!(e.kind(), ErrorKind::MalformedRecord);
    let e = DatabaseError::of_kind(ErrorKind::MalformedCheckpoint, "bad checkpoint");
    assert_eq!(e.kind(), ErrorKind::MalformedCheckpoint);
}

#[test]
fn keys_in_order() {
    let m = map_of(&[(30, "c"), (1, "a"), (20, "b"), (u64::MAX, "z")]);
    assert_eq!(sorted_keys(&m), vec![1, 20, 30, u64::MAX]);
    assert!(sorted_keys(&HashMap::new()).is_empty());
}

#[test]
fn ids_parse_as_decimal() {
    assert_eq!(parse_id("1700000000"), Some(1700000000));
    assert_eq!(parse_id("007"), Some(7));
    assert_eq!(parse_id(""), None);
    assert_eq!(parse_id("-1"), None);
    assert_eq!(parse_id("12a"), None);
}

#[test]
fn record_descriptions() {
    assert_eq!(insert(3, "buy milk").to_string(), "APPEND: (3, buy milk)");
    assert_eq!(delete(3).to_string(), "REMOVE: (3)");
}

#[test]
fn malformed_line_after_partial_line() {
    let mut db = Database::open("", "1,0,a");
    let before = db.aggregate_with(false).unwrap();
    let mut db = Database::open("", "1,0,a\nnodelimiter\n");
    assert_eq!(db.aggregate_with(false).unwrap(), before);
}

#[test]
fn next_id_follows_the_clock() {
    assert_eq!(next_id_after(0, 1_700_000_000), 1_700_000_000);
    assert_eq!(next_id_after(1_700_000_000, 1_700_000_000), 1_700_000_001);
    assert_eq!(next_id_after(1_700_000_005, 1_700_000_000), 1_700_000_006);
    assert_eq!(next_id_after(u64::MAX, 3), u64::MAX);
}

#[test]
fn open_notes_highest_id() {
    let mut db = Database::open("5,a\nbad\n", "garbage\n18446744073709551614,1\n7,0,b\n");
    assert_eq!(db.get_next_id(), u64::MAX);
    let mut db = Database::open("", "");
    let id = db.get_next_id();
    assert!(id > 0);
}

#[test]
fn checkpoint_ids_and_largest() {
    assert_eq!(read_checkpoint_ids("3,a\nx\n\n9,b,c\n"), vec![3, 9]);
    assert_eq!(largest(&vec![4, 12, 7]), 12);
    assert_eq!(largest(&vec![]), 0);
}

#[test]
fn compaction_writes_each_entry_once() {
    let mut db = store(1, 1);
    db.add_record(&insert(1, "a")).unwrap();
    db.add_record(&insert(2, "b")).unwrap();
    db.add_record(&insert(1, "again")).unwrap();
    let m = db.aggregate().unwrap();
    assert_eq!(db.change_text(), "");
    let mut lines: Vec<&str> = db.checkpoint_text().lines().collect();
    lines.sort();
    assert_eq!(lines, vec!["1,a", "2,b"]);
    assert_eq!(m, map_of(&[(1, "a"), (2, "b")]));
}
