use memo_stack::board::MemoBoard;
use memo_stack::models::Config;
use memo_stack::models::MemoStatus;
use memo_stack::storage::MemoRecord;

fn config(max_hot: usize) -> Config {
    Config { max_hot_count: max_hot, cold_spotlight_interval_seconds: 60 }
}

fn record(id: i32, title: &str, status: &str, created: u64) -> MemoRecord {
    MemoRecord {
        id,
        title: title.to_string(),
        body: String::new(),
        status: status.to_string(),
        creation_date: created,
        moved_to_done_date: None,
        delay_minutes: None,
    }
}

#[test]
fn round_trip_keeps_memos_and_stack_order() {
    let mut b = MemoBoard::new(config(5));
    b.add_memo(1, "one".to_string(), "first body".to_string(), None, 100);
    b.add_memo(2, "two".to_string(), String::new(), Some(45), 110);
    b.add_memo(3, "three".to_string(), "x".to_string(), None, 120);
    b.add_memo(4, "four".to_string(), String::new(), None, 130);
    b.move_to_done(3, 500);
    b.move_to_cold(1);
    b.move_to_hot(1);

    let records = b.export_records();
    let stack = b.hot_stack_ids().clone();
    let loaded = MemoBoard::load_state(config(5), records, stack, 9_999);

    assert_eq!(loaded.hot_stack_ids(), b.hot_stack_ids());
    let orig = b.memos_list();
    let back = loaded.memos_list();
    assert_eq!(orig.len(), back.len());
    for (a, c) in orig.iter().zip(back.iter()) {
        assert_eq!(a.id, c.id);
        assert_eq!(a.title, c.title);
        assert_eq!(a.body, c.body);
        assert_eq!(a.status, c.status);
        assert_eq!(a.creation_date, c.creation_date);
        assert_eq!(a.moved_to_done_date, c.moved_to_done_date);
        assert_eq!(a.delay_minutes, c.delay_minutes);
        assert!(!c.expanded);
    }
}

#[test]
fn load_drops_stack_ids_without_a_memo() {
    let records = vec![record(1, "a", "hot", 10)];
    let loaded = MemoBoard::load_state(config(5), records, vec![7, 1], 0);
    assert_eq!(loaded.hot_stack_ids().as_slice(), &[1]);
}

#[test]
fn load_drops_stack_ids_that_are_not_hot() {
    let records = vec![record(1, "a", "hot", 10), record(2, "b", "cold", 11)];
    let loaded = MemoBoard::load_state(config(5), records, vec![2, 1], 0);
    assert_eq!(loaded.hot_stack_ids().as_slice(), &[1]);
    assert!(matches!(loaded.get_memo(2).unwrap().status, MemoStatus::Cold));
}

#[test]
fn load_drops_duplicate_stack_ids() {
    let records = vec![record(1, "a", "hot", 10), record(2, "b", "hot", 11)];
    let loaded = MemoBoard::load_state(config(5), records, vec![1, 2, 1], 0);
    assert_eq!(loaded.hot_stack_ids().as_slice(), &[1, 2]);
}

#[test]
fn load_caps_the_stack_at_capacity() {
    let records = vec![
        record(1, "a", "hot", 10),
        record(2, "b", "hot", 11),
        record(3, "c", "hot", 12),
    ];
    let loaded = MemoBoard::load_state(config(2), records, vec![1, 2, 3], 0);
    assert_eq!(loaded.hot_stack_ids().as_slice(), &[1, 2]);
}

#[test]
fn unknown_status_tag_loads_as_hot() {
    let records = vec![record(1, "a", "mystery", 10)];
    let loaded = MemoBoard::load_state(config(5), records, vec![], 0);
    assert!(matches!(loaded.get_memo(1).unwrap().status, MemoStatus::Hot));
}

#[test]
fn done_record_missing_completion_gets_now() {
    let records = vec![record(1, "a", "done", 10)];
    let loaded = MemoBoard::load_state(config(5), records, vec![], 777);
    let m = loaded.get_memo(1).unwrap();
    assert!(matches!(m.status, MemoStatus::Done));
    assert_eq!(m.moved_to_done_date, Some(777));
}

#[test]
fn stray_completion_on_non_done_record_is_dropped() {
    let mut rec = record(1, "a", "cold", 10);
    rec.moved_to_done_date = Some(42);
    let loaded = MemoBoard::load_state(config(5), vec![rec], vec![], 0);
    let m = loaded.get_memo(1).unwrap();
    assert!(matches!(m.status, MemoStatus::Cold));
    assert_eq!(m.moved_to_done_date, None);
}

#[test]
fn exported_record_carries_the_status_tag() {
    let mut b = MemoBoard::new(config(5));
    b.add_memo(1, "one".to_string(), String::new(), Some(15), 100);
    let records = b.export_records();
    assert_eq!(records.len(), 1);
    assert_eq!(records[0].status, "delayed");
    assert_eq!(records[0].delay_minutes, Some(15));
    assert_eq!(records[0].creation_date, 100);
}
