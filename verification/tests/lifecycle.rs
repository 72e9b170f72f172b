use memo_stack::board::MemoBoard;
use memo_stack::models::Config;
use memo_stack::models::MemoStatus;

fn board(max_hot: usize) -> MemoBoard {
    MemoBoard::new(Config { max_hot_count: max_hot, cold_spotlight_interval_seconds: 60 })
}

#[test]
fn capture_goes_to_stack_front() {
    let mut b = board(5);
    b.add_memo(1, "first".to_string(), String::new(), None, 100);
    b.add_memo(2, "second".to_string(), String::new(), None, 101);
    assert_eq!(b.hot_stack_ids().as_slice(), &[2, 1]);
    let m = b.get_memo(1).unwrap();
    assert!(matches!(m.status, MemoStatus::Hot));
    assert_eq!(m.creation_date, 100);
    assert_eq!(m.moved_to_done_date, None);
    assert_eq!(m.delay_minutes, None);
    assert!(!m.expanded);
}

#[test]
fn capture_three_with_capacity_two_archives_first() {
    let mut b = board(2);
    b.add_memo(1, "A".to_string(), String::new(), None, 10);
    b.add_memo(2, "B".to_string(), String::new(), None, 11);
    b.add_memo(3, "C".to_string(), String::new(), None, 12);
    assert_eq!(b.hot_stack_ids().as_slice(), &[3, 2]);
    assert!(matches!(b.get_memo(1).unwrap().status, MemoStatus::Cold));
    assert!(matches!(b.get_memo(2).unwrap().status, MemoStatus::Hot));
    assert!(matches!(b.get_memo(3).unwrap().status, MemoStatus::Hot));
}

#[test]
fn eviction_is_deterministic_one_archived() {
    let mut b = board(3);
    for id in 1..=4 {
        b.add_memo(id, format!("memo {}", id), String::new(), None, 100 + id as u64);
    }
    assert_eq!(b.hot_stack_ids().as_slice(), &[4, 3, 2]);
    let mut cold = 0;
    for id in 1..=4 {
        if matches!(b.get_memo(id).unwrap().status, MemoStatus::Cold) {
            cold += 1;
            assert_eq!(id, 1);
        }
    }
    assert_eq!(cold, 1);
}

#[test]
fn capacity_never_exceeded() {
    let mut b = board(3);
    for id in 1..=10 {
        b.add_memo(id, format!("memo {}", id), String::new(), None, id as u64);
        assert!(b.hot_stack_ids().len() <= 3);
    }
    for id in 1..=10 {
        b.move_to_hot(id);
        assert!(b.hot_stack_ids().len() <= 3);
    }
}

#[test]
fn capacity_zero_archives_immediately() {
    let mut b = board(0);
    b.add_memo(1, "A".to_string(), String::new(), None, 5);
    assert!(b.hot_stack_ids().is_empty());
    assert!(matches!(b.get_memo(1).unwrap().status, MemoStatus::Cold));
}

#[test]
fn complete_then_promote_round() {
    let mut b = board(5);
    b.add_memo(1, "task".to_string(), String::new(), None, 50);
    b.move_to_done(1, 70);
    assert!(!b.hot_stack_ids().contains(&1));
    {
        let m = b.get_memo(1).unwrap();
        assert!(matches!(m.status, MemoStatus::Done));
        assert_eq!(m.moved_to_done_date, Some(70));
    }
    b.move_to_hot(1);
    let m = b.get_memo(1).unwrap();
    assert!(matches!(m.status, MemoStatus::Hot));
    assert_eq!(m.moved_to_done_date, None);
    assert_eq!(b.hot_stack_ids().as_slice(), &[1]);
}

#[test]
fn archive_clears_completion_time() {
    let mut b = board(5);
    b.add_memo(1, "task".to_string(), String::new(), None, 50);
    b.move_to_done(1, 70);
    b.move_to_cold(1);
    let m = b.get_memo(1).unwrap();
    assert!(matches!(m.status, MemoStatus::Cold));
    assert_eq!(m.moved_to_done_date, None);
}

#[test]
fn delayed_capture_and_promotion_timing() {
    let mut b = board(5);
    let t0: u64 = 1_000;
    b.add_memo(1, "later".to_string(), String::new(), Some(30), t0);
    assert!(matches!(b.get_memo(1).unwrap().status, MemoStatus::Delayed));
    assert_eq!(b.get_memo(1).unwrap().delay_minutes, Some(30));
    assert!(b.hot_stack_ids().is_empty());

    b.check_and_promote_delayed_memos(t0 + 30 * 60 - 1);
    assert!(matches!(b.get_memo(1).unwrap().status, MemoStatus::Delayed));
    assert!(b.hot_stack_ids().is_empty());

    b.check_and_promote_delayed_memos(t0 + 30 * 60);
    assert!(matches!(b.get_memo(1).unwrap().status, MemoStatus::Hot));
    assert_eq!(b.hot_stack_ids().as_slice(), &[1]);
}

#[test]
fn zero_delay_captures_hot() {
    let mut b = board(5);
    b.add_memo(1, "now".to_string(), String::new(), Some(0), 10);
    let m = b.get_memo(1).unwrap();
    assert!(matches!(m.status, MemoStatus::Hot));
    assert_eq!(m.delay_minutes, None);
    assert_eq!(b.hot_stack_ids().as_slice(), &[1]);
}

#[test]
fn delayed_batch_promotes_all_due() {
    let mut b = board(5);
    b.add_memo(1, "a".to_string(), String::new(), Some(10), 0);
    b.add_memo(2, "b".to_string(), String::new(), Some(20), 0);
    b.add_memo(3, "c".to_string(), String::new(), Some(30), 0);
    b.check_and_promote_delayed_memos(20 * 60);
    assert!(matches!(b.get_memo(1).unwrap().status, MemoStatus::Hot));
    assert!(matches!(b.get_memo(2).unwrap().status, MemoStatus::Hot));
    assert!(matches!(b.get_memo(3).unwrap().status, MemoStatus::Delayed));
    assert_eq!(b.hot_stack_ids().as_slice(), &[2, 1]);
}

#[test]
fn shift_up_swaps_with_predecessor() {
    let mut b = board(5);
    b.add_memo(1, "a".to_string(), String::new(), None, 1);
    b.add_memo(2, "b".to_string(), String::new(), None, 2);
    b.add_memo(3, "c".to_string(), String::new(), None, 3);
    assert_eq!(b.hot_stack_ids().as_slice(), &[3, 2, 1]);
    b.shift_up_in_hot(1);
    assert_eq!(b.hot_stack_ids().as_slice(), &[3, 1, 2]);
}

#[test]
fn shift_up_at_front_is_a_no_op() {
    let mut b = board(5);
    b.add_memo(1, "a".to_string(), String::new(), None, 1);
    b.add_memo(2, "b".to_string(), String::new(), None, 2);
    b.shift_up_in_hot(2);
    assert_eq!(b.hot_stack_ids().as_slice(), &[2, 1]);
    b.shift_up_in_hot(99);
    assert_eq!(b.hot_stack_ids().as_slice(), &[2, 1]);
}

#[test]
fn move_to_top_reorders_without_eviction() {
    let mut b = board(3);
    b.add_memo(1, "a".to_string(), String::new(), None, 1);
    b.add_memo(2, "b".to_string(), String::new(), None, 2);
    b.add_memo(3, "c".to_string(), String::new(), None, 3);
    b.move_to_top_in_hot(1);
    assert_eq!(b.hot_stack_ids().as_slice(), &[1, 3, 2]);
    for id in 1..=3 {
        assert!(matches!(b.get_memo(id).unwrap().status, MemoStatus::Hot));
    }
}

#[test]
fn move_to_top_at_front_is_a_no_op() {
    let mut b = board(5);
    b.add_memo(1, "a".to_string(), String::new(), None, 1);
    b.add_memo(2, "b".to_string(), String::new(), None, 2);
    b.move_to_top_in_hot(2);
    assert_eq!(b.hot_stack_ids().as_slice(), &[2, 1]);
    b.move_to_top_in_hot(99);
    assert_eq!(b.hot_stack_ids().as_slice(), &[2, 1]);
}

#[test]
fn delete_removes_everywhere() {
    let mut b = board(5);
    b.add_memo(1, "a".to_string(), String::new(), None, 1);
    b.add_memo(2, "b".to_string(), String::new(), None, 2);
    b.delete_memo(1);
    assert!(b.get_memo(1).is_none());
    assert_eq!(b.hot_stack_ids().as_slice(), &[2]);
    assert_eq!(b.memos_list().len(), 1);
}

#[test]
fn replace_returns_text_and_deletes() {
    let mut b = board(5);
    b.add_memo(1, "title".to_string(), "body".to_string(), None, 1);
    b.add_memo(2, "only title".to_string(), String::new(), None, 2);
    let text = b.replace_memo(1).unwrap();
    assert_eq!(text, "title\nbody");
    assert!(b.get_memo(1).is_none());
    let text2 = b.replace_memo(2).unwrap();
    assert_eq!(text2, "only title");
    assert!(b.replace_memo(42).is_none());
}

#[test]
fn completion_time_iff_done_throughout() {
    let mut b = board(2);
    b.add_memo(1, "a".to_string(), String::new(), None, 1);
    b.add_memo(2, "b".to_string(), "delayed".to_string(), Some(5), 2);
    b.move_to_done(1, 9);
    b.check_and_promote_delayed_memos(1_000);
    b.move_to_hot(1);
    b.move_to_cold(1);
    for m in b.memos_list() {
        assert_eq!(m.moved_to_done_date.is_some(), matches!(m.status, MemoStatus::Done));
    }
}
