use memo_stack::board::MemoBoard;
use memo_stack::models::Config;

fn board(interval: u64) -> MemoBoard {
    MemoBoard::new(Config { max_hot_count: 5, cold_spotlight_interval_seconds: interval })
}

#[test]
fn spotlight_picks_a_cold_memo() {
    let mut b = board(60);
    b.add_memo(1, "a".to_string(), String::new(), None, 1);
    b.add_memo(2, "b".to_string(), String::new(), None, 2);
    b.add_memo(3, "c".to_string(), String::new(), None, 3);
    b.move_to_cold(1);
    b.move_to_cold(2);
    b.update_cold_spotlight(1_000);
    let pick = b.current_spotlight_memo().unwrap();
    assert!(pick == 1 || pick == 2);
    assert_eq!(b.get_last_spotlight_update(), Some(1_000));
}

#[test]
fn spotlight_with_one_cold_memo_picks_it() {
    let mut b = board(60);
    b.add_memo(1, "a".to_string(), String::new(), None, 1);
    b.move_to_cold(1);
    b.update_cold_spotlight(5);
    assert_eq!(b.current_spotlight_memo(), Some(1));
}

#[test]
fn spotlight_without_cold_memos_picks_nothing() {
    let mut b = board(60);
    b.add_memo(1, "a".to_string(), String::new(), None, 1);
    b.update_cold_spotlight(5);
    assert_eq!(b.current_spotlight_memo(), None);
    assert_eq!(b.get_last_spotlight_update(), Some(5));
}

#[test]
fn spotlight_waits_out_the_interval() {
    let mut b = board(60);
    b.add_memo(1, "a".to_string(), String::new(), None, 1);
    b.move_to_cold(1);
    b.update_cold_spotlight(100);
    assert_eq!(b.current_spotlight_memo(), Some(1));
    b.add_memo(2, "b".to_string(), String::new(), None, 2);
    b.move_to_cold(2);
    b.delete_memo(1);
    b.update_cold_spotlight(159);
    assert_eq!(b.current_spotlight_memo(), Some(1));
    b.update_cold_spotlight(160);
    assert_eq!(b.current_spotlight_memo(), Some(2));
    assert_eq!(b.get_last_spotlight_update(), Some(160));
}

#[test]
fn spotlight_interval_zero_disables_the_feature() {
    let mut b = board(0);
    b.add_memo(1, "a".to_string(), String::new(), None, 1);
    b.move_to_cold(1);
    b.update_cold_spotlight(1_000);
    assert_eq!(b.current_spotlight_memo(), None);
    assert_eq!(b.get_last_spotlight_update(), None);
}
