use memo_stack::board::MemoBoard;
use memo_stack::models::Config;
use memo_stack::models::MemoStatus;

fn board() -> MemoBoard {
    MemoBoard::new(Config { max_hot_count: 10, cold_spotlight_interval_seconds: 60 })
}

fn add_cold(b: &mut MemoBoard, id: i32, title: &str, body: &str, created: u64) {
    b.add_memo(id, title.to_string(), body.to_string(), None, created);
    b.move_to_cold(id);
}

#[test]
fn search_is_case_insensitive_and_newest_first() {
    let mut b = board();
    add_cold(&mut b, 1, "Buy milk", "", 100);
    add_cold(&mut b, 2, "Buy bread", "", 200);
    let hits = b.get_filtered_memos(MemoStatus::Cold, "buy");
    assert_eq!(hits.len(), 2);
    assert_eq!(hits[0].title, "Buy bread");
    assert_eq!(hits[1].title, "Buy milk");
}

#[test]
fn search_lowercases_the_search_text_too() {
    let mut b = board();
    add_cold(&mut b, 1, "buy milk", "", 100);
    let hits = b.get_filtered_memos(MemoStatus::Cold, "BUY");
    assert_eq!(hits.len(), 1);
    assert_eq!(hits[0].id, 1);
}

#[test]
fn search_looks_into_the_body() {
    let mut b = board();
    add_cold(&mut b, 1, "errands", "pick up the Laundry", 100);
    add_cold(&mut b, 2, "other", "nothing here", 200);
    let hits = b.get_filtered_memos(MemoStatus::Cold, "laundry");
    assert_eq!(hits.len(), 1);
    assert_eq!(hits[0].id, 1);
}

#[test]
fn empty_and_whitespace_searches_match_everything() {
    let mut b = board();
    add_cold(&mut b, 1, "alpha", "", 100);
    add_cold(&mut b, 2, "beta", "", 200);
    assert_eq!(b.get_filtered_memos(MemoStatus::Cold, "").len(), 2);
    assert_eq!(b.get_filtered_memos(MemoStatus::Cold, "   ").len(), 2);
}

#[test]
fn unmatched_search_returns_nothing() {
    let mut b = board();
    add_cold(&mut b, 1, "alpha", "", 100);
    assert!(b.get_filtered_memos(MemoStatus::Cold, "zulu").is_empty());
}

#[test]
fn filter_is_status_exact() {
    let mut b = board();
    b.add_memo(1, "hot one".to_string(), String::new(), None, 100);
    add_cold(&mut b, 2, "cold one", "", 200);
    let cold = b.get_filtered_memos(MemoStatus::Cold, "one");
    assert_eq!(cold.len(), 1);
    assert_eq!(cold[0].id, 2);
    let hot = b.get_filtered_memos(MemoStatus::Hot, "one");
    assert_eq!(hot.len(), 1);
    assert_eq!(hot[0].id, 1);
}

#[test]
fn done_results_order_by_completion_descending() {
    let mut b = board();
    b.add_memo(1, "a".to_string(), String::new(), None, 100);
    b.add_memo(2, "b".to_string(), String::new(), None, 110);
    b.add_memo(3, "c".to_string(), String::new(), None, 120);
    b.move_to_done(1, 500);
    b.move_to_done(2, 900);
    b.move_to_done(3, 700);
    let done = b.get_filtered_memos(MemoStatus::Done, "");
    let ids: Vec<i32> = done.iter().map(|m| m.id).collect();
    assert_eq!(ids, vec![2, 3, 1]);
}

#[test]
fn cold_results_order_by_creation_descending() {
    let mut b = board();
    add_cold(&mut b, 1, "one", "", 300);
    add_cold(&mut b, 2, "two", "", 100);
    add_cold(&mut b, 3, "three", "", 200);
    let cold = b.get_filtered_memos(MemoStatus::Cold, "");
    let ids: Vec<i32> = cold.iter().map(|m| m.id).collect();
    assert_eq!(ids, vec![1, 3, 2]);
}
