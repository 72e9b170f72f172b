use memo_stack::models::MemoStatus;
use memo_stack::text::adjust_delay_input;
use memo_stack::text::edit_text;
use memo_stack::text::parse_delay_input;
use memo_stack::text::parse_memo_text;

#[test]
fn delay_sentinel_means_no_delay() {
    assert_eq!(parse_delay_input("00:00"), None);
}

#[test]
fn delay_parses_hours_and_minutes() {
    assert_eq!(parse_delay_input("01:30"), Some(90));
    assert_eq!(parse_delay_input("00:05"), Some(5));
    assert_eq!(parse_delay_input("10:00"), Some(600));
}

#[test]
fn delay_minutes_may_exceed_sixty() {
    assert_eq!(parse_delay_input("1:75"), Some(135));
}

#[test]
fn delay_unpadded_zero_is_zero_minutes() {
    assert_eq!(parse_delay_input("0:00"), Some(0));
}

#[test]
fn delay_accepts_a_plus_sign() {
    assert_eq!(parse_delay_input("+5:10"), Some(310));
}

#[test]
fn delay_rejects_malformed_inputs() {
    assert_eq!(parse_delay_input(""), None);
    assert_eq!(parse_delay_input("abc"), None);
    assert_eq!(parse_delay_input("12"), None);
    assert_eq!(parse_delay_input("1:2:3"), None);
    assert_eq!(parse_delay_input("1:"), None);
    assert_eq!(parse_delay_input(":30"), None);
    assert_eq!(parse_delay_input("-1:30"), None);
    assert_eq!(parse_delay_input("1: 30"), None);
}

#[test]
fn delay_rejects_three_digit_fields() {
    assert_eq!(parse_delay_input("100:00"), None);
    assert_eq!(parse_delay_input("00:100"), None);
}

#[test]
fn adjust_moves_and_formats() {
    assert_eq!(adjust_delay_input("00:00", 5), "00:05");
    assert_eq!(adjust_delay_input("00:05", 60), "01:05");
    assert_eq!(adjust_delay_input("01:30", 45), "02:15");
}

#[test]
fn adjust_clamps_at_zero() {
    assert_eq!(adjust_delay_input("01:30", -200), "00:00");
}

#[test]
fn adjust_treats_malformed_as_zero() {
    assert_eq!(adjust_delay_input("abc", 10), "00:10");
}

#[test]
fn adjust_can_pass_two_digit_hours() {
    assert_eq!(adjust_delay_input("99:30", 60), "100:30");
}

#[test]
fn memo_text_splits_on_first_line_break() {
    let (title, body) = parse_memo_text("Title\nbody text");
    assert_eq!(title, "Title");
    assert_eq!(body, "body text");
}

#[test]
fn memo_text_is_trimmed() {
    let (title, body) = parse_memo_text("  Title  \n body text \n ");
    assert_eq!(title, "Title");
    assert_eq!(body, " body text");
}

#[test]
fn memo_text_without_break_has_empty_body() {
    let (title, body) = parse_memo_text("  just a title  ");
    assert_eq!(title, "just a title");
    assert_eq!(body, "");
}

#[test]
fn memo_text_keeps_later_breaks_in_body() {
    let (title, body) = parse_memo_text("t\nline one\nline two");
    assert_eq!(title, "t");
    assert_eq!(body, "line one\nline two");
}

#[test]
fn edit_text_joins_title_and_body() {
    assert_eq!(edit_text("title", "body"), "title\nbody");
    assert_eq!(edit_text("title", ""), "title");
}

#[test]
fn status_tags_decode() {
    assert!(matches!(MemoStatus::from_string("hot"), MemoStatus::Hot));
    assert!(matches!(MemoStatus::from_string("cold"), MemoStatus::Cold));
    assert!(matches!(MemoStatus::from_string("done"), MemoStatus::Done));
    assert!(matches!(MemoStatus::from_string("delayed"), MemoStatus::Delayed));
}

#[test]
fn unknown_status_tag_defaults_to_hot() {
    assert!(matches!(MemoStatus::from_string("archived"), MemoStatus::Hot));
    assert!(matches!(MemoStatus::from_string(""), MemoStatus::Hot));
}

#[test]
fn status_tags_round_trip() {
    for st in [MemoStatus::Hot, MemoStatus::Cold, MemoStatus::Done, MemoStatus::Delayed] {
        assert_eq!(MemoStatus::from_string(st.to_tag()), st);
    }
}
