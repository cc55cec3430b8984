use ipv6_shortener::app::{IPv6ShortenApp, InputChunkBuffer, OutputMsg};
use ipv6_shortener::error::Error;

#[test]
fn new_buffer_is_empty() {
    let b = InputChunkBuffer::new();
    assert_eq!(b.len(), 0);
    assert_eq!(b.as_str(), "");
}

#[test]
fn insert_text_accepts_hex_digits() {
    let mut b = InputChunkBuffer::new();
    let n = b.insert_text("2001", 0);
    assert_eq!(n, 4);
    assert_eq!(b.as_str(), "2001");
}

#[test]
fn insert_text_rejects_non_hex() {
    let mut b = InputChunkBuffer::new();
    let n = b.insert_text("xyz!", 0);
    assert_eq!(n, 0);
    assert_eq!(b.as_str(), "");
}

#[test]
fn insert_text_skips_non_hex_and_keeps_hex() {
    let mut b = InputChunkBuffer::new();
    let n = b.insert_text("g1h2", 0);
    assert_eq!(n, 2);
    assert_eq!(b.as_str(), "12");
}

#[test]
fn insert_text_keeps_last_digits_when_over_capacity() {
    let mut b = InputChunkBuffer::new();
    // typed from the end backwards, the buffer fills with the last four
    let n = b.insert_text("12345", 0);
    assert_eq!(n, 4);
    assert_eq!(b.as_str(), "2345");
}

#[test]
fn insert_text_into_partly_filled_buffer() {
    let mut b = InputChunkBuffer::new();
    b.insert_text("ab", 0);
    let n = b.insert_text("cd", 1);
    assert_eq!(n, 2);
    assert_eq!(b.as_str(), "acdb");
}

#[test]
fn insert_text_into_full_buffer_adds_nothing() {
    let mut b = InputChunkBuffer::new();
    b.insert_text("abcd", 0);
    let n = b.insert_text("9", 2);
    assert_eq!(n, 0);
    assert_eq!(b.as_str(), "abcd");
}

#[test]
fn delete_char_range_removes_middle() {
    let mut b = InputChunkBuffer::new();
    b.insert_text("abcd", 0);
    b.delete_char_range(1, 3);
    assert_eq!(b.as_str(), "ad");
}

#[test]
fn delete_char_range_clamps_to_length() {
    let mut b = InputChunkBuffer::new();
    b.insert_text("ab", 0);
    b.delete_char_range(1, 9);
    assert_eq!(b.as_str(), "a");
}

#[test]
fn output_message_updates() {
    let mut m = OutputMsg::new();
    assert_eq!(m.as_str(), "");
    m.update(String::from("hello"));
    assert_eq!(m.as_str(), "hello");
}

#[test]
fn error_carries_position_and_message() {
    let e = Error::InvalidGroupLength(3);
    assert_eq!(e.position(), 3);
    assert_eq!(e.message(), "Required 4 characters at input box '3'");
}

#[test]
fn new_app_has_empty_output() {
    let app = IPv6ShortenApp::new();
    assert_eq!(app.output_str(), "");
}

#[test]
fn validate_accepts_empty_and_full_groups() {
    let mut app = IPv6ShortenApp::new();
    app.insert_input_text(0, "2001", 0);
    app.insert_input_text(7, "0001", 0);
    assert!(app.validate_input().is_ok());
}

#[test]
fn validate_reports_first_short_group() {
    let mut app = IPv6ShortenApp::new();
    app.insert_input_text(2, "abc", 0);
    match app.validate_input() {
        Err(Error::InvalidGroupLength(p)) => assert_eq!(p, 3),
        Ok(()) => panic!("expected a validation error"),
    }
}

#[test]
fn validate_reports_one_and_two_character_groups() {
    let mut app = IPv6ShortenApp::new();
    app.insert_input_text(5, "f", 0);
    match app.validate_input() {
        Err(Error::InvalidGroupLength(p)) => assert_eq!(p, 6),
        Ok(()) => panic!("expected a validation error"),
    }
    let mut app2 = IPv6ShortenApp::new();
    app2.insert_input_text(0, "ff", 0);
    match app2.validate_input() {
        Err(Error::InvalidGroupLength(p)) => assert_eq!(p, 1),
        Ok(()) => panic!("expected a validation error"),
    }
}

#[test]
fn validate_reports_leftmost_offender() {
    let mut app = IPv6ShortenApp::new();
    app.insert_input_text(4, "a", 0);
    app.insert_input_text(6, "bb", 0);
    match app.validate_input() {
        Err(Error::InvalidGroupLength(p)) => assert_eq!(p, 5),
        Ok(()) => panic!("expected a validation error"),
    }
}

#[test]
fn button_action_writes_result() {
    let mut app = IPv6ShortenApp::new();
    app.insert_input_text(0, "2001", 0);
    app.insert_input_text(1, "0db8", 0);
    app.insert_input_text(7, "0001", 0);
    app.shorten_button_action();
    assert_eq!(app.output_str(), "Result: 2001:db8::1");
}

#[test]
fn button_action_on_fresh_app_gives_double_colon() {
    let mut app = IPv6ShortenApp::new();
    app.shorten_button_action();
    assert_eq!(app.output_str(), "Result: ::");
}

#[test]
fn button_action_reports_invalid_group() {
    let mut app = IPv6ShortenApp::new();
    app.insert_input_text(2, "abc", 0);
    app.shorten_button_action();
    assert_eq!(app.output_str(), "Required 4 characters at input box '3'");
}
