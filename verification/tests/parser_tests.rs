use aoc::Parser;

#[test]
fn parser_test_peek() {
    let parser = Parser::new("hello");
    assert_eq!(parser.peek(), Some(&'h'));
}

#[test]
fn parser_test_advance() {
    let mut parser = Parser::new("hello");
    assert_eq!(parser.pop(), Some('h'));
    assert_eq!(parser.cursor(), 1);
}

#[test]
fn test_advance_to() {
    let mut parser = Parser::new("hello");
    assert_eq!(parser.advance_to("ll"), true);
    assert_eq!(parser.cursor(), 4);
    assert_eq!(parser.advance_to("ll"), false);
}

#[test]
fn test_advnace() {
    let mut parser = Parser::new("hello");
    parser.advance(3);
    assert_eq!(parser.cursor(), 3);
}

#[test]
fn test_match_number() {
    let mut parser = Parser::new("asd123hello");
    parser.advance(3);
    assert_eq!(parser.match_number(), Some(123));
    assert_eq!(parser.cursor(), 6);
}

#[test]
fn test_match_number_up_to() {
    let mut parser = Parser::new("asd123hello");
    parser.advance(3);
    assert_eq!(parser.match_number_up_to('h'), Some(123));
    assert_eq!(parser.cursor(), 7);
}

#[test]
fn test_ignore_between() {
    let mut parser = Parser::new("hello[world]goodbye[world]");
    assert_eq!(parser.delete_between("[", "]"), "hellogoodbye");
}

#[test]
fn test_new_scanner_cursor_and_done() {
    let empty = Parser::new("");
    assert_eq!(empty.cursor(), 0);
    assert!(empty.is_done());
    let nonempty = Parser::new("a");
    assert_eq!(nonempty.cursor(), 0);
    assert!(!nonempty.is_done());
}

#[test]
fn test_peek_is_idempotent() {
    let parser = Parser::new("xy");
    let first = parser.peek().copied();
    let second = parser.peek().copied();
    assert_eq!(first, second);
    assert_eq!(parser.cursor(), 0);
}

#[test]
fn test_pop_yields_text_in_order() {
    let mut parser = Parser::new("abc");
    let mut seen = String::new();
    for _ in 0.."abc".len() {
        seen.push(parser.pop().unwrap());
    }
    assert_eq!(seen, "abc");
    assert_eq!(parser.pop(), None);
    assert!(parser.is_done());
}

#[test]
fn test_advance_to_miss_consumes_rest() {
    let mut parser = Parser::new("hello");
    assert_eq!(parser.advance_to("xyz"), false);
    assert_eq!(parser.cursor(), 5);
    assert!(parser.is_done());
}

#[test]
fn test_match_number_absent_on_non_digit() {
    let mut parser = Parser::new("abc");
    assert_eq!(parser.match_number(), None);
    assert_eq!(parser.cursor(), 0);
}

#[test]
fn test_match_number_up_to_mismatch_consumes_digits() {
    let mut parser = Parser::new("12x");
    assert_eq!(parser.match_number_up_to(','), None);
    assert_eq!(parser.cursor(), 2);
}

#[test]
fn test_peek_at_beyond_end() {
    let parser = Parser::new("ab");
    assert_eq!(parser.peek_at(0), Some(&'a'));
    assert_eq!(parser.peek_at(1), Some(&'b'));
    assert_eq!(parser.peek_at(2), None);
}

#[test]
fn test_reset_rewinds() {
    let mut parser = Parser::new("ab");
    parser.advance(2);
    assert!(parser.is_done());
    parser.reset();
    assert_eq!(parser.cursor(), 0);
    assert_eq!(parser.peek(), Some(&'a'));
}

#[test]
fn test_delete_between_unmatched_open() {
    let mut parser = Parser::new("keep[rest");
    assert_eq!(parser.delete_between("[", "]"), "keep");
    assert!(parser.is_done());
}

#[test]
fn test_delete_between_keeps_tail() {
    let mut parser = Parser::new("a[x]b");
    assert_eq!(parser.delete_between("[", "]"), "ab");
    assert!(parser.is_done());
}

#[test]
fn test_delete_between_without_open_keeps_all() {
    let mut parser = Parser::new("hello");
    assert_eq!(parser.delete_between("[", "]"), "hello");
    assert!(parser.is_done());
}
