use aoc::Direction;
use aoc::MultiLineParser;
use aoc::CharIndex;

#[test]
fn multi_line_parser_test_peek() {
    let parser = MultiLineParser::new("hello\nworld");
    assert_eq!(parser.peek(), Some(&'h'));
}

#[test]
fn test_peek_at() {
    let parser = MultiLineParser::new("hello\nworld");
    assert_eq!(parser.peek_at(1, 1), Some(&'o'));
}

#[test]
fn test_pop() {
    let mut parser = MultiLineParser::new("he\nllo");
    assert_eq!(parser.pop(), Some('h'));
    assert_eq!(parser.pop(), Some('e'));
    assert_eq!(parser.pop(), Some('l'));
    assert_eq!(parser.pop(), Some('l'));
    assert_eq!(parser.pop(), Some('o'));
    assert_eq!(parser.pop(), None);
}

#[test]
fn multi_line_parser_test_advance() {
    let mut parser = MultiLineParser::new("hello\nworld");
    parser.advance(5);
    assert_eq!(parser.peek(), Some(&'w'));
}

#[test]
fn test_is_done() {
    let mut parser = MultiLineParser::new("hello\nworld");
    parser.advance(15);
    println!("{:?}", parser);
    assert_eq!(parser.is_done(), true);
}

#[test]
fn test_peek_with_direction() {
    let parser = MultiLineParser::new("hello\nworld");
    assert_eq!(parser.peek_with_direction(2, &Direction::Down), Some("hw".to_string()));
    assert_eq!(parser.peek_with_direction(2, &Direction::Up), None);
    assert_eq!(parser.peek_with_direction(5, &Direction::Right), Some("hello".to_string()));
}

#[test]
fn test_word_count() {
    let parser = MultiLineParser::new("hello\nworld");
    assert_eq!(parser.word_count("hello"), vec![Direction::Right]);
    assert_eq!(parser.word_count("hw"), vec![Direction::Down]);
}

#[test]
fn test_diagonal_x_exists() {
    let mut parser = MultiLineParser::new("hello\nworld");
    assert_eq!(parser.diagonal_x_exists(vec!["ho", "ew"]), true);
    assert_eq!(parser.diagonal_x_exists(vec!["ho", "wo"]), false);
}

#[test]
fn test_first_step_of_directional_peek_is_current_cell() {
    let parser = MultiLineParser::new("ab\ncd");
    let here = parser.peek().copied().map(|c| c.to_string());
    assert_eq!(parser.peek_with_direction(1, &Direction::Right), here);
    assert_eq!(parser.peek_with_direction(1, &Direction::Up), here);
    assert_eq!(parser.peek_with_direction(1, &Direction::DownLeft), here);
}

#[test]
fn test_direction_opposite_and_turns() {
    let all = Direction::values_8();
    for d in all {
        assert_eq!(d.opposite().opposite(), d);
    }
    for d in Direction::values_4() {
        assert_eq!(d.next_4().next_4().next_4().next_4(), d);
    }
    assert_eq!(Direction::Right.delta(), (0, 1));
    assert_eq!(Direction::LeftUp.delta(), (-1, -1));
}

#[test]
fn test_grid_round_trip() {
    let parser = MultiLineParser::new("\nhello\n\nworld\n");
    assert_eq!(parser.to_text(), "hello\nworld");
    let same = MultiLineParser::new("hello\nworld");
    assert_eq!(same.to_text(), "hello\nworld");
}

#[test]
fn test_grid_pop_crosses_rows() {
    let mut parser = MultiLineParser::new("hello\nworld");
    for _ in 0..4 {
        parser.pop();
    }
    assert_eq!(parser.pop(), Some('o'));
    assert_eq!(parser.point(), (1, 0));
    assert_eq!(parser.peek(), Some(&'w'));
}

#[test]
fn test_grid_advance_to_substring() {
    let mut parser = MultiLineParser::new("abc\nxbcd");
    assert_eq!(parser.advance_to("bc"), true);
    assert_eq!(parser.point(), (0, 1));
    parser.advance(2);
    assert_eq!(parser.advance_to("bcd"), true);
    assert_eq!(parser.point(), (1, 1));
    assert_eq!(parser.advance_to("zz"), false);
    assert_eq!(parser.point(), (1, 1));
}

#[test]
fn test_grid_advance_to_with_direction() {
    let mut parser = MultiLineParser::new("a.#\nbcd");
    assert_eq!(parser.advance_to_with_direction('#', &Direction::Right), true);
    assert_eq!(parser.point(), (0, 1));
    let mut off = MultiLineParser::new("abc\ndef");
    assert_eq!(off.advance_to_with_direction('#', &Direction::Down), false);
    assert_eq!(off.point(), (1, 0));
}

#[test]
fn test_grid_set_and_fill() {
    let mut parser = MultiLineParser::new("ab\ncd");
    parser.set('x');
    assert_eq!(parser.peek(), Some(&'x'));
    parser.fill('z', (0, 0), (1, 1));
    assert_eq!(parser.count_chars('z'), 4);
    assert_eq!(parser.to_text(), "zz\nzz");
}

#[test]
fn test_grid_go_to_and_reset() {
    let mut parser = MultiLineParser::new("ab\ncd");
    parser.go_to((1, 1));
    assert_eq!(parser.peek(), Some(&'d'));
    parser.reset();
    assert_eq!(parser.point(), (0, 0));
}

#[test]
fn test_split_to_numbers() {
    let parser = MultiLineParser::new("1|2\n30|4");
    let rows = parser.split_to_numbers("|");
    assert_eq!(rows, vec![vec![1, 2], vec![30, 4]]);
}

#[test]
fn test_split_to_numbers_signed() {
    let parser = MultiLineParser::new("-2|+7\n5|-30");
    let rows = parser.split_to_numbers("|");
    assert_eq!(rows, vec![vec![-2, 7], vec![5, -30]]);
}

#[test]
fn test_clone_is_deep() {
    let parser = MultiLineParser::new("ab\ncd");
    let mut copy = parser.clone();
    copy.set('x');
    assert_eq!(copy.peek(), Some(&'x'));
    assert_eq!(parser.peek(), Some(&'a'));
}

#[test]
fn test_char_index_counts_match() {
    let mut parser = MultiLineParser::new("aba\nbab");
    let index = CharIndex::create(&mut parser);
    let a_positions = index.get('a').unwrap();
    assert_eq!(a_positions, &vec![(0, 0), (0, 2), (1, 1)]);
    assert_eq!(parser.count_chars('a'), a_positions.len());
    let b_positions = index.get('b').unwrap();
    assert_eq!(parser.count_chars('b'), b_positions.len());
    assert_eq!(index.get('z'), None);
}

#[test]
fn test_char_index_remove() {
    let mut parser = MultiLineParser::new("a.b");
    let mut index = CharIndex::create(&mut parser);
    assert!(index.get('.').is_some());
    index.remove('.');
    assert_eq!(index.get('.'), None);
    assert!(index.get('a').is_some());
    assert!(index.get('b').is_some());
}

#[test]
fn test_submission_message_extracts_main() {
    let html = "<html><body><p>noise</p><main>That's the right answer!  \n</main></body></html>";
    let msg = aoc::submission::submission_message(html);
    assert_eq!(msg, Some("That's the right answer!.".to_string()));
    assert_eq!(aoc::submission::submission_message("<p>no main here</p>"), None);
}

#[test]
fn test_finish_submission_text() {
    assert_eq!(aoc::submission::finish_submission_text("done \t\n"), "done.");
    assert_eq!(aoc::submission::finish_submission_text(""), ".");
}

#[test]
fn test_ragged_rows_peek() {
    let parser = MultiLineParser::new("abc\nd");
    assert_eq!(parser.peek_at(1, 0), Some(&'d'));
    assert_eq!(parser.peek_at(1, 1), None);
    assert_eq!(parser.peek_at(-1, 0), None);
}
