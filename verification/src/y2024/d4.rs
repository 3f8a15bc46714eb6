//! Ceres Search: counting words in a letter grid.

use vstd::prelude::*;
use crate::multi_line_parser::MultiLineParser;
use crate::text::u64_to_string;

verus! {

/// How often the word search holds `XMAS`, counting every direction from
/// every cell.
pub fn part1(input: String) -> String {
    let mut parser = parse_input(input);
    let mut sum: u64 = 0;
    while !parser.is_done()
        invariant
            parser.wf(),
            parser.rows_wf(),
        decreases
            parser.rows().len() - parser.ln(),
            (if parser.positioned() {
                parser.rows()[parser.ln()].len() - parser.col()
            } else {
                0int
            }),
    {
        proof {
            reveal_with_fuel(crate::multi_line_parser::advance_spec, 3);
        }
        let found = parser.word_count("XMAS");
        sum = sum.saturating_add(found.len() as u64);
        parser.pop();
    }
    u64_to_string(sum)
}

/// How many cells anchor two crossing diagonal `MAS` words, either of them
/// possibly reversed.
pub fn part2(input: String) -> String {
    let mut parser = parse_input(input);
    let mut sum: u64 = 0;
    while !parser.is_done()
        invariant
            parser.wf(),
            parser.rows_wf(),
        decreases
            parser.rows().len() - parser.ln(),
            (if parser.positioned() {
                parser.rows()[parser.ln()].len() - parser.col()
            } else {
                0int
            }),
    {
        proof {
            reveal_with_fuel(crate::multi_line_parser::advance_spec, 3);
        }
        if parser.diagonal_x_exists_in_any_order("MAS") {
            sum = sum.saturating_add(1);
        }
        parser.pop();
    }
    u64_to_string(sum)
}

/// The word-search grid.
fn parse_input(input: String) -> (r: MultiLineParser)
    ensures
        r.wf(),
        r.rows_wf(),
{
    MultiLineParser::new(input.as_str())
}

} // verus!
