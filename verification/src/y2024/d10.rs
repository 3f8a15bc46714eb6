//! Hoof It: scores and ratings of hiking trailheads.

use vstd::prelude::*;
use crate::char_index::{CharIndex, Point};
use crate::direction::Direction;
use crate::multi_line_parser::{cell, MultiLineParser};
use crate::text::{is_digit, is_digit_char, u64_to_string};

verus! {

/// The height under the cursor, or a sentinel past the top height when the
/// cursor rests on no digit cell.
pub open spec fn height_at(p: MultiLineParser) -> int {
    match cell(p.rows(), p.ln(), p.col()) {
        Option::Some(c) => if is_digit_char(c) {
            (c as u32) as int
        } else {
            58
        },
        Option::None => 58,
    }
}

/// Sum of the trailhead scores: how many distinct peaks each `0` cell can
/// reach by strictly climbing one height per step.
pub fn part1(input: String) -> String {
    let (mut parser, map) = parse_input(input.as_str());
    let starts = match map.get('0') {
        Option::Some(v) => v,
        Option::None => {
            return u64_to_string(0);
        },
    };
    let mut sum: u64 = 0;
    let mut i: usize = 0;
    while i < starts.len()
        invariant
            i <= starts@.len(),
            parser.wf(),
            parser.rows_wf(),
        decreases starts@.len() - i,
    {
        let p = starts[i];
        sum = sum.saturating_add(dfs(&mut parser, p, '9'));
        i = i + 1;
    }
    u64_to_string(sum)
}

/// Sum of the trailhead ratings: how many distinct climbing trails each
/// `0` cell begins.
pub fn part2(input: String) -> String {
    let (mut parser, map) = parse_input(input.as_str());
    let starts = match map.get('0') {
        Option::Some(v) => v,
        Option::None => {
            return u64_to_string(0);
        },
    };
    let mut sum: u64 = 0;
    let mut i: usize = 0;
    while i < starts.len()
        invariant
            i <= starts@.len(),
            parser.wf(),
            parser.rows_wf(),
        decreases starts@.len() - i,
    {
        let p = starts[i];
        sum = sum.saturating_add(dfs_part2(&mut parser, p, '9'));
        i = i + 1;
    }
    u64_to_string(sum)
}

/// The topographic map and its character index.
fn parse_input(input: &str) -> (r: (MultiLineParser, CharIndex))
    ensures
        r.0.wf(),
        r.0.rows_wf(),
{
    let mut parser = MultiLineParser::new(input);
    let map = CharIndex::create(&mut parser);
    (parser, map)
}

/// How many distinct cells holding `needle` the trails from `source` reach.
fn dfs(parser: &mut MultiLineParser, source: Point, needle: char) -> (r: u64)
    requires
        old(parser).wf(),
        old(parser).rows_wf(),
    ensures
        final(parser).wf(),
        final(parser).rows_wf(),
{
    parser.go_to(source);
    match parser.peek() {
        Option::Some(_) => {},
        Option::None => {
            parser.reset();
            return 0;
        },
    }
    let points = walk(parser, needle);
    parser.reset();
    count_distinct(&points)
}

/// How many distinct trails from `source` reach a cell holding `needle`.
fn dfs_part2(parser: &mut MultiLineParser, source: Point, needle: char) -> (r: u64)
    requires
        old(parser).wf(),
        old(parser).rows_wf(),
    ensures
        final(parser).wf(),
        final(parser).rows_wf(),
{
    parser.go_to(source);
    match parser.peek() {
        Option::Some(_) => {},
        Option::None => {
            parser.reset();
            return 0;
        },
    }
    let points = walk(parser, needle);
    parser.reset();
    points.len() as u64
}

/// The endpoints of every strictly climbing trail from the cursor to a
/// cell holding `needle`, one entry per trail.
fn walk(parser: &mut MultiLineParser, needle: char) -> (points: Vec<Point>)
    requires
        old(parser).positioned(),
        old(parser).rows_wf(),
    ensures
        final(parser).rows() == old(parser).rows(),
        final(parser).ln() == old(parser).ln(),
        final(parser).col() == old(parser).col(),
        final(parser).rows_wf(),
        final(parser).positioned(),
    decreases 58 - height_at(*old(parser)),
{
    let cur = match parser.peek() {
        Option::Some(c) => *c,
        Option::None => {
            return Vec::new();
        },
    };
    if cur == needle {
        let p = parser.point();
        return vec![p];
    }
    if !is_digit(cur) {
        return Vec::new();
    }
    let p0 = parser.point();
    let mut points: Vec<Point> = Vec::new();
    let dirs = Direction::values_4();
    let mut di: usize = 0;
    while di < dirs.len()
        invariant
            di <= dirs@.len(),
            parser.rows() == old(parser).rows(),
            parser.ln() == old(parser).ln(),
            parser.col() == old(parser).col(),
            parser.rows_wf(),
            parser.positioned(),
            p0.0 == parser.ln(),
            p0.1 == parser.col(),
            cell(parser.rows(), parser.ln(), parser.col()) == Some(cur),
            is_digit_char(cur),
            cur != needle,
        decreases dirs@.len() - di,
    {
        let d = dirs[di];
        let (dr, dc) = d.delta();
        let stepped = match parser.peek_next_with_direction(&d) {
            Option::Some(nc_ref) => {
                let nc = *nc_ref;
                if is_digit(nc) && (nc as u32) == (cur as u32) + 1 {
                    Some(nc)
                } else {
                    None
                }
            },
            Option::None => None,
        };
        match stepped {
            Option::Some(nc) => {
                let n = parser.len();
                proof {
                    assert(cell(
                        parser.rows(),
                        parser.ln() + d.spec_delta_row(),
                        parser.col() + d.spec_delta_col(),
                    ) == Some(nc));
                }
                let target_row = (p0.0 as i128 + dr as i128) as usize;
                let row_len = parser.row_chars(target_row).len();
                proof {
                    assert(parser.col() + d.spec_delta_col() < parser.rows()[target_row as int].len());
                }
                parser.advance_with_direction(1, &d);
                proof {
                    assert(parser.ln() == p0.0 + d.spec_delta_row());
                    assert(parser.col() == p0.1 + d.spec_delta_col());
                    assert(cell(parser.rows(), parser.ln(), parser.col()) == Some(nc));
                    assert(parser.positioned());
                    assert(height_at(*parser) == (nc as u32) as int);
                }
                let mut sub = walk(parser, needle);
                points.append(&mut sub);
                let opp = d.opposite();
                proof {
                    crate::direction::lemma_opposite_opposite(d);
                }
                parser.advance_with_direction(1, &opp);
            },
            Option::None => {},
        }
        di = di + 1;
    }
    points
}

/// How many distinct positions the list holds.
fn count_distinct(points: &Vec<Point>) -> u64 {
    let n = points.len();
    let mut count: u64 = 0;
    let mut i: usize = 0;
    while i < n
        invariant
            i <= n,
            n == points@.len(),
        decreases n - i,
    {
        let p = points[i];
        let mut seen = false;
        let mut j: usize = 0;
        while j < i
            invariant
                j <= i,
                i < n,
                n == points@.len(),
            decreases i - j,
        {
            let q = points[j];
            if q.0 == p.0 && q.1 == p.1 {
                seen = true;
            }
            j = j + 1;
        }
        if !seen {
            count = count.saturating_add(1);
        }
        i = i + 1;
    }
    count
}

} // verus!
