//! Guard Gallivant: a guard's patrol, and the obstacles that trap it.

use vstd::prelude::*;
use crate::direction::Direction;
use crate::multi_line_parser::{lemma_grid_find_valid, MultiLineParser};
use crate::text::{mul_sat_u64, u64_to_string};

verus! {

/// A step budget that exceeds every possible distinct guard state: four
/// directions for every cell, with slack.
fn walk_budget(parser: &MultiLineParser) -> u64 {
    let n = parser.len();
    let mut total: u64 = 2;
    let mut i: usize = 0;
    while i < n
        invariant
            i <= n,
            n == parser.rows().len(),
        decreases n - i,
    {
        total = total.saturating_add(parser.row_chars(i).len() as u64);
        i = i + 1;
    }
    mul_sat_u64(total, 4).saturating_add(8)
}

/// Whether the axis-aligned rectangle spanned by `a` and `b` lies wholly
/// inside the grid.
fn rect_ok(parser: &MultiLineParser, a: (usize, usize), b: (usize, usize)) -> (r: bool)
    ensures
        r == ({
            let r1 = vstd::math::min(a.0 as int, b.0 as int);
            let r2 = vstd::math::max(a.0 as int, b.0 as int);
            let c2 = vstd::math::max(a.1 as int, b.1 as int);
            &&& r2 < parser.rows().len()
            &&& forall|i: int| r1 <= i <= r2 ==> c2 < (#[trigger] parser.rows()[i]).len()
        }),
{
    let r1 = if a.0 <= b.0 {
        a.0
    } else {
        b.0
    };
    let r2 = if a.0 <= b.0 {
        b.0
    } else {
        a.0
    };
    let c2 = if a.1 <= b.1 {
        b.1
    } else {
        a.1
    };
    let n = parser.len();
    if r2 >= n {
        return false;
    }
    let mut i = r1;
    loop
        invariant
            r1 <= i <= r2,
            r2 < n,
            n == parser.rows().len(),
            r1 == vstd::math::min(a.0 as int, b.0 as int),
            r2 == vstd::math::max(a.0 as int, b.0 as int),
            c2 == vstd::math::max(a.1 as int, b.1 as int),
            forall|k: int| r1 <= k < i ==> c2 < (#[trigger] parser.rows()[k]).len(),
        ensures
            forall|k: int| r1 <= k <= r2 ==> c2 < (#[trigger] parser.rows()[k]).len(),
        decreases r2 - i,
    {
        if parser.row_chars(i).len() <= c2 {
            proof {
                assert(!(c2 < parser.rows()[i as int].len()));
            }
            return false;
        }
        if i == r2 {
            break;
        }
        i = i + 1;
    }
    true
}

/// How many cells the guard visits before leaving the grid: the guard
/// starts at `^` facing up, walks straight, and turns right at each `#`.
pub fn part1(input: String) -> String {
    let mut parser = MultiLineParser::new(input.as_str());
    let ghost rows0 = parser.rows();
    proof {
        reveal_strlit("^");
        lemma_grid_find_valid(rows0, "^"@, 0, 0);
    }
    let found = parser.advance_to("^");
    if !found {
        return u64_to_string(0);
    }
    let mut cur = parser.point();
    let mut direction = Direction::Up;
    let mut fuel = walk_budget(&parser);
    while fuel > 0
        invariant
            parser.positioned(),
            parser.rows_wf(),
            direction.is_cardinal(),
        decreases fuel,
    {
        let hit = parser.advance_to_with_direction('#', &direction);
        if !hit {
            break;
        }
        direction = direction.next_4();
        let point = parser.point();
        if rect_ok(&parser, cur, point) {
            parser.fill('x', cur, point);
        }
        cur = point;
        fuel = fuel - 1;
    }
    let point = parser.point();
    if rect_ok(&parser, cur, point) {
        parser.fill('x', cur, point);
    }
    u64_to_string(parser.count_chars('x') as u64)
}

/// Whether a guard released at the cursor loops forever instead of leaving
/// the grid, measured against a budget that exceeds every acyclic walk.
fn does_obstacle_cause_cycle(parser: &mut MultiLineParser, budget: u64) -> (r: bool)
    requires
        old(parser).positioned(),
        old(parser).rows_wf(),
    ensures
        final(parser).rows() == old(parser).rows(),
{
    let mut direction = Direction::Up;
    let mut fuel = budget;
    while fuel > 0
        invariant
            parser.positioned(),
            parser.rows_wf(),
            parser.rows() == old(parser).rows(),
            direction.is_cardinal(),
        decreases fuel,
    {
        let hit = parser.advance_to_with_direction('#', &direction);
        if !hit {
            return false;
        }
        direction = direction.next_4();
        fuel = fuel - 1;
    }
    true
}

/// How many single extra obstacles along the guard's path would trap the
/// guard in a loop.
pub fn part2(input: String) -> String {
    let mut parser = MultiLineParser::new(input.as_str());
    let ghost rows0 = parser.rows();
    proof {
        reveal_strlit("^");
        lemma_grid_find_valid(rows0, "^"@, 0, 0);
    }
    let found = parser.advance_to("^");
    if !found {
        return u64_to_string(0);
    }
    let start = parser.point();
    let budget = walk_budget(&parser);
    let mut direction = Direction::Up;
    let mut previous_point = start;
    let mut paths: Vec<((usize, usize), (usize, usize))> = Vec::new();
    let mut fuel = budget;
    while fuel > 0
        invariant
            parser.positioned(),
            parser.rows_wf(),
            parser.rows() == rows0,
            direction.is_cardinal(),
        decreases fuel,
    {
        let hit = parser.advance_to_with_direction('#', &direction);
        if !hit {
            break;
        }
        direction = direction.next_4();
        let point = parser.point();
        paths.push((previous_point, point));
        previous_point = point;
        fuel = fuel - 1;
    }
    let final_point = parser.point();
    paths.push((previous_point, final_point));
    let mut found_points: Vec<(usize, usize)> = Vec::new();
    let mut pi: usize = 0;
    while pi < paths.len()
        invariant
            pi <= paths@.len(),
            parser.rows() == rows0,
            parser.rows_wf(),
        decreases paths@.len() - pi,
    {
        let (from, to) = paths[pi];
        let line_from = if from.0 <= to.0 {
            from.0
        } else {
            to.0
        };
        let line_to = if from.0 <= to.0 {
            to.0
        } else {
            from.0
        };
        let cursor_from = if from.1 <= to.1 {
            from.1
        } else {
            to.1
        };
        let cursor_to = if from.1 <= to.1 {
            to.1
        } else {
            from.1
        };
        let mut line = line_from;
        while line <= line_to
            invariant
                parser.rows() == rows0,
                parser.rows_wf(),
            decreases line_to - line,
        {
            let mut cursor = cursor_from;
            while cursor <= cursor_to
                invariant
                    parser.rows() == rows0,
                    parser.rows_wf(),
                decreases cursor_to - cursor,
            {
                if !(line == start.0 && cursor == start.1) {
                    let mut candidate = parser.clone();
                    candidate.go_to((line, cursor));
                    let on_cell = match candidate.peek() {
                        Option::Some(_) => true,
                        Option::None => false,
                    };
                    if on_cell {
                        candidate.set('#');
                        candidate.go_to(start);
                        let start_ok = match candidate.peek() {
                            Option::Some(_) => true,
                            Option::None => false,
                        };
                        if start_ok {
                            proof {
                                assert(candidate.positioned());
                            }
                            if does_obstacle_cause_cycle(&mut candidate, budget) {
                                if !contains_point(&found_points, (line, cursor)) {
                                    found_points.push((line, cursor));
                                }
                            }
                        }
                    }
                }
                if cursor == cursor_to {
                    break;
                }
                cursor = cursor + 1;
            }
            if line == line_to {
                break;
            }
            line = line + 1;
        }
        pi = pi + 1;
    }
    u64_to_string(found_points.len() as u64)
}

/// Whether `p` already stands in the list.
fn contains_point(points: &Vec<(usize, usize)>, p: (usize, usize)) -> bool {
    let n = points.len();
    let mut i: usize = 0;
    while i < n
        invariant
            i <= n,
            n == points@.len(),
        decreases n - i,
    {
        let q = points[i];
        if q.0 == p.0 && q.1 == p.1 {
            return true;
        }
        i = i + 1;
    }
    false
}

} // verus!
