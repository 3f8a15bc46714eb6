//! Resonant Collinearity: antinodes of antenna pairs.

use vstd::prelude::*;
use crate::char_index::CharIndex;
use crate::multi_line_parser::MultiLineParser;
use crate::text::u64_to_string;

verus! {

/// How many cells hold an antinode: for each pair of same-frequency
/// antennas, the two mirror points beyond either antenna.
pub fn part1(input: String) -> String {
    let mut parser = MultiLineParser::new(input.as_str());
    let mut map = CharIndex::create(&mut parser);
    map.remove('.');
    let mut antinodes = get_antinodes_from_map(&map, &parser);
    u64_to_string(antinodes.count_chars('#') as u64)
}

/// As `part1`, with every grid point in line with a pair an antinode.
pub fn part2(input: String) -> String {
    let mut parser = MultiLineParser::new(input.as_str());
    let mut map = CharIndex::create(&mut parser);
    map.remove('.');
    let mut antinodes = get_antinodes_from_map_part2(&map, &parser);
    u64_to_string(antinodes.count_chars('#') as u64)
}

/// Marks the cell at `(rr, cc)` when it lies inside the grid.
fn mark_cell(grid: &mut MultiLineParser, rr: i128, cc: i128)
    ensures
        final(grid).rows().len() == old(grid).rows().len(),
        forall|i: int|
            0 <= i < old(grid).rows().len() ==> (#[trigger] final(grid).rows()[i]).len() == old(
                grid,
            ).rows()[i].len(),
{
    if rr < 0 || cc < 0 {
        return ;
    }
    let max = usize::MAX;
    if rr > max as i128 || cc > max as i128 {
        return ;
    }
    grid.go_to((rr as usize, cc as usize));
    let on_cell = match grid.peek() {
        Option::Some(_) => true,
        Option::None => false,
    };
    if on_cell {
        let ghost rows1 = grid.rows();
        grid.set('#');
        proof {
            assert forall|i: int| 0 <= i < grid.rows().len() implies (#[trigger] grid.rows()[i]).len()
                == rows1[i].len() by {}
        }
    }
}

/// A copy of the grid with the two mirror antinodes of every antenna pair
/// marked.
fn get_antinodes_from_map(map: &CharIndex, parser: &MultiLineParser) -> MultiLineParser {
    let mut new_parser = parser.clone();
    let entries = map.entries_len();
    let mut e: usize = 0;
    while e < entries
        invariant
            e <= entries,
            entries == map.entries_seq().len(),
        decreases entries - e,
    {
        let entry = map.entry_at(e);
        let points = &entry.1;
        let n = points.len();
        let mut i: usize = 0;
        while i < n
            invariant
                i <= n,
                n == points@.len(),
            decreases n - i,
        {
            let mut j = i + 1;
            while j < n
                invariant
                    i < j,
                    j <= n,
                    n == points@.len(),
                    i < n,
                decreases n - j,
            {
                let p = points[i];
                let q = points[j];
                let pr = p.0 as i128;
                let pc = p.1 as i128;
                let qr = q.0 as i128;
                let qc = q.1 as i128;
                mark_cell(&mut new_parser, 2 * pr - qr, 2 * pc - qc);
                mark_cell(&mut new_parser, 2 * qr - pr, 2 * qc - pc);
                j = j + 1;
            }
            i = i + 1;
        }
        e = e + 1;
    }
    new_parser
}

/// A step budget wider than either grid dimension.
fn line_budget(parser: &MultiLineParser) -> u64 {
    let n = parser.len();
    let mut widest: u64 = 0;
    let mut i: usize = 0;
    while i < n
        invariant
            i <= n,
            n == parser.rows().len(),
        decreases n - i,
    {
        let w = parser.row_chars(i).len() as u64;
        if w > widest {
            widest = w;
        }
        i = i + 1;
    }
    (n as u64).saturating_add(widest).saturating_add(4)
}

/// A copy of the grid where every grid point in line with an antenna pair,
/// at the pair's spacing, is marked.
fn get_antinodes_from_map_part2(map: &CharIndex, parser: &MultiLineParser) -> MultiLineParser {
    let mut new_parser = parser.clone();
    let budget = line_budget(parser);
    let entries = map.entries_len();
    let mut e: usize = 0;
    while e < entries
        invariant
            e <= entries,
            entries == map.entries_seq().len(),
        decreases entries - e,
    {
        let entry = map.entry_at(e);
        let points = &entry.1;
        let n = points.len();
        let mut i: usize = 0;
        while i < n
            invariant
                i <= n,
                n == points@.len(),
            decreases n - i,
        {
            let mut j = i + 1;
            while j < n
                invariant
                    i < j,
                    j <= n,
                    n == points@.len(),
                    i < n,
                decreases n - j,
            {
                let p = points[i];
                let q = points[j];
                let dr = q.0 as i128 - p.0 as i128;
                let dc = q.1 as i128 - p.1 as i128;
                let mut rr = p.0 as i128;
                let mut cc = p.1 as i128;
                let mut fuel = budget;
                while fuel > 0
                    invariant
                        -(i128::MAX / 2) < rr < i128::MAX / 2,
                        -(i128::MAX / 2) < cc < i128::MAX / 2,
                        -(i128::MAX / 8) < dr < i128::MAX / 8,
                        -(i128::MAX / 8) < dc < i128::MAX / 8,
                    decreases fuel,
                {
                    mark_cell(&mut new_parser, rr, cc);
                    if rr > u64::MAX as i128 || rr < -(u64::MAX as i128) || cc > u64::MAX as i128
                        || cc < -(u64::MAX as i128) {
                        break;
                    }
                    rr = rr + dr;
                    cc = cc + dc;
                    fuel = fuel - 1;
                }
                let mut rr2 = p.0 as i128 - dr;
                let mut cc2 = p.1 as i128 - dc;
                let mut fuel2 = budget;
                while fuel2 > 0
                    invariant
                        -(i128::MAX / 2) < rr2 < i128::MAX / 2,
                        -(i128::MAX / 2) < cc2 < i128::MAX / 2,
                        -(i128::MAX / 8) < dr < i128::MAX / 8,
                        -(i128::MAX / 8) < dc < i128::MAX / 8,
                    decreases fuel2,
                {
                    mark_cell(&mut new_parser, rr2, cc2);
                    if rr2 > u64::MAX as i128 || rr2 < -(u64::MAX as i128) || cc2 > u64::MAX
                        as i128 || cc2 < -(u64::MAX as i128) {
                        break;
                    }
                    rr2 = rr2 - dr;
                    cc2 = cc2 - dc;
                    fuel2 = fuel2 - 1;
                }
                j = j + 1;
            }
            i = i + 1;
        }
        e = e + 1;
    }
    new_parser
}

} // verus!
