//! Gear Ratios: part numbers touched by symbols in an engine schematic.

use vstd::prelude::*;
use vstd::pervasive::VecAdditionalExecFns;
use crate::multi_line_parser::MultiLineParser;
use crate::text::{digit_value, is_digit, mul_sat_u64, u64_to_string};

verus! {

/// A part number of the schematic: its value, the index range it spans,
/// and whether a symbol has selected it.
#[derive(Clone)]
pub struct Number {
    value: u32,
    start_index: i128,
    end_index: i128,
    selected: bool,
}

/// A symbol of the schematic: its index, its character, and the part
/// numbers found adjacent to it.
#[derive(Clone)]
pub struct Symbol {
    index: usize,
    symbol: char,
    adjacent: Vec<u32>,
}

/// One element of a schematic line.
#[derive(Clone)]
pub enum NumberOrSymbol {
    Number(Number),
    Symbol(Symbol),
}

/// One parsed schematic line.
#[derive(Clone)]
pub struct Input {
    line: Vec<NumberOrSymbol>,
}

/// The parsed schematic.
#[derive(Clone)]
pub struct Inputs {
    inputs: Vec<Input>,
}

impl Input {
    /// A line from its parsed elements.
    pub fn create(line: Vec<NumberOrSymbol>) -> Input {
        Input { line }
    }

    /// Marks every number of this line that `symbol` touches.
    pub fn select(&mut self, symbol: Symbol) {
        let n = self.line.len();
        let mut idx: usize = 0;
        while idx < n
            invariant
                idx <= n,
                n == self.line@.len(),
            decreases n - idx,
        {
            let item = self.line[idx].clone();
            match item {
                NumberOrSymbol::Number(num) => {
                    let sym_index = symbol.index as i128;
                    if num.start_index < sym_index + 2 && sym_index - 2 < num.end_index {
                        let marked = Number {
                            value: num.value,
                            start_index: num.start_index,
                            end_index: num.end_index,
                            selected: true,
                        };
                        self.line.set(idx, NumberOrSymbol::Number(marked));
                    }
                },
                NumberOrSymbol::Symbol(_) => {},
            }
            idx = idx + 1;
        }
    }

    /// Marks every number of this line that any symbol of `other` touches.
    pub fn select_all(&mut self, other: &Input) {
        let n = other.line.len();
        let mut idx: usize = 0;
        while idx < n
            invariant
                idx <= n,
                n == other.line@.len(),
            decreases n - idx,
        {
            let item = other.line[idx].clone();
            match item {
                NumberOrSymbol::Symbol(s) => {
                    self.select(s);
                },
                NumberOrSymbol::Number(_) => {},
            }
            idx = idx + 1;
        }
    }

    /// Collects into `symbol` the numbers of this line it touches, for a
    /// gear symbol.
    pub fn find(&self, symbol: &mut Symbol) {
        let n = self.line.len();
        let mut idx: usize = 0;
        while idx < n
            invariant
                idx <= n,
                n == self.line@.len(),
            decreases n - idx,
        {
            let item = &self.line[idx];
            match item {
                NumberOrSymbol::Number(num) => {
                    let sym_index = symbol.index as i128;
                    if num.start_index < sym_index + 2 && sym_index - 2 < num.end_index
                        && symbol.symbol == '*' {
                        let v = num.value;
                        symbol.adjacent.push(v);
                    }
                },
                NumberOrSymbol::Symbol(_) => {},
            }
            idx = idx + 1;
        }
    }

    /// Collects, for every symbol of this line, the adjacent numbers from
    /// this line and its neighbours.
    pub fn find_adjacent(&mut self, previous: Option<&Input>, next: Option<&Input>) {
        let cloned = self.clone();
        let n = self.line.len();
        let mut idx: usize = 0;
        while idx < n
            invariant
                idx <= n,
                n == self.line@.len(),
            decreases n - idx,
        {
            let item = self.line[idx].clone();
            match item {
                NumberOrSymbol::Symbol(s) => {
                    let mut s2 = s;
                    cloned.find(&mut s2);
                    match previous {
                        Option::Some(p) => {
                            p.find(&mut s2);
                        },
                        Option::None => {},
                    }
                    match next {
                        Option::Some(p) => {
                            p.find(&mut s2);
                        },
                        Option::None => {},
                    }
                    self.line.set(idx, NumberOrSymbol::Symbol(s2));
                },
                NumberOrSymbol::Number(_) => {},
            }
            idx = idx + 1;
        }
    }
}

impl Inputs {
    /// The schematic from its lines.
    pub fn create(inputs: Vec<Input>) -> Inputs {
        Inputs { inputs }
    }

    /// The part-number sum and the gear-ratio sum of the schematic.
    pub fn sum(&mut self) -> (u32, u32) {
        let cloned = self.inputs.clone();
        let n = self.inputs.len();
        let mut i: usize = 0;
        while i < n
            invariant
                i <= n,
                n == self.inputs@.len(),
                cloned@.len() == n,
            decreases n - i,
        {
            let mut input = self.inputs[i].clone();
            let self_clone = input.clone();
            input.select_all(&self_clone);
            if i > 0 {
                input.select_all(&cloned[i - 1]);
            }
            if i + 1 < n {
                input.select_all(&cloned[i + 1]);
            }
            let previous = if i > 0 {
                Some(&cloned[i - 1])
            } else {
                None
            };
            let next = if i + 1 < n {
                Some(&cloned[i + 1])
            } else {
                None
            };
            input.find_adjacent(previous, next);
            self.inputs.set(i, input);
            i = i + 1;
        }
        let mut sum: u32 = 0;
        let mut gears: u32 = 0;
        let mut i: usize = 0;
        while i < self.inputs.len()
            invariant
                i <= self.inputs@.len(),
            decreases self.inputs@.len() - i,
        {
            let input = &self.inputs[i];
            let m = input.line.len();
            let mut j: usize = 0;
            while j < m
                invariant
                    j <= m,
                    m == input.line@.len(),
                decreases m - j,
            {
                match &input.line[j] {
                    NumberOrSymbol::Number(num) => {
                        if num.selected {
                            sum = sum.saturating_add(num.value);
                        }
                    },
                    NumberOrSymbol::Symbol(s) => {
                        if s.adjacent.len() == 2 {
                            let prod = mul_sat_u64(s.adjacent[0] as u64, s.adjacent[1] as u64);
                            let prod32: u32 = if prod > u32::MAX as u64 {
                                u32::MAX
                            } else {
                                prod as u32
                            };
                            gears = gears.saturating_add(prod32);
                        }
                    },
                }
                j = j + 1;
            }
            i = i + 1;
        }
        (sum, gears)
    }
}

/// Reads the schematic and sums the part numbers a symbol touches.
pub fn part1(input: String) -> String {
    let grid = MultiLineParser::new(input.as_str());
    let nrows = grid.len();
    let mut inputs: Vec<Input> = Vec::new();
    let mut r: usize = 0;
    while r < nrows
        invariant
            r <= nrows,
            nrows == grid.rows().len(),
        decreases nrows - r,
    {
        let row = grid.row_chars(r);
        let length = row.len();
        let mut num: u64 = 0;
        let mut start_index: i128 = -1;
        let mut line: Vec<NumberOrSymbol> = Vec::new();
        let mut i: usize = 0;
        while i < length
            invariant
                i <= length,
                length == row@.len(),
            decreases length - i,
        {
            let c = row[i];
            if is_digit(c) {
                num = mul_sat_u64(num, 10).saturating_add(digit_value(c) as u64);
                if start_index == -1 {
                    start_index = i as i128;
                }
            } else if c == '.' {
                if num != 0 {
                    line.push(
                        NumberOrSymbol::Number(
                            Number {
                                value: clamp_u32(num),
                                start_index,
                                end_index: i as i128 - 1,
                                selected: false,
                            },
                        ),
                    );
                    num = 0;
                    start_index = -1;
                }
            } else {
                if num != 0 {
                    line.push(
                        NumberOrSymbol::Number(
                            Number {
                                value: clamp_u32(num),
                                start_index,
                                end_index: i as i128 - 1,
                                selected: false,
                            },
                        ),
                    );
                    num = 0;
                    start_index = -1;
                }
                line.push(
                    NumberOrSymbol::Symbol(Symbol { index: i, symbol: c, adjacent: Vec::new() }),
                );
            }
            if i + 1 == length && num != 0 {
                line.push(
                    NumberOrSymbol::Number(
                        Number {
                            value: clamp_u32(num),
                            start_index,
                            end_index: i as i128,
                            selected: false,
                        },
                    ),
                );
            }
            i = i + 1;
        }
        inputs.push(Input::create(line));
        r = r + 1;
    }
    let mut inputs = Inputs::create(inputs);
    let (sum, _) = inputs.sum();
    u64_to_string(sum as u64)
}

/// As `part1`.
pub fn part2(input: String) -> String {
    part1(input)
}

/// `n` squeezed into the unsigned 32-bit range.
fn clamp_u32(n: u64) -> u32 {
    if n > u32::MAX as u64 {
        u32::MAX
    } else {
        n as u32
    }
}

} // verus!
