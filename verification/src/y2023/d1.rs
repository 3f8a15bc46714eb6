//! Trebuchet calibration: the first and last digit of each line, with
//! spelled-out digits counted too.

use vstd::prelude::*;
use vstd::string::StrSliceExecFns;
use crate::multi_line_parser::{lines_of, MultiLineParser};
use crate::text::{chars_to_string, digit_value, is_digit, str_to_chars, u64_to_string};

verus! {

/// One calibration line.
pub struct Input {
    a: String,
}

/// A spelled-out digit found at the edge of a calibration prefix or
/// suffix, or `NAN` when none matches.
pub enum Number {
    One,
    Two,
    Threw,
    Four,
    Five,
    Six,
    Seven,
    Eight,
    Nine,
    NAN,
}

/// Whether `w` opens or closes `chars`.
fn has_affix(chars: &Vec<char>, w: &Vec<char>) -> bool {
    let n = chars.len();
    let m = w.len();
    if m > n {
        return false;
    }
    let mut prefix = true;
    let mut i: usize = 0;
    while i < m
        invariant
            i <= m,
            m <= n,
            n == chars@.len(),
            m == w@.len(),
        decreases m - i,
    {
        if chars[i] != w[i] {
            prefix = false;
        }
        i = i + 1;
    }
    if prefix {
        return true;
    }
    let mut suffix = true;
    let mut j: usize = 0;
    while j < m
        invariant
            j <= m,
            m <= n,
            n == chars@.len(),
            m == w@.len(),
        decreases m - j,
    {
        if chars[n - m + j] != w[j] {
            suffix = false;
        }
        j = j + 1;
    }
    suffix
}

impl Number {
    /// The first spelled-out digit, in counting order, that opens or
    /// closes `a`.
    pub fn create(a: String) -> Number {
        let chars = str_to_chars(a.as_str());
        let one = str_to_chars("one");
        if has_affix(&chars, &one) {
            return Number::One;
        }
        let two = str_to_chars("two");
        if has_affix(&chars, &two) {
            return Number::Two;
        }
        let three = str_to_chars("three");
        if has_affix(&chars, &three) {
            return Number::Threw;
        }
        let four = str_to_chars("four");
        if has_affix(&chars, &four) {
            return Number::Four;
        }
        let five = str_to_chars("five");
        if has_affix(&chars, &five) {
            return Number::Five;
        }
        let six = str_to_chars("six");
        if has_affix(&chars, &six) {
            return Number::Six;
        }
        let seven = str_to_chars("seven");
        if has_affix(&chars, &seven) {
            return Number::Seven;
        }
        let eight = str_to_chars("eight");
        if has_affix(&chars, &eight) {
            return Number::Eight;
        }
        let nine = str_to_chars("nine");
        if has_affix(&chars, &nine) {
            return Number::Nine;
        }
        Number::NAN
    }

    /// The digit this name stands for, with zero for `NAN`.
    pub open spec fn spec_number(self) -> u32 {
        match self {
            Number::One => 1,
            Number::Two => 2,
            Number::Threw => 3,
            Number::Four => 4,
            Number::Five => 5,
            Number::Six => 6,
            Number::Seven => 7,
            Number::Eight => 8,
            Number::Nine => 9,
            Number::NAN => 0,
        }
    }

    /// The digit this name stands for, with zero for `NAN`.
    pub fn number(&self) -> (r: u32)
        ensures
            r == self.spec_number(),
            r <= 9,
    {
        match self {
            Number::One => 1,
            Number::Two => 2,
            Number::Threw => 3,
            Number::Four => 4,
            Number::Five => 5,
            Number::Six => 6,
            Number::Seven => 7,
            Number::Eight => 8,
            Number::Nine => 9,
            Number::NAN => 0,
        }
    }
}

impl Input {
    /// The characters of the line.
    pub closed spec fn text(&self) -> Seq<char> {
        self.a@
    }

    /// A calibration line.
    pub fn create(a: String) -> (r: Input)
        ensures
            r.text() == a@,
    {
        Input { a }
    }

    /// The two-digit calibration value: the first digit or spelled-out
    /// digit from the left, then the first from the right.
    pub fn number(&self) -> u32 {
        let chars = str_to_chars(self.a.as_str());
        let length = chars.len();
        let mut num: u32 = 0;
        let mut c: usize = 0;
        while c < length
            invariant_except_break
                num <= 9,
            invariant
                c <= length,
                length == chars@.len(),
                length == self.a@.len(),
                num <= 99,
            decreases length - c,
        {
            let ch = chars[c];
            if is_digit(ch) {
                num = num * 10 + digit_value(ch);
                break ;
            }
            let prefix = self.a.as_str().substring_char(0, c + 1).to_owned();
            let snum = Number::create(prefix);
            let v = snum.number();
            if v != 0 {
                num = num * 10 + v;
                break ;
            }
            c = c + 1;
        }
        let mut num2: u32 = num;
        if num2 > 99 {
            num2 = 99;
        }
        let mut k: usize = length;
        while k > 0
            invariant_except_break
                num2 <= 99,
            invariant
                k <= length,
                length == chars@.len(),
                length == self.a@.len(),
                num2 <= 999,
            decreases k,
        {
            k = k - 1;
            let ch = chars[k];
            if is_digit(ch) {
                num2 = num2 * 10 + digit_value(ch);
                break ;
            }
            if k >= 1 {
                let suffix = self.a.as_str().substring_char(k - 1, length).to_owned();
                let snum = Number::create(suffix);
                let v = snum.number();
                if v != 0 {
                    num2 = num2 * 10 + v;
                    break ;
                }
            }
        }
        if num2 > 999 {
            999
        } else {
            num2
        }
    }
}

/// The calibration lines of one document.
pub struct FileInput {
    lines: Vec<String>,
}

impl FileInput {
    /// The lines of the document.
    pub closed spec fn lines_view(&self) -> Seq<Seq<char>> {
        self.lines@.map_values(|s: String| s@)
    }

    /// A document from its full text, one calibration line per non-empty
    /// input line.
    pub fn create(contents: String) -> (r: FileInput)
        ensures
            r.lines_view() == lines_of(contents@),
    {
        let grid = MultiLineParser::new(contents.as_str());
        let nrows = grid.len();
        let mut lines: Vec<String> = Vec::new();
        let mut i: usize = 0;
        while i < nrows
            invariant
                i <= nrows,
                nrows == grid.rows().len(),
                grid.rows() == lines_of(contents@),
                lines@.len() == i,
                forall|k: int| 0 <= k < i ==> (#[trigger] lines@[k])@ == grid.rows()[k],
            decreases nrows - i,
        {
            lines.push(chars_to_string(grid.row_chars(i)));
            i = i + 1;
        }
        let r = FileInput { lines };
        proof {
            assert(r.lines_view() =~= lines_of(contents@));
        }
        r
    }

    /// Sum of the calibration values of all lines.
    pub fn sum(&self) -> u32 {
        let mut total: u32 = 0;
        let mut i: usize = 0;
        while i < self.lines.len()
            invariant
                i <= self.lines@.len(),
            decreases self.lines@.len() - i,
        {
            let line = self.lines[i].clone();
            total = total.saturating_add(Input::create(line).number());
            i = i + 1;
        }
        total
    }
}

/// The calibration value of the input, as text.
pub fn part1(input: String) -> String {
    let input = Input::create(input);
    u64_to_string(input.number() as u64)
}

/// As `part1`; spelled-out digits already count there.
pub fn part2(input: String) -> String {
    let input = Input::create(input);
    u64_to_string(input.number() as u64)
}

} // verus!
