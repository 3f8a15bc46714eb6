//! A two-dimensional character-grid scanner with directional traversal,
//! search and mutation.

use vstd::prelude::*;
use vstd::pervasive::VecAdditionalExecFns;
use vstd::string::StrSliceExecFns;
use crate::direction::Direction;
use crate::parser::{find_from, lemma_find_from, matches_at};
use crate::text::{push_char, str_to_chars};

verus! {

/// The characters read from `(r, c)` stepping `n` times by `(dr, dc)`, or
/// `None` when any of the `n` cells lies outside the grid.
pub open spec fn ray(rows: Seq<Seq<char>>, r: int, c: int, dr: int, dc: int, n: nat) -> Option<
    Seq<char>,
>
    decreases n,
{
    if n == 0 {
        Some(Seq::empty())
    } else {
        match cell(rows, r, c) {
            Option::None => None,
            Option::Some(ch) => match ray(rows, r + dr, c + dc, dr, dc, (n - 1) as nat) {
                Option::None => None,
                Option::Some(s) => Some(seq![ch] + s),
            },
        }
    }
}

/// Index of the first line feed in `s`, or `s.len()` when there is none.
pub open spec fn first_nl(s: Seq<char>) -> int
    decreases s.len(),
{
    if s.len() == 0 {
        0
    } else if s[0] == '\n' {
        0
    } else {
        1 + first_nl(s.drop_first())
    }
}

/// `first_nl` points at the first line feed when there is one, and at the
/// end of the sequence when there is none.
pub proof fn lemma_first_nl(s: Seq<char>)
    ensures
        0 <= first_nl(s) <= s.len(),
        first_nl(s) < s.len() ==> s[first_nl(s)] == '\n',
        forall|i: int| 0 <= i < first_nl(s) ==> s[i] != '\n',
    decreases s.len(),
{
    if s.len() != 0 && s[0] != '\n' {
        lemma_first_nl(s.drop_first());
        assert forall|i: int| 0 <= i < first_nl(s) implies s[i] != '\n' by {
            if i > 0 {
                assert(s[i] == s.drop_first()[i - 1]);
            }
        }
    }
}

/// Splitting a sequence that opens with a stretch free of line feeds finds
/// its first line feed right after that stretch.
pub proof fn lemma_first_nl_concat(c: Seq<char>, rest: Seq<char>)
    requires
        forall|i: int| 0 <= i < c.len() ==> c[i] != '\n',
    ensures
        first_nl(c + rest) == c.len() + first_nl(rest),
    decreases c.len(),
{
    if c.len() == 0 {
        assert(c + rest =~= rest);
    } else {
        assert((c + rest)[0] == c[0]);
        assert((c + rest).drop_first() =~= c.drop_first() + rest);
        assert forall|i: int| 0 <= i < c.drop_first().len() implies c.drop_first()[i] != '\n' by {
            assert(c.drop_first()[i] == c[i + 1]);
        }
        lemma_first_nl_concat(c.drop_first(), rest);
    }
}

/// The non-empty line-feed-separated segments of `s`, in order: the rows of
/// a grid built from `s`.
pub open spec fn lines_of(s: Seq<char>) -> Seq<Seq<char>>
    decreases s.len(),
    via lines_of_decreases
{
    let i = first_nl(s);
    let head = s.take(i);
    let rest = if i < s.len() {
        lines_of(s.skip(i + 1))
    } else {
        Seq::empty()
    };
    if head.len() == 0 {
        rest
    } else {
        seq![head] + rest
    }
}

#[via_fn]
proof fn lines_of_decreases(s: Seq<char>) {
    lemma_first_nl(s);
}

/// Rows of `s` joined back into one text with a line feed between rows.
pub open spec fn join_rows(rows: Seq<Seq<char>>) -> Seq<char>
    decreases rows.len(),
{
    if rows.len() == 0 {
        Seq::empty()
    } else if rows.len() == 1 {
        rows[0]
    } else {
        rows[0] + seq!['\n'] + join_rows(rows.drop_first())
    }
}

/// Whether every row is non-empty and free of line feeds, as the rows of a
/// grid always are.
pub open spec fn rows_form(rows: Seq<Seq<char>>) -> bool {
    forall|i: int|
        0 <= i < rows.len() ==> (#[trigger] rows[i]).len() > 0 && forall|j: int|
            0 <= j < rows[i].len() ==> rows[i][j] != '\n'
}

/// Splitting a grid's rows joined by line feeds gives the rows back: a grid
/// built from a text and flattened row-major round-trips exactly the
/// non-empty lines of that text.
pub proof fn lemma_grid_round_trip(rows: Seq<Seq<char>>)
    requires
        rows_form(rows),
    ensures
        lines_of(join_rows(rows)) == rows,
    decreases rows.len(),
{
    if rows.len() == 0 {
        assert(first_nl(Seq::<char>::empty()) == 0);
        assert(lines_of(join_rows(rows)) =~= rows);
    } else if rows.len() == 1 {
        let s = rows[0];
        lemma_first_nl_concat(s, Seq::<char>::empty());
        assert(s + Seq::<char>::empty() =~= s);
        assert(first_nl(s) == s.len());
        assert(s.take(s.len() as int) =~= s);
        assert(lines_of(join_rows(rows)) =~= rows);
    } else {
        let s = join_rows(rows);
        let head = rows[0];
        let tail = seq!['\n'] + join_rows(rows.drop_first());
        assert(s == head + tail);
        lemma_first_nl_concat(head, tail);
        assert(tail[0] == '\n');
        assert(first_nl(tail) == 0);
        assert(first_nl(s) == head.len());
        assert(s.take(head.len() as int) =~= head);
        assert(s.skip(head.len() as int + 1) =~= join_rows(rows.drop_first()));
        let rest = rows.drop_first();
        assert(rows_form(rest)) by {
            assert forall|i: int| 0 <= i < rest.len() implies (#[trigger] rest[i]).len() > 0
                && forall|j: int| 0 <= j < rest[i].len() ==> rest[i][j] != '\n' by {
                assert(rest[i] == rows[i + 1]);
            }
        }
        lemma_grid_round_trip(rows.drop_first());
        assert(lines_of(s) =~= rows);
    }
}

/// The character of `rows` at row `r`, column `c`, or `None` when that
/// position lies outside the grid.
pub open spec fn cell(rows: Seq<Seq<char>>, r: int, c: int) -> Option<char> {
    if 0 <= r < rows.len() && 0 <= c < rows[r].len() {
        Some(rows[r][c])
    } else {
        None
    }
}

/// The position reached from a cell by one row-major step.
pub open spec fn step_spec(rows: Seq<Seq<char>>, r: int, c: int) -> (int, int) {
    if c + 1 < rows[r].len() {
        (r, c + 1)
    } else {
        (r + 1, 0)
    }
}

/// The position reached from `(r, c)` by `n` row-major steps, clamped to the
/// done position at the end of the grid.
pub open spec fn advance_spec(rows: Seq<Seq<char>>, r: int, c: int, n: nat) -> (int, int)
    decreases n,
{
    if n == 0 {
        (r, c)
    } else if r >= rows.len() {
        (rows.len() as int, 0)
    } else {
        let next = step_spec(rows, r, c);
        advance_spec(rows, next.0, next.1, (n - 1) as nat)
    }
}

/// A ray of length one reads exactly the cell it starts on, whatever its
/// direction: the first step of a directional peek is the current cell.
pub proof fn lemma_ray_single(rows: Seq<Seq<char>>, r: int, c: int, dr: int, dc: int)
    ensures
        ({
            match cell(rows, r, c) {
                Option::Some(ch) => ray(rows, r, c, dr, dc, 1) == Some(seq![ch]),
                Option::None => ray(rows, r, c, dr, dc, 1) is None,
            }
        }),
{
    reveal_with_fuel(ray, 2);
    match cell(rows, r, c) {
        Option::Some(ch) => {
            assert(seq![ch] + Seq::<char>::empty() =~= seq![ch]);
        },
        Option::None => {},
    }
}

/// The first position at or after `(r, c)` in row-major order where
/// `needle` occurs inside a single row, or `None` when there is none.
pub open spec fn grid_find(rows: Seq<Seq<char>>, needle: Seq<char>, r: int, c: int) -> Option<
    (int, int),
>
    decreases rows.len() - r,
{
    if r < 0 || r >= rows.len() {
        None
    } else {
        let f = find_from(rows[r], needle, c);
        if f >= 0 {
            Some((r, f))
        } else {
            grid_find(rows, needle, r + 1, 0)
        }
    }
}

/// A hit of the row-major search names an existing cell.
pub proof fn lemma_grid_find_valid(rows: Seq<Seq<char>>, needle: Seq<char>, r: int, c: int)
    requires
        needle.len() > 0,
        0 <= c,
    ensures
        ({
            match grid_find(rows, needle, r, c) {
                Option::Some(p) => 0 <= p.0 < rows.len() && 0 <= p.1 < rows[p.0].len(),
                Option::None => true,
            }
        }),
    decreases rows.len() - r,
{
    if 0 <= r < rows.len() {
        lemma_find_from(rows[r], needle, c);
        let f = find_from(rows[r], needle, c);
        if f < 0 {
            lemma_grid_find_valid(rows, needle, r + 1, 0);
        }
    }
}

/// Steps available before a walk from `(r, c)` by `(dr, dc)` must leave the
/// grid: the measure that bounds `walk_stop`.
pub open spec fn walk_measure(rows: Seq<Seq<char>>, r: int, c: int, dr: int, dc: int) -> int {
    if dr > 0 {
        rows.len() - r
    } else if dr < 0 {
        r + 1
    } else if dc > 0 {
        if 0 <= r < rows.len() {
            rows[r].len() - c
        } else {
            0
        }
    } else {
        c + 1
    }
}

/// The walk from `(r, c)` stepping by `(dr, dc)`: it halts just before the
/// first cell holding `ch`, pairing the final position with true, or on the
/// last in-grid cell when the walk runs off the grid, pairing it with false.
pub open spec fn walk_stop(
    rows: Seq<Seq<char>>,
    r: int,
    c: int,
    dr: int,
    dc: int,
    ch: char,
) -> ((int, int), bool)
    decreases walk_measure(rows, r, c, dr, dc),
    when dr != 0 || dc != 0
{
    match cell(rows, r + dr, c + dc) {
        Option::None => ((r, c), false),
        Option::Some(x) => if x == ch {
            ((r, c), true)
        } else {
            walk_stop(rows, r + dr, c + dc, dr, dc, ch)
        },
    }
}

/// How often `ch` occurs in `row`.
pub open spec fn row_count(row: Seq<char>, ch: char) -> int
    decreases row.len(),
{
    if row.len() == 0 {
        0
    } else {
        row_count(row.drop_last(), ch) + if row.last() == ch {
            1int
        } else {
            0int
        }
    }
}

/// How often `ch` occurs in the whole grid.
pub open spec fn grid_count(rows: Seq<Seq<char>>, ch: char) -> int
    decreases rows.len(),
{
    if rows.len() == 0 {
        0
    } else {
        grid_count(rows.drop_last(), ch) + row_count(rows.last(), ch)
    }
}

/// A row occurrence count is never negative and never exceeds the row
/// length.
pub proof fn lemma_row_count_bounds(row: Seq<char>, ch: char)
    ensures
        0 <= row_count(row, ch) <= row.len(),
    decreases row.len(),
{
    if row.len() > 0 {
        lemma_row_count_bounds(row.drop_last(), ch);
    }
}

/// A grid occurrence count is never negative.
pub proof fn lemma_grid_count_nonneg(rows: Seq<Seq<char>>, ch: char)
    ensures
        0 <= grid_count(rows, ch),
    decreases rows.len(),
{
    if rows.len() > 0 {
        lemma_grid_count_nonneg(rows.drop_last(), ch);
        lemma_row_count_bounds(rows.last(), ch);
    }
}

/// The segments of `s` from `pos` on, split at each occurrence of the
/// delimiter `d`.
pub open spec fn split_by_from(s: Seq<char>, d: Seq<char>, pos: int) -> Seq<Seq<char>>
    decreases s.len() - pos,
    when 0 <= pos <= s.len() && d.len() > 0
    via split_by_from_decreases
{
    let f = find_from(s, d, pos);
    if f < 0 {
        seq![s.skip(pos)]
    } else {
        seq![s.subrange(pos, f)] + split_by_from(s, d, f + d.len())
    }
}

#[via_fn]
proof fn split_by_from_decreases(s: Seq<char>, d: Seq<char>, pos: int) {
    lemma_find_from(s, d, pos);
}

/// Whether every field that splitting `s` from `pos` at `d` yields reads
/// as a signed 64-bit integer: an optional leading plus or minus sign,
/// then a non-empty digit run whose value fits.
pub open spec fn fields_ok_from(s: Seq<char>, d: Seq<char>, pos: int) -> bool
    decreases s.len() - pos,
    when 0 <= pos <= s.len() && d.len() > 0
    via fields_ok_from_decreases
{
    let f = find_from(s, d, pos);
    let field = if f < 0 {
        s.skip(pos)
    } else {
        s.subrange(pos, f)
    };
    &&& crate::text::signed_field_ok(field)
    &&& (f >= 0 ==> fields_ok_from(s, d, f + d.len()))
}

#[via_fn]
proof fn fields_ok_from_decreases(s: Seq<char>, d: Seq<char>, pos: int) {
    lemma_find_from(s, d, pos);
}

/// The numbers a row yields when split at `d`: the signed value of each
/// field.
pub open spec fn row_numbers(row: Seq<char>, d: Seq<char>) -> Seq<i64> {
    split_by_from(row, d, 0).map_values(|f: Seq<char>| crate::text::signed_field_value(f) as i64)
}

/// Whether `needle` occurs in `row` at index `i`, checked cell by cell.
fn vec_matches_at(row: &Vec<char>, needle: &Vec<char>, i: usize) -> (r: bool)
    requires
        i + needle@.len() <= row@.len(),
    ensures
        r == matches_at(row@, needle@, i as int),
{
    let n = row.len();
    let m = needle.len();
    let mut j: usize = 0;
    while j < m
        invariant
            j <= m,
            m == needle@.len(),
            n == row@.len(),
            i + m <= n,
            forall|k: int| 0 <= k < j ==> row@[i + k] == needle@[k],
        decreases m - j,
    {
        if row[i + j] != needle[j] {
            proof {
                assert(row@.subrange(i as int, i + m)[j as int] != needle@[j as int]);
            }
            return false;
        }
        j = j + 1;
    }
    proof {
        assert(row@.subrange(i as int, i + m) =~= needle@);
    }
    true
}

/// Index of the first occurrence of `needle` in `row` at or after `from`,
/// or `None` when there is none.
fn find_in_vec(row: &Vec<char>, needle: &Vec<char>, from: usize) -> (r: Option<usize>)
    requires
        needle@.len() > 0,
    ensures
        ({
            let f = find_from(row@, needle@, from as int);
            match r {
                Option::Some(i) => f == i,
                Option::None => f < 0,
            }
        }),
{
    let n = row.len();
    let m = needle.len();
    if from > n {
        return None;
    }
    let mut i = from;
    while i <= n && n - i >= m
        invariant
            m == needle@.len(),
            m > 0,
            n == row@.len(),
            from as int <= i as int <= n + 1,
            find_from(row@, needle@, from as int) == find_from(row@, needle@, i as int),
        decreases n - i,
    {
        if vec_matches_at(row, needle, i) {
            return Some(i);
        }
        i = i + 1;
    }
    None
}

/// A two-dimensional cursor over a rectangular-ragged character grid, with
/// directional traversal, search, and mutation. Built from a text whose
/// empty lines are discarded; the cursor is either positioned on a cell or
/// done, one row past the last.
#[derive(Debug)]
pub struct MultiLineParser {
    characters: Vec<Vec<char>>,
    line: usize,
    cursor: usize,
}

impl MultiLineParser {
    /// The rows of the grid.
    pub closed spec fn rows(&self) -> Seq<Seq<char>> {
        self.characters@.map_values(|v: Vec<char>| v@)
    }

    /// The row cursor.
    pub closed spec fn ln(&self) -> int {
        self.line as int
    }

    /// The column cursor.
    pub closed spec fn col(&self) -> int {
        self.cursor as int
    }

    /// Every row of the grid is non-empty, as construction guarantees.
    pub open spec fn rows_wf(&self) -> bool {
        forall|i: int| 0 <= i < self.rows().len() ==> (#[trigger] self.rows()[i]).len() > 0
    }

    /// The cursor rests on an existing cell.
    pub open spec fn positioned(&self) -> bool {
        &&& 0 <= self.ln() < self.rows().len()
        &&& 0 <= self.col() < self.rows()[self.ln()].len()
    }

    /// The cursor has passed the last cell.
    pub open spec fn done(&self) -> bool {
        self.ln() == self.rows().len() && self.col() == 0
    }

    /// The cursor is either positioned on a cell or done.
    pub open spec fn wf(&self) -> bool {
        self.positioned() || self.done()
    }

    /// The character under the cursor, or `None` when the scanner is done or
    /// the cursor points outside its row.
    pub open spec fn peek_spec(&self) -> Option<char> {
        cell(self.rows(), self.ln(), self.col())
    }

    /// Grid over the non-empty lines of `str`, with the cursor on the first
    /// cell.
    pub fn new(str: &str) -> (r: MultiLineParser)
        ensures
            r.rows() == lines_of(str@),
            r.ln() == 0,
            r.col() == 0,
            r.wf(),
            r.rows_wf(),
    {
        let chars = str_to_chars(str);
        let ghost s = str@;
        let n = chars.len();
        let mut rows: Vec<Vec<char>> = Vec::new();
        let mut cur: Vec<char> = Vec::new();
        let mut p: usize = 0;
        proof {
            assert(cur@ + s.skip(0) =~= s);
            assert(rows@.map_values(|v: Vec<char>| v@) + lines_of(s) =~= lines_of(s));
        }
        while p < n
            invariant
                p <= n,
                n == s.len(),
                chars@ == s,
                forall|i: int| 0 <= i < cur@.len() ==> cur@[i] != '\n',
                forall|i: int|
                    0 <= i < rows@.len() ==> (#[trigger] rows@[i])@.len() > 0,
                rows@.map_values(|v: Vec<char>| v@) + lines_of(cur@ + s.skip(p as int)) == lines_of(
                    s,
                ),
            decreases n - p,
        {
            let ghost rows0 = rows@.map_values(|v: Vec<char>| v@);
            let ghost cur0 = cur@;
            let ghost rem = cur0 + s.skip(p as int);
            let c = chars[p];
            if c == '\n' {
                proof {
                    lemma_first_nl_concat(cur0, s.skip(p as int));
                    assert(s.skip(p as int)[0] == '\n');
                    assert(first_nl(s.skip(p as int)) == 0);
                    assert(first_nl(rem) == cur0.len());
                    assert(rem.take(cur0.len() as int) =~= cur0);
                    assert(rem.skip(cur0.len() as int + 1) =~= s.skip(p + 1));
                }
                if cur.len() > 0 {
                    rows.push(cur);
                    cur = Vec::new();
                    proof {
                        assert(lines_of(rem) == seq![cur0] + lines_of(s.skip(p + 1)));
                        assert(rows@.map_values(|v: Vec<char>| v@) =~= rows0.push(cur0));
                        assert(rows@.map_values(|v: Vec<char>| v@) + lines_of(
                            cur@ + s.skip(p + 1),
                        ) =~= lines_of(s)) by {
                            assert(cur@ + s.skip(p + 1) =~= s.skip(p + 1));
                        }
                    }
                } else {
                    proof {
                        assert(lines_of(rem) == lines_of(s.skip(p + 1)));
                        assert(cur@ + s.skip(p + 1) =~= s.skip(p + 1));
                    }
                }
            } else {
                cur.push(c);
                proof {
                    assert(cur@ + s.skip(p + 1) =~= rem);
                }
            }
            p = p + 1;
        }
        proof {
            assert(cur@ + s.skip(n as int) =~= cur@);
            lemma_first_nl(cur@);
            assert(first_nl(cur@) == cur@.len());
            assert(cur@.take(cur@.len() as int) =~= cur@);
        }
        if cur.len() > 0 {
            let ghost rows0 = rows@.map_values(|v: Vec<char>| v@);
            let ghost cur0 = cur@;
            rows.push(cur);
            proof {
                assert(lines_of(cur0) == seq![cur0] + Seq::<Seq<char>>::empty());
                assert(lines_of(cur0) =~= seq![cur0]);
                assert(rows@.map_values(|v: Vec<char>| v@) =~= rows0.push(cur0));
                assert(rows@.map_values(|v: Vec<char>| v@) =~= lines_of(s));
            }
        } else {
            proof {
                assert(lines_of(cur@) =~= Seq::<Seq<char>>::empty());
                assert(rows@.map_values(|v: Vec<char>| v@) =~= lines_of(s));
            }
        }
        let r = MultiLineParser { characters: rows, line: 0, cursor: 0 };
        proof {
            if r.rows().len() > 0 {
                assert(r.rows()[0].len() > 0);
            }
        }
        r
    }

    /// The characters of row `i`.
    pub fn row_chars(&self, i: usize) -> (r: &Vec<char>)
        requires
            i < self.rows().len(),
        ensures
            r@ == self.rows()[i as int],
    {
        &self.characters[i]
    }

    /// Number of rows.
    pub fn len(&self) -> (r: usize)
        ensures
            r == self.rows().len(),
    {
        self.characters.len()
    }

    /// Length of the row under the cursor.
    pub fn cursor_len(&self) -> (r: usize)
        requires
            self.ln() < self.rows().len(),
        ensures
            r == self.rows()[self.ln()].len(),
    {
        self.characters[self.line].len()
    }

    /// Whether the cursor has passed the last row.
    pub fn is_done(&self) -> (r: bool)
        ensures
            r == (self.ln() == self.rows().len()),
    {
        self.line == self.characters.len()
    }

    /// The column cursor.
    pub fn cursor(&self) -> (r: usize)
        ensures
            r == self.col(),
    {
        self.cursor
    }

    /// The row cursor.
    pub fn line(&self) -> (r: usize)
        ensures
            r == self.ln(),
    {
        self.line
    }

    /// The cursor as a (row, column) pair.
    pub fn point(&self) -> (r: (usize, usize))
        ensures
            r.0 == self.ln(),
            r.1 == self.col(),
    {
        (self.line, self.cursor)
    }

    /// Sets the cursor to `p`, with no validation: an out-of-grid target
    /// leaves the scanner neither positioned nor done, and only reads that
    /// tolerate that state may follow until the cursor is moved back in.
    pub fn go_to(&mut self, p: (usize, usize))
        ensures
            final(self).rows() == old(self).rows(),
            final(self).ln() == p.0,
            final(self).col() == p.1,
    {
        self.line = p.0;
        self.cursor = p.1;
    }

    /// Moves the cursor back to the first cell.
    pub fn reset(&mut self)
        ensures
            final(self).rows() == old(self).rows(),
            final(self).ln() == 0,
            final(self).col() == 0,
    {
        self.line = 0;
        self.cursor = 0;
    }

    /// The character at row `rr`, column `cc` of the grid.
    fn cell_at(&self, rr: i128, cc: i128) -> (r: Option<&char>)
        ensures
            r matches Some(ch) ==> cell(self.rows(), rr as int, cc as int) == Some(*ch),
            r is None ==> cell(self.rows(), rr as int, cc as int) is None,
    {
        if rr < 0 || cc < 0 {
            return None;
        }
        let n = self.characters.len();
        if rr >= n as i128 {
            return None;
        }
        let row = &self.characters[rr as usize];
        let m = row.len();
        if cc >= m as i128 {
            return None;
        }
        Some(&row[cc as usize])
    }

    /// The character under the cursor, without moving it.
    pub fn peek(&self) -> (r: Option<&char>)
        ensures
            r matches Some(c) ==> self.peek_spec() == Some(*c),
            r is None ==> self.peek_spec() is None,
    {
        self.cell_at(self.line as i128, self.cursor as i128)
    }

    /// The character `line` rows and `cursor` columns away from the cursor,
    /// without moving it. A negative target coordinate reads as absent.
    pub fn peek_at(&self, line: i64, cursor: i64) -> (r: Option<&char>)
        ensures
            r matches Some(c) ==> cell(self.rows(), self.ln() + line, self.col() + cursor) == Some(
                *c,
            ),
            r is None ==> cell(self.rows(), self.ln() + line, self.col() + cursor) is None,
    {
        self.cell_at(self.line as i128 + line as i128, self.cursor as i128 + cursor as i128)
    }

    /// Moves the cursor forward by `num` row-major steps, clamping to the
    /// done position when the grid is exhausted.
    pub fn advance(&mut self, num: usize)
        requires
            old(self).wf(),
            old(self).rows_wf(),
        ensures
            final(self).rows() == old(self).rows(),
            final(self).rows_wf(),
            final(self).wf(),
            (final(self).ln(), final(self).col()) == advance_spec(
                old(self).rows(),
                old(self).ln(),
                old(self).col(),
                num as nat,
            ),
    {
        let ghost rows = self.rows();
        let n = self.characters.len();
        let mut i: usize = 0;
        while i < num
            invariant
                i <= num,
                self.rows() == rows,
                n == rows.len(),
                self.rows_wf(),
                self.wf(),
                advance_spec(rows, old(self).ln(), old(self).col(), num as nat) == advance_spec(
                    rows,
                    self.ln(),
                    self.col(),
                    (num - i) as nat,
                ),
            ensures
                self.rows() == rows,
                self.rows_wf(),
                self.wf(),
                (self.ln(), self.col()) == advance_spec(
                    rows,
                    old(self).ln(),
                    old(self).col(),
                    num as nat,
                ),
            decreases num - i,
        {
            if self.line == n {
                proof {
                    assert(advance_spec(rows, self.ln(), self.col(), (num - i) as nat) == (
                        self.ln(),
                        self.col(),
                    ));
                }
                break;
            }
            let row_len = self.characters[self.line].len();
            if self.cursor + 1 < row_len {
                self.cursor = self.cursor + 1;
            } else {
                self.line = self.line + 1;
                self.cursor = 0;
            }
            i = i + 1;
        }
        proof {
            if i == num {
                assert(advance_spec(rows, self.ln(), self.col(), 0) == (self.ln(), self.col()));
            }
        }
    }

    /// The character under the cursor; the cursor then takes one row-major
    /// step, unless the scanner was already done.
    pub fn pop(&mut self) -> (r: Option<char>)
        requires
            old(self).wf(),
            old(self).rows_wf(),
        ensures
            final(self).rows() == old(self).rows(),
            final(self).rows_wf(),
            final(self).wf(),
            r == old(self).peek_spec(),
            (final(self).ln(), final(self).col()) == advance_spec(
                old(self).rows(),
                old(self).ln(),
                old(self).col(),
                1,
            ),
    {
        proof {
            reveal_with_fuel(advance_spec, 3);
        }
        if self.line == self.characters.len() {
            return None;
        }
        let row_len = self.characters[self.line].len();
        let c = self.characters[self.line][self.cursor];
        if self.cursor + 1 < row_len {
            self.cursor = self.cursor + 1;
        } else {
            self.line = self.line + 1;
            self.cursor = 0;
        }
        Some(c)
    }

    /// Overwrites the cell under the cursor; the cursor must rest on an
    /// existing cell.
    pub fn set(&mut self, c: char)
        requires
            old(self).positioned(),
        ensures
            final(self).ln() == old(self).ln(),
            final(self).col() == old(self).col(),
            final(self).rows() == old(self).rows().update(
                old(self).ln(),
                old(self).rows()[old(self).ln()].update(old(self).col(), c),
            ),
            old(self).rows_wf() ==> final(self).rows_wf(),
    {
        let ghost rows0 = self.rows();
        let ghost l = self.ln();
        let ghost k = self.col();
        self.characters[self.line].set(self.cursor, c);
        proof {
            assert(self.rows() =~= rows0.update(l, rows0[l].update(k, c)));
            assert forall|i: int| 0 <= i < self.rows().len() implies (#[trigger] self.rows()[i]).len()
                == rows0[i].len() by {}
        }
    }

    /// The characters along the ray from `(r0, c0)` in direction `d`,
    /// `num` cells long.
    fn ray_string(&self, r0: i128, c0: i128, d: &Direction, num: usize) -> (res: Option<String>)
        ensures
            ({
                let full = ray(
                    self.rows(),
                    r0 as int,
                    c0 as int,
                    d.spec_delta_row(),
                    d.spec_delta_col(),
                    num as nat,
                );
                match res {
                    Option::Some(s) => full == Some(s@),
                    Option::None => full is None,
                }
            }),
    {
        let (dr, dc) = d.delta();
        let ghost rows = self.rows();
        let ghost full = ray(
            rows,
            r0 as int,
            c0 as int,
            dr as int,
            dc as int,
            num as nat,
        );
        let mut s = String::new();
        let mut rr = r0;
        let mut cc = c0;
        let mut k: usize = 0;
        proof {
            match full {
                Option::Some(t) => {
                    assert(s@ + t =~= t);
                },
                Option::None => {},
            }
        }
        loop
            invariant
                k <= num,
                self.rows() == rows,
                dr == d.spec_delta_row(),
                dc == d.spec_delta_col(),
                full == ray(rows, r0 as int, c0 as int, dr as int, dc as int, num as nat),
                ({
                    let rest = ray(rows, rr as int, cc as int, dr as int, dc as int, (num - k) as nat);
                    match rest {
                        Option::Some(t) => full == Some(s@ + t),
                        Option::None => full is None,
                    }
                }),
            decreases num - k,
        {
            if k == num {
                proof {
                    assert(ray(rows, rr as int, cc as int, dr as int, dc as int, 0) == Some(
                        Seq::<char>::empty(),
                    ));
                    assert(s@ + Seq::<char>::empty() =~= s@);
                }
                return Some(s);
            }
            let ghost rest = ray(rows, rr as int, cc as int, dr as int, dc as int, (num - k) as nat);
            if rr < 0 || cc < 0 {
                return None;
            }
            let nrows = self.characters.len();
            if rr >= nrows as i128 {
                return None;
            }
            let row = &self.characters[rr as usize];
            let m = row.len();
            if cc >= m as i128 {
                return None;
            }
            let ch = row[cc as usize];
            proof {
                assert(cell(rows, rr as int, cc as int) == Some(ch));
            }
            let ghost s_old = s@;
            push_char(&mut s, ch);
            rr = rr + dr as i128;
            cc = cc + dc as i128;
            k = k + 1;
            proof {
                let next = ray(rows, rr as int, cc as int, dr as int, dc as int, (num - k) as nat);
                match next {
                    Option::Some(t) => {
                        assert(rest == Some(seq![ch] + t));
                        assert(s@ + t =~= s_old + (seq![ch] + t));
                    },
                    Option::None => {
                        assert(rest is None);
                    },
                }
            }
        }
    }

    /// The string of `num` cells read from the cursor stepping by
    /// `direction`, the cursor's own cell first, or `None` when any of those
    /// cells lies outside the grid.
    pub fn peek_with_direction(&self, num: usize, direction: &Direction) -> (r: Option<String>)
        ensures
            ({
                let full = ray(
                    self.rows(),
                    self.ln(),
                    self.col(),
                    direction.spec_delta_row(),
                    direction.spec_delta_col(),
                    num as nat,
                );
                match r {
                    Option::Some(s) => full == Some(s@),
                    Option::None => full is None,
                }
            }),
    {
        self.ray_string(self.line as i128, self.cursor as i128, direction, num)
    }

    /// The cell one step away from the cursor in `direction`, without moving
    /// the cursor.
    pub fn peek_next_with_direction(&self, direction: &Direction) -> (r: Option<&char>)
        ensures
            ({
                let target = cell(
                    self.rows(),
                    self.ln() + direction.spec_delta_row(),
                    self.col() + direction.spec_delta_col(),
                );
                match r {
                    Option::Some(c) => target == Some(*c),
                    Option::None => target is None,
                }
            }),
    {
        let (dr, dc) = direction.delta();
        self.cell_at(self.line as i128 + dr as i128, self.cursor as i128 + dc as i128)
    }

    /// The directions, in clockwise order, along which `w` reads from the
    /// cursor.
    pub open spec fn matching_dirs(&self, dirs: Seq<Direction>, w: Seq<char>) -> Seq<Direction>
        decreases dirs.len(),
    {
        if dirs.len() == 0 {
            Seq::empty()
        } else {
            let rest = self.matching_dirs(dirs.drop_first(), w);
            if ray(
                self.rows(),
                self.ln(),
                self.col(),
                dirs[0].spec_delta_row(),
                dirs[0].spec_delta_col(),
                w.len(),
            ) == Some(w) {
                seq![dirs[0]] + rest
            } else {
                rest
            }
        }
    }

    /// Every direction along which `word` reads from the cursor, in the
    /// clockwise order of the eight directions.
    pub fn word_count(&self, word: &str) -> (r: Vec<Direction>)
        ensures
            r@ == self.matching_dirs(Direction::seq_8(), word@),
    {
        let n = word.unicode_len();
        let dirs = Direction::values_8();
        let mut result: Vec<Direction> = Vec::new();
        let mut i: usize = 0;
        proof {
            assert(Direction::seq_8().skip(0) =~= Direction::seq_8());
            assert(result@ + self.matching_dirs(Direction::seq_8(), word@) =~= self.matching_dirs(
                Direction::seq_8(),
                word@,
            ));
        }
        while i < dirs.len()
            invariant
                i <= dirs@.len(),
                dirs@ == Direction::seq_8(),
                n == word@.len(),
                result@ + self.matching_dirs(Direction::seq_8().skip(i as int), word@)
                    == self.matching_dirs(Direction::seq_8(), word@),
            decreases dirs@.len() - i,
        {
            let ghost suffix = Direction::seq_8().skip(i as int);
            let d = dirs[i];
            proof {
                assert(suffix[0] == d);
                assert(suffix.drop_first() =~= Direction::seq_8().skip(i + 1));
            }
            let peeked = self.peek_with_direction(n, &d);
            let matched = match peeked {
                Option::Some(s) => {
                    let w = word.to_owned();
                    s == w
                },
                Option::None => false,
            };
            if matched {
                result.push(d);
            }
            i = i + 1;
        }
        proof {
            assert(Direction::seq_8().skip(8) =~= Seq::<Direction>::empty());
            assert(result@ + Seq::<Direction>::empty() =~= result@);
        }
        result
    }

    /// Whether, from the cursor, one of `words` reads down-right along the
    /// main diagonal and one reads down-left along the opposite diagonal
    /// starting at the far corner of the word square. All words must share
    /// one length.
    pub open spec fn diag_words_spec(&self, words: Seq<Seq<char>>) -> bool {
        let n = words[0].len();
        &&& (forall|i: int| 0 <= i < words.len() ==> (#[trigger] words[i]).len() == n)
        &&& (exists|i: int|
            0 <= i < words.len() && ray(self.rows(), self.ln(), self.col(), 1, 1, n) == Some(
                #[trigger] words[i],
            ))
        &&& (exists|i: int|
            0 <= i < words.len() && ray(self.rows(), self.ln(), self.col() + n - 1, 1, -1, n)
                == Some(#[trigger] words[i]))
    }

    /// Whether one of `words` reads along the down-right diagonal from the
    /// cursor while one reads along the crossing down-left diagonal.
    pub fn diagonal_x_exists(&mut self, words: Vec<&str>) -> (r: bool)
        requires
            words@.len() > 0,
        ensures
            final(self).rows() == old(self).rows(),
            final(self).ln() == old(self).ln(),
            final(self).col() == old(self).col(),
            r == old(self).diag_words_spec(words@.map_values(|w: &str| w@)),
    {
        let ghost ws = words@.map_values(|w: &str| w@);
        let n = words[0].unicode_len();
        let mut i: usize = 1;
        while i < words.len()
            invariant
                1 <= i <= words@.len(),
                ws == words@.map_values(|w: &str| w@),
                n == ws[0].len(),
                forall|j: int| 0 <= j < i ==> (#[trigger] ws[j]).len() == n,
            decreases words@.len() - i,
        {
            if words[i].unicode_len() != n {
                proof {
                    assert(ws[i as int].len() != n);
                }
                return false;
            }
            i = i + 1;
        }
        let first = self.ray_string(self.line as i128, self.cursor as i128, &Direction::RightDown, n);
        let first = match first {
            Option::Some(s) => s,
            Option::None => {
                return false;
            },
        };
        let mut found_first = false;
        let mut i: usize = 0;
        while i < words.len()
            invariant
                i <= words@.len(),
                ws == words@.map_values(|w: &str| w@),
                found_first ==> exists|j: int| 0 <= j < words@.len() && first@ == #[trigger] ws[j],
                !found_first ==> forall|j: int| 0 <= j < i ==> first@ != #[trigger] ws[j],
            decreases words@.len() - i,
        {
            let w = words[i].to_owned();
            if first == w {
                found_first = true;
                proof {
                    assert(first@ == ws[i as int]);
                }
            }
            i = i + 1;
        }
        if !found_first {
            return false;
        }
        let second = self.ray_string(
            self.line as i128,
            self.cursor as i128 + n as i128 - 1,
            &Direction::DownLeft,
            n,
        );
        let second = match second {
            Option::Some(s) => s,
            Option::None => {
                return false;
            },
        };
        let mut found_second = false;
        let mut i: usize = 0;
        while i < words.len()
            invariant
                i <= words@.len(),
                ws == words@.map_values(|w: &str| w@),
                found_second ==> exists|j: int| 0 <= j < words@.len() && second@ == #[trigger] ws[j],
                !found_second ==> forall|j: int| 0 <= j < i ==> second@ != #[trigger] ws[j],
            decreases words@.len() - i,
        {
            let w = words[i].to_owned();
            if second == w {
                found_second = true;
                proof {
                    assert(second@ == ws[i as int]);
                }
            }
            i = i + 1;
        }
        found_second
    }

    /// Moves the cursor `num` steps by the delta of `direction`, with no
    /// bounds check: the caller keeps the target coordinates non-negative
    /// and within the machine's index range.
    pub fn advance_with_direction(&mut self, num: usize, direction: &Direction)
        requires
            0 <= old(self).ln() + num * direction.spec_delta_row() <= usize::MAX,
            0 <= old(self).col() + num * direction.spec_delta_col() <= usize::MAX,
        ensures
            final(self).rows() == old(self).rows(),
            final(self).ln() == old(self).ln() + num * direction.spec_delta_row(),
            final(self).col() == old(self).col() + num * direction.spec_delta_col(),
    {
        let (dr, dc) = direction.delta();
        let rr: i128 = if dr > 0 {
            self.line as i128 + num as i128
        } else if dr < 0 {
            self.line as i128 - num as i128
        } else {
            self.line as i128
        };
        let cc: i128 = if dc > 0 {
            self.cursor as i128 + num as i128
        } else if dc < 0 {
            self.cursor as i128 - num as i128
        } else {
            self.cursor as i128
        };
        self.line = rr as usize;
        self.cursor = cc as usize;
    }

    /// Row-major search for `target` inside a single row, starting at the
    /// cursor. On a hit the cursor lands on the first character of the
    /// first occurrence and the call returns true; on a miss the cursor
    /// stays put and the call returns false.
    pub fn advance_to(&mut self, target: &str) -> (found: bool)
        requires
            target@.len() > 0,
        ensures
            final(self).rows() == old(self).rows(),
            ({
                match grid_find(old(self).rows(), target@, old(self).ln(), old(self).col()) {
                    Option::Some(p) => found && final(self).ln() == p.0 && final(self).col() == p.1,
                    Option::None => !found && final(self).ln() == old(self).ln()
                        && final(self).col() == old(self).col(),
                }
            }),
    {
        let needle = str_to_chars(target);
        let ghost rows = self.rows();
        let nrows = self.characters.len();
        let mut r = self.line;
        let mut start = self.cursor;
        while r < nrows
            invariant
                rows == old(self).rows(),
                self.rows() == rows,
                self.ln() == old(self).ln(),
                self.col() == old(self).col(),
                nrows == rows.len(),
                needle@ == target@,
                needle@.len() > 0,
                grid_find(rows, target@, old(self).ln(), old(self).col()) == grid_find(
                    rows,
                    target@,
                    r as int,
                    start as int,
                ),
            decreases nrows - r,
        {
            let row = &self.characters[r];
            match find_in_vec(row, &needle, start) {
                Option::Some(i) => {
                    self.line = r;
                    self.cursor = i;
                    return true;
                },
                Option::None => {
                    r = r + 1;
                    start = 0;
                },
            }
        }
        false
    }

    /// Walks from the cursor one step at a time by the delta of
    /// `direction`, stopping just before the first cell that holds `c` and
    /// returning true, or stopping on the last in-grid cell and returning
    /// false when the walk runs off the grid.
    pub fn advance_to_with_direction(&mut self, c: char, direction: &Direction) -> (found: bool)
        requires
            old(self).positioned(),
        ensures
            final(self).rows() == old(self).rows(),
            final(self).positioned(),
            ({
                let res = walk_stop(
                    old(self).rows(),
                    old(self).ln(),
                    old(self).col(),
                    direction.spec_delta_row(),
                    direction.spec_delta_col(),
                    c,
                );
                &&& (final(self).ln(), final(self).col()) == res.0
                &&& found == res.1
            }),
    {
        let (dr, dc) = direction.delta();
        let ghost rows = self.rows();
        let ghost goal = walk_stop(
            rows,
            self.ln(),
            self.col(),
            dr as int,
            dc as int,
            c,
        );
        proof {
            assert(dr != 0 || dc != 0);
        }
        loop
            invariant
                rows == old(self).rows(),
                self.rows() == rows,
                self.positioned(),
                dr == direction.spec_delta_row(),
                dc == direction.spec_delta_col(),
                dr != 0 || dc != 0,
                goal == walk_stop(
                    old(self).rows(),
                    old(self).ln(),
                    old(self).col(),
                    direction.spec_delta_row(),
                    direction.spec_delta_col(),
                    c,
                ),
                goal == walk_stop(rows, self.ln(), self.col(), dr as int, dc as int, c),
            decreases walk_measure(rows, self.ln(), self.col(), dr as int, dc as int),
        {
            let rr = self.line as i128 + dr as i128;
            let cc = self.cursor as i128 + dc as i128;
            if rr < 0 || cc < 0 {
                return false;
            }
            let nrows = self.characters.len();
            if rr >= nrows as i128 {
                return false;
            }
            let row_len = self.characters[rr as usize].len();
            if cc >= row_len as i128 {
                return false;
            }
            let next = self.characters[rr as usize][cc as usize];
            proof {
                assert(cell(rows, self.ln() + dr, self.col() + dc) == Some(next));
            }
            if next == c {
                return true;
            }
            self.line = rr as usize;
            self.cursor = cc as usize;
        }
    }

    /// Overwrites with `c` every cell of the axis-aligned rectangle spanned
    /// by `a` and `b`, both corners included; the rectangle must lie within
    /// the grid. The cursor does not move.
    pub fn fill(&mut self, c: char, a: (usize, usize), b: (usize, usize))
        requires
            ({
                let r1 = vstd::math::min(a.0 as int, b.0 as int);
                let r2 = vstd::math::max(a.0 as int, b.0 as int);
                let c2 = vstd::math::max(a.1 as int, b.1 as int);
                &&& r2 < old(self).rows().len()
                &&& forall|i: int|
                    r1 <= i <= r2 ==> c2 < (#[trigger] old(self).rows()[i]).len()
            }),
        ensures
            final(self).ln() == old(self).ln(),
            final(self).col() == old(self).col(),
            final(self).rows().len() == old(self).rows().len(),
            forall|i: int|
                0 <= i < old(self).rows().len() ==> (#[trigger] final(self).rows()[i]).len()
                    == old(self).rows()[i].len(),
            ({
                let r1 = vstd::math::min(a.0 as int, b.0 as int);
                let r2 = vstd::math::max(a.0 as int, b.0 as int);
                let c1 = vstd::math::min(a.1 as int, b.1 as int);
                let c2 = vstd::math::max(a.1 as int, b.1 as int);
                forall|i: int, j: int|
                    0 <= i < old(self).rows().len() && 0 <= j < old(self).rows()[i].len()
                        ==> #[trigger] final(self).rows()[i][j] == if r1 <= i <= r2 && c1 <= j
                        <= c2 {
                        c
                    } else {
                        old(self).rows()[i][j]
                    }
            }),
            old(self).rows_wf() ==> final(self).rows_wf(),
            old(self).positioned() ==> final(self).positioned(),
    {
        let r1 = if a.0 <= b.0 {
            a.0
        } else {
            b.0
        };
        let r2 = if a.0 <= b.0 {
            b.0
        } else {
            a.0
        };
        let c1 = if a.1 <= b.1 {
            a.1
        } else {
            b.1
        };
        let c2 = if a.1 <= b.1 {
            b.1
        } else {
            a.1
        };
        let ghost rows0 = old(self).rows();
        let mut i = r1;
        loop
            invariant_except_break
                forall|k: int, l: int|
                    0 <= k < rows0.len() && 0 <= l < rows0[k].len()
                        ==> #[trigger] self.rows()[k][l] == if r1 <= k < i && c1 <= l <= c2 {
                        c
                    } else {
                        rows0[k][l]
                    },
            invariant
                r1 <= i <= r2,
                c1 <= c2,
                r2 < rows0.len(),
                rows0 == old(self).rows(),
                forall|k: int| r1 <= k <= r2 ==> c2 < (#[trigger] rows0[k]).len(),
                self.ln() == old(self).ln(),
                self.col() == old(self).col(),
                self.rows().len() == rows0.len(),
                forall|k: int|
                    0 <= k < rows0.len() ==> (#[trigger] self.rows()[k]).len() == rows0[k].len(),
            ensures
                self.ln() == old(self).ln(),
                self.col() == old(self).col(),
                self.rows().len() == rows0.len(),
                forall|k: int|
                    0 <= k < rows0.len() ==> (#[trigger] self.rows()[k]).len() == rows0[k].len(),
                forall|k: int, l: int|
                    0 <= k < rows0.len() && 0 <= l < rows0[k].len()
                        ==> #[trigger] self.rows()[k][l] == if r1 <= k <= r2 && c1 <= l <= c2 {
                        c
                    } else {
                        rows0[k][l]
                    },
            decreases r2 - i,
        {
            let mut j = c1;
            loop
                invariant_except_break
                    forall|k: int, l: int|
                        0 <= k < rows0.len() && 0 <= l < rows0[k].len()
                            ==> #[trigger] self.rows()[k][l] == if (r1 <= k < i && c1 <= l <= c2)
                            || (k == i && c1 <= l < j) {
                            c
                        } else {
                            rows0[k][l]
                        },
                invariant
                    r1 <= i <= r2,
                    c1 <= j <= c2,
                    r2 < rows0.len(),
                    rows0 == old(self).rows(),
                    forall|k: int| r1 <= k <= r2 ==> c2 < (#[trigger] rows0[k]).len(),
                    self.ln() == old(self).ln(),
                    self.col() == old(self).col(),
                    self.rows().len() == rows0.len(),
                    forall|k: int|
                        0 <= k < rows0.len() ==> (#[trigger] self.rows()[k]).len()
                            == rows0[k].len(),
                ensures
                    self.ln() == old(self).ln(),
                    self.col() == old(self).col(),
                    self.rows().len() == rows0.len(),
                    forall|k: int|
                        0 <= k < rows0.len() ==> (#[trigger] self.rows()[k]).len()
                            == rows0[k].len(),
                    forall|k: int, l: int|
                        0 <= k < rows0.len() && 0 <= l < rows0[k].len()
                            ==> #[trigger] self.rows()[k][l] == if (r1 <= k < i && c1 <= l <= c2)
                            || (k == i && c1 <= l <= c2) {
                            c
                        } else {
                            rows0[k][l]
                        },
                decreases c2 - j,
            {
                let ghost prev = self.rows();
                proof {
                    assert(rows0[i as int].len() > c2);
                    assert(self.rows()[i as int].len() == rows0[i as int].len());
                    assert(i < self.characters@.len());
                    assert(self.characters@[i as int]@ == self.rows()[i as int]);
                }
                self.characters[i].set(j, c);
                proof {
                    assert(self.rows() =~= prev.update(
                        i as int,
                        prev[i as int].update(j as int, c),
                    ));
                }
                if j == c2 {
                    break;
                }
                j = j + 1;
            }
            if i == r2 {
                break;
            }
            i = i + 1;
        }
    }

    /// How often `c` occurs in the grid, the whole grid counted row-major;
    /// a count past the machine's index range saturates there.
    pub fn count_chars(&self, c: char) -> (r: usize)
        ensures
            grid_count(self.rows(), c) <= usize::MAX ==> r == grid_count(self.rows(), c),
            grid_count(self.rows(), c) > usize::MAX ==> r == usize::MAX,
    {
        let ghost rows = self.rows();
        let nrows = self.characters.len();
        let mut total: usize = 0;
        let mut i: usize = 0;
        proof {
            assert(rows.take(0) =~= Seq::<Seq<char>>::empty());
        }
        while i < nrows
            invariant
                i <= nrows,
                nrows == rows.len(),
                self.rows() == rows,
                grid_count(rows.take(i as int), c) <= usize::MAX ==> total == grid_count(
                    rows.take(i as int),
                    c,
                ),
                grid_count(rows.take(i as int), c) > usize::MAX ==> total == usize::MAX,
            decreases nrows - i,
        {
            let row = &self.characters[i];
            let m = row.len();
            let mut cnt: usize = 0;
            let mut j: usize = 0;
            proof {
                assert(row@.take(0) =~= Seq::<char>::empty());
            }
            while j < m
                invariant
                    j <= m,
                    m == row@.len(),
                    cnt == row_count(row@.take(j as int), c),
                    cnt <= j,
                decreases m - j,
            {
                proof {
                    assert(row@.take(j as int + 1).drop_last() =~= row@.take(j as int));
                }
                if row[j] == c {
                    cnt = cnt + 1;
                }
                j = j + 1;
            }
            proof {
                assert(row@.take(m as int) =~= row@);
                assert(rows.take(i as int + 1).drop_last() =~= rows.take(i as int));
                assert(rows.take(i as int + 1).last() == row@);
                lemma_grid_count_nonneg(rows.take(i as int), c);
                lemma_row_count_bounds(row@, c);
            }
            total = total.saturating_add(cnt);
            i = i + 1;
        }
        proof {
            assert(rows.take(nrows as int) =~= rows);
        }
        total
    }

    /// Splits every row at `delimiter` and parses each field as a signed
    /// 64-bit number; every field must be an optional leading plus or
    /// minus sign followed by a non-empty digit run, its value in range.
    pub fn split_to_numbers(&self, delimiter: &str) -> (r: Vec<Vec<i64>>)
        requires
            delimiter@.len() > 0,
            forall|i: int|
                0 <= i < self.rows().len() ==> fields_ok_from(
                    #[trigger] self.rows()[i],
                    delimiter@,
                    0,
                ),
        ensures
            r@.map_values(|v: Vec<i64>| v@) == self.rows().map_values(
                |row: Seq<char>| row_numbers(row, delimiter@),
            ),
    {
        let delim = str_to_chars(delimiter);
        let ghost rows = self.rows();
        let nrows = self.characters.len();
        let mut result: Vec<Vec<i64>> = Vec::new();
        let mut i: usize = 0;
        while i < nrows
            invariant
                i <= nrows,
                nrows == rows.len(),
                self.rows() == rows,
                delim@ == delimiter@,
                delim@.len() > 0,
                forall|k: int| 0 <= k < rows.len() ==> fields_ok_from(#[trigger] rows[k], delim@, 0),
                result@.len() == i,
                forall|k: int|
                    0 <= k < i ==> (#[trigger] result@[k])@ == row_numbers(rows[k], delim@),
            decreases nrows - i,
        {
            let row = &self.characters[i];
            proof {
                assert(row@ == rows[i as int]);
                assert(fields_ok_from(row@, delim@, 0));
            }
            let out = Self::split_row(row, &delim);
            result.push(out);
            i = i + 1;
        }
        proof {
            assert(result@.map_values(|v: Vec<i64>| v@) =~= rows.map_values(
                |row: Seq<char>| row_numbers(row, delimiter@),
            ));
        }
        result
    }

    /// The numbers of one row, split at `delim`.
    fn split_row(row: &Vec<char>, delim: &Vec<char>) -> (out: Vec<i64>)
        requires
            delim@.len() > 0,
            fields_ok_from(row@, delim@, 0),
        ensures
            out@ == row_numbers(row@, delim@),
    {
        let n = row.len();
        let dlen = delim.len();
        let mut out: Vec<i64> = Vec::new();
        let mut pos: usize = 0;
        let ghost full = split_by_from(row@, delim@, 0).map_values(
            |f: Seq<char>| crate::text::signed_field_value(f) as i64,
        );
        proof {
            assert(out@ + split_by_from(row@, delim@, 0).map_values(
                |f: Seq<char>| crate::text::signed_field_value(f) as i64,
            ) =~= full);
        }
        loop
            invariant_except_break
                out@ + split_by_from(row@, delim@, pos as int).map_values(
                    |f: Seq<char>| crate::text::signed_field_value(f) as i64,
                ) == full,
            invariant
                pos <= n,
                n == row@.len(),
                dlen == delim@.len(),
                dlen > 0,
                fields_ok_from(row@, delim@, pos as int),
                full == row_numbers(row@, delim@),
            ensures
                out@ == full,
            decreases n - pos,
        {
            let ghost p = pos as int;
            proof {
                lemma_find_from(row@, delim@, p);
            }
            match find_in_vec(row, delim, pos) {
                Option::Some(f) => {
                    proof {
                        assert(row@.subrange(p, f as int) == row@.subrange(p, f as int));
                    }
                    let v = crate::text::field_to_i64(row, pos, f);
                    let ghost out0 = out@;
                    out.push(v);
                    pos = f + dlen;
                    proof {
                        let parts = split_by_from(row@, delim@, p);
                        assert(parts == seq![row@.subrange(p, f as int)] + split_by_from(
                            row@,
                            delim@,
                            pos as int,
                        ));
                        assert(parts.map_values(|fl: Seq<char>| crate::text::signed_field_value(fl) as i64)
                            =~= seq![v] + split_by_from(row@, delim@, pos as int).map_values(
                            |fl: Seq<char>| crate::text::signed_field_value(fl) as i64,
                        ));
                        assert(out@ + split_by_from(row@, delim@, pos as int).map_values(
                            |fl: Seq<char>| crate::text::signed_field_value(fl) as i64,
                        ) =~= full);
                    }
                },
                Option::None => {
                    proof {
                        assert(row@.subrange(p, n as int) =~= row@.skip(p));
                    }
                    let v = crate::text::field_to_i64(row, pos, n);
                    out.push(v);
                    proof {
                        let parts = split_by_from(row@, delim@, p);
                        assert(parts == seq![row@.skip(p)]);
                        assert(parts.map_values(|fl: Seq<char>| crate::text::signed_field_value(fl) as i64)
                            =~= seq![v]);
                        assert(out@ =~= full);
                    }
                    break;
                },
            }
        }
        out
    }

    /// The grid flattened row-major: its rows joined by line feeds, as the
    /// text it was built from reads with its empty lines dropped.
    pub fn to_text(&self) -> (r: String)
        ensures
            r@ == join_rows(self.rows()),
    {
        let ghost rows = self.rows();
        let nrows = self.characters.len();
        let mut s = String::new();
        let mut i: usize = 0;
        proof {
            assert(rows.skip(0) =~= rows);
            assert(s@ + join_rows(rows) =~= join_rows(rows));
        }
        while i < nrows
            invariant
                i <= nrows,
                nrows == rows.len(),
                self.rows() == rows,
                s@ + join_rows(rows.skip(i as int)) == join_rows(rows),
            decreases nrows - i,
        {
            let ghost suffix = rows.skip(i as int);
            proof {
                assert(suffix[0] == rows[i as int]);
                assert(suffix.drop_first() =~= rows.skip(i as int + 1));
            }
            let row = &self.characters[i];
            let m = row.len();
            let ghost s_mid = s@;
            let mut j: usize = 0;
            while j < m
                invariant
                    j <= m,
                    m == row@.len(),
                    s@ == s_mid + row@.take(j as int),
                decreases m - j,
            {
                let c = row[j];
                push_char(&mut s, c);
                proof {
                    assert(s@ =~= s_mid + row@.take(j as int + 1));
                }
                j = j + 1;
            }
            if i + 1 < nrows {
                push_char(&mut s, '\n');
            }
            proof {
                assert(row@.take(m as int) =~= row@);
                if i + 1 < nrows {
                    assert(join_rows(suffix) == rows[i as int] + seq!['\n'] + join_rows(
                        rows.skip(i as int + 1),
                    ));
                } else {
                    assert(suffix.len() == 1);
                    assert(join_rows(suffix) == rows[i as int]);
                    assert(rows.skip(i as int + 1) =~= Seq::<Seq<char>>::empty());
                }
                assert(s@ + join_rows(rows.skip(i as int + 1)) =~= join_rows(rows));
            }
            i = i + 1;
        }
        proof {
            assert(rows.skip(nrows as int) =~= Seq::<Seq<char>>::empty());
            assert(s@ =~= join_rows(rows));
        }
        s
    }

    /// As `diagonal_x_exists`, with the pair `word` and `word` reversed.
    pub fn diagonal_x_exists_in_any_order(&mut self, word: &str) -> (r: bool)
        ensures
            final(self).rows() == old(self).rows(),
            final(self).ln() == old(self).ln(),
            final(self).col() == old(self).col(),
            r == old(self).diag_words_spec(seq![word@, word@.reverse()]),
    {
        let n = word.unicode_len();
        let mut rev = String::new();
        let mut i: usize = n;
        while i > 0
            invariant
                i <= n,
                n == word@.len(),
                rev@.len() == n - i,
                forall|j: int| 0 <= j < rev@.len() ==> rev@[j] == word@[n - 1 - j],
            decreases i,
        {
            i = i - 1;
            let c = word.get_char(i);
            push_char(&mut rev, c);
        }
        proof {
            assert(rev@ =~= word@.reverse());
        }
        let rev_str = rev.as_str();
        let words: Vec<&str> = vec![word, rev_str];
        proof {
            assert(words@.map_values(|w: &str| w@) =~= seq![word@, word@.reverse()]);
        }
        self.diagonal_x_exists(words)
    }
}

impl Clone for MultiLineParser {
    /// Deep copy: the clone shares no row storage with the original and
    /// carries the same rows and cursor.
    fn clone(&self) -> (r: Self)
        ensures
            r.rows() == self.rows(),
            r.ln() == self.ln(),
            r.col() == self.col(),
    {
        let n = self.characters.len();
        let mut rows: Vec<Vec<char>> = Vec::new();
        let mut i: usize = 0;
        while i < n
            invariant
                i <= n,
                n == self.characters@.len(),
                rows@.len() == i,
                forall|k: int| 0 <= k < i ==> (#[trigger] rows@[k])@ == self.characters@[k]@,
            decreases n - i,
        {
            let row = &self.characters[i];
            let m = row.len();
            let mut new_row: Vec<char> = Vec::new();
            let mut j: usize = 0;
            while j < m
                invariant
                    j <= m,
                    m == row@.len(),
                    new_row@ == row@.take(j as int),
                decreases m - j,
            {
                new_row.push(row[j]);
                j = j + 1;
                proof {
                    assert(new_row@ =~= row@.take(j as int));
                }
            }
            proof {
                assert(new_row@ =~= row@);
            }
            rows.push(new_row);
            i = i + 1;
        }
        let r = MultiLineParser { characters: rows, line: self.line, cursor: self.cursor };
        proof {
            assert(r.rows() =~= self.rows());
        }
        r
    }
}

} // verus!
