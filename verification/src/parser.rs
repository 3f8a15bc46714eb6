//! A cursor-driven linear scanner over a character sequence, with
//! substring search, numeric matching and delimited-region excision.

use vstd::prelude::*;
use crate::text::{
    add_sat, all_digits, clamp_i64, digit_val, digit_value, is_digit, is_digit_char, mul_sat,
    push_char, seq_value, str_to_chars, lemma_seq_value_nonneg,
};

verus! {

/// Whether `needle` occurs in `text` starting exactly at index `i`.
pub open spec fn matches_at(text: Seq<char>, needle: Seq<char>, i: int) -> bool {
    &&& 0 <= i
    &&& i + needle.len() <= text.len()
    &&& text.subrange(i, i + needle.len()) == needle
}

/// Index of the first occurrence of `needle` in `text` at or after `from`,
/// or `-1` when there is none.
pub open spec fn find_from(text: Seq<char>, needle: Seq<char>, from: int) -> int
    decreases text.len() - from,
{
    if needle.len() == 0 || from < 0 || from + needle.len() > text.len() {
        -1
    } else if matches_at(text, needle, from) {
        from
    } else {
        find_from(text, needle, from + 1)
    }
}

/// `find_from` returns either `-1`, and then no occurrence of `needle`
/// starts at or after `from`, or the position of the first such occurrence.
pub proof fn lemma_find_from(text: Seq<char>, needle: Seq<char>, from: int)
    requires
        0 <= from,
        needle.len() > 0,
    ensures
        ({
            let f = find_from(text, needle, from);
            if f < 0 {
                forall|i: int| from <= i ==> !matches_at(text, needle, i)
            } else {
                &&& from <= f
                &&& f + needle.len() <= text.len()
                &&& matches_at(text, needle, f)
                &&& forall|i: int| from <= i < f ==> !matches_at(text, needle, i)
            }
        }),
    decreases text.len() - from,
{
    if from + needle.len() > text.len() {
        assert forall|i: int| from <= i implies !matches_at(text, needle, i) by {}
    } else if matches_at(text, needle, from) {
    } else {
        lemma_find_from(text, needle, from + 1);
    }
}

/// Index just past the maximal run of ASCII digits in `text` starting at `i`.
pub open spec fn digit_run_end(text: Seq<char>, i: int) -> int
    decreases text.len() - i,
{
    if i < 0 || i >= text.len() || !is_digit_char(text[i]) {
        i
    } else {
        digit_run_end(text, i + 1)
    }
}

/// The digit run starting at `i` reaches at least to `i`, at most to the
/// end of the text, and consists of digits followed by a non-digit.
pub proof fn lemma_digit_run_end(text: Seq<char>, i: int)
    requires
        0 <= i <= text.len(),
    ensures
        ({
            let e = digit_run_end(text, i);
            &&& i <= e <= text.len()
            &&& all_digits(text.subrange(i, e))
            &&& e < text.len() ==> !is_digit_char(text[e])
        }),
    decreases text.len() - i,
{
    let e = digit_run_end(text, i);
    if i >= text.len() || !is_digit_char(text[i]) {
        assert(text.subrange(i, e).len() == 0);
    } else {
        lemma_digit_run_end(text, i + 1);
        assert forall|k: int| 0 <= k < text.subrange(i, e).len() implies is_digit_char(
            #[trigger] text.subrange(i, e)[k],
        ) by {
            if k > 0 {
                assert(text.subrange(i, e)[k] == text.subrange(i + 1, e)[k - 1]);
            }
        }
    }
}

/// The values of the maximal digit runs of `text` from index `i` on, in
/// reading order.
pub open spec fn numbers_in(text: Seq<char>, i: int) -> Seq<int>
    decreases text.len() - i,
    when 0 <= i <= text.len()
    via numbers_in_decreases
{
    if i >= text.len() {
        Seq::empty()
    } else if is_digit_char(text[i]) {
        let e = digit_run_end(text, i);
        seq![seq_value(text.subrange(i, e))] + numbers_in(text, e)
    } else {
        numbers_in(text, i + 1)
    }
}

#[via_fn]
proof fn numbers_in_decreases(text: Seq<char>, i: int) {
    if 0 <= i < text.len() && is_digit_char(text[i]) {
        lemma_digit_run_end(text, i);
    }
}

/// Digit runs have non-negative values.
pub proof fn lemma_numbers_in_nonneg(text: Seq<char>, i: int)
    requires
        0 <= i <= text.len(),
    ensures
        forall|k: int| 0 <= k < numbers_in(text, i).len() ==> #[trigger] numbers_in(text, i)[k]
            >= 0,
    decreases text.len() - i,
{
    if i >= text.len() {
        assert(numbers_in(text, i) =~= Seq::<int>::empty());
    } else if is_digit_char(text[i]) {
        lemma_digit_run_end(text, i);
        let e = digit_run_end(text, i);
        lemma_seq_value_nonneg(text.subrange(i, e));
        lemma_numbers_in_nonneg(text, e);
        assert forall|k: int| 0 <= k < numbers_in(text, i).len() implies #[trigger] numbers_in(
            text,
            i,
        )[k] >= 0 by {
            if k > 0 {
                assert(numbers_in(text, i)[k] == numbers_in(text, e)[k - 1]);
            } else {
                assert(numbers_in(text, i)[0] == seq_value(text.subrange(i, e)));
            }
        }
    } else {
        assert(numbers_in(text, i) == numbers_in(text, i + 1));
        lemma_numbers_in_nonneg(text, i + 1);
        assert forall|k: int| 0 <= k < numbers_in(text, i).len() implies #[trigger] numbers_in(
            text,
            i,
        )[k] >= 0 by {
            assert(numbers_in(text, i)[k] == numbers_in(text, i + 1)[k]);
        }
    }
}

/// The digit-run values of a row, each clamped to the signed 64-bit range.
pub open spec fn row_values(row: Seq<char>) -> Seq<i64> {
    numbers_in(row, 0).map_values(|v: int| clamp_i64(v))
}

/// Clamped digit-run values are non-negative.
pub proof fn lemma_row_values_nonneg(row: Seq<char>)
    ensures
        forall|k: int| 0 <= k < row_values(row).len() ==> #[trigger] row_values(row)[k] >= 0,
{
    lemma_numbers_in_nonneg(row, 0);
    assert forall|k: int| 0 <= k < row_values(row).len() implies #[trigger] row_values(row)[k]
        >= 0 by {
        assert(row_values(row)[k] == clamp_i64(numbers_in(row, 0)[k]));
    }
}

/// The values of the maximal digit runs in `row`, left to right; a run
/// whose value exceeds the signed 64-bit range saturates there.
pub fn numbers_in_row(row: &Vec<char>) -> (r: Vec<i64>)
    ensures
        r@ == row_values(row@),
{
    let ghost text = row@;
    let n = row.len();
    let mut out: Vec<i64> = Vec::new();
    let ghost mut done: Seq<int> = Seq::empty();
    let mut i: usize = 0;
    proof {
        assert(done + numbers_in(text, 0) =~= numbers_in(text, 0));
    }
    while i < n
        invariant
            i <= n,
            n == text.len(),
            row@ == text,
            numbers_in(text, 0) == done + numbers_in(text, i as int),
            out@.len() == done.len(),
            forall|k: int|
                0 <= k < done.len() ==> {
                    let v = done[k];
                    &&& (v <= i64::MAX ==> #[trigger] out@[k] == v)
                    &&& (v > i64::MAX ==> out@[k] == i64::MAX)
                },
        decreases n - i,
    {
        let c = row[i];
        if !is_digit(c) {
            proof {
                assert(numbers_in(text, i as int) == numbers_in(text, i + 1));
            }
            i = i + 1;
        } else {
            let ghost i0 = i as int;
            let ghost e = digit_run_end(text, i0);
            proof {
                lemma_digit_run_end(text, i0);
            }
            let mut acc: i64 = 0;
            loop
                invariant
                    i0 <= i as int <= e,
                    e == digit_run_end(text, i0),
                    i0 <= e <= text.len(),
                    n == text.len(),
                    row@ == text,
                    all_digits(text.subrange(i0, e)),
                    e < text.len() ==> !is_digit_char(text[e]),
                    ({
                        let v = seq_value(text.subrange(i0, i as int));
                        &&& (v <= i64::MAX ==> acc == v)
                        &&& (v > i64::MAX ==> acc == i64::MAX)
                    }),
                ensures
                    i as int == e,
                    row@ == text,
                    n == text.len(),
                    e == digit_run_end(text, i0),
                    i0 <= e <= text.len(),
                    ({
                        let v = seq_value(text.subrange(i0, e));
                        &&& (v <= i64::MAX ==> acc == v)
                        &&& (v > i64::MAX ==> acc == i64::MAX)
                    }),
                decreases text.len() - i,
            {
                if i >= n {
                    proof {
                        assert(i as int == e);
                    }
                    break;
                }
                let ch = row[i];
                if !is_digit(ch) {
                    proof {
                        if (i as int) < e {
                            assert(is_digit_char(text.subrange(i0, e)[i - i0]));
                        }
                    }
                    break;
                }
                proof {
                    if i as int == e {
                        assert(!is_digit_char(text[e]));
                    }
                }
                let d = digit_value(ch);
                let ghost prev = text.subrange(i0, i as int);
                proof {
                    assert forall|k: int| 0 <= k < prev.len() implies is_digit_char(
                        #[trigger] prev[k],
                    ) by {
                        assert(prev[k] == text.subrange(i0, e)[k]);
                    }
                    lemma_seq_value_nonneg(prev);
                }
                acc = add_sat(mul_sat(acc, 10), d as i64);
                i = i + 1;
                proof {
                    assert(text.subrange(i0, i as int).drop_last() =~= prev);
                    assert(text.subrange(i0, i as int).last() == ch);
                }
            }
            proof {
                let v = seq_value(text.subrange(i0, e));
                assert(numbers_in(text, i0) == seq![v] + numbers_in(text, e));
            }
            out.push(acc);
            proof {
                done = done.push(seq_value(text.subrange(i0, e)));
                assert(numbers_in(text, 0) =~= done + numbers_in(text, e));
            }
        }
    }
    proof {
        assert(numbers_in(text, n as int) =~= Seq::<int>::empty());
        assert(numbers_in(text, 0) =~= done);
        lemma_numbers_in_nonneg(text, 0);
        assert(out@ =~= row_values(text));
    }
    out
}

/// What remains of the text from `pos` on after excising every region that
/// reaches from an occurrence of `open_s` through the next occurrence of
/// `close_s`: the stretch before each `open_s` is kept, the region itself is
/// dropped, text holding no further `open_s` is kept whole, and an `open_s`
/// with no later `close_s` drops everything after itself.
pub open spec fn excise_from(text: Seq<char>, open_s: Seq<char>, close_s: Seq<char>, pos: int) -> Seq<
    char,
>
    decreases text.len() - pos,
    when 0 <= pos <= text.len() && open_s.len() > 0 && close_s.len() > 0
    via excise_from_decreases
{
    let f = find_from(text, open_s, pos);
    if f < 0 {
        text.skip(pos)
    } else {
        let kept = text.subrange(pos, f);
        let g = find_from(text, close_s, f + open_s.len());
        if g < 0 {
            kept
        } else {
            kept + excise_from(text, open_s, close_s, g + close_s.len())
        }
    }
}

#[via_fn]
proof fn excise_from_decreases(text: Seq<char>, open_s: Seq<char>, close_s: Seq<char>, pos: int) {
    lemma_find_from(text, open_s, pos);
    let f = find_from(text, open_s, pos);
    if f >= 0 {
        lemma_find_from(text, close_s, f + open_s.len());
    }
}

/// A scanner fresh from construction rests at the start, and it is done
/// exactly when the text it was built from is empty.
pub proof fn lemma_new_scanner(p: Parser, s: Seq<char>)
    requires
        p.text() == s,
        p.at() == 0,
    ensures
        (p.at() == p.text().len()) == (s.len() == 0),
{
}

/// Peeking is pure: the peeked value is a function of the scanner state
/// alone, so two scanners in the same state peek the same character, and a
/// peek moves nothing.
pub proof fn lemma_peek_pure(p1: Parser, p2: Parser)
    requires
        p1.text() == p2.text(),
        p1.at() == p2.at(),
    ensures
        p1.peek_spec() == p2.peek_spec(),
{
}

/// What one pop yields on a scanner over `text` whose cursor is at `at`:
/// the character under the cursor, or `None` past the end. This is the
/// value `Parser::pop` returns, and the cursor moves forward exactly when
/// the value is present.
pub open spec fn pop_value(text: Seq<char>, at: int) -> Option<char> {
    if 0 <= at < text.len() {
        Some(text[at])
    } else {
        None
    }
}

/// The outputs of `n` successive pops on a scanner over `text` starting
/// with the cursor at `at`, stepping the cursor as `Parser::pop` does.
pub open spec fn pop_outputs(text: Seq<char>, at: int, n: nat) -> Seq<Option<char>>
    decreases n,
{
    if n == 0 {
        Seq::empty()
    } else {
        let v = pop_value(text, at);
        let next = if 0 <= at < text.len() {
            at + 1
        } else {
            at
        };
        seq![v] + pop_outputs(text, next, (n - 1) as nat)
    }
}

/// Popping from position `at` for the rest of the text yields exactly the
/// remaining characters in order.
proof fn lemma_pop_outputs_from(text: Seq<char>, at: int)
    requires
        0 <= at <= text.len(),
    ensures
        pop_outputs(text, at, (text.len() - at) as nat) == text.skip(at).map_values(
            |c: char| Some(c),
        ),
    decreases text.len() - at,
{
    if at == text.len() {
        assert(pop_outputs(text, at, 0) =~= text.skip(at).map_values(|c: char| Some(c)));
    } else {
        lemma_pop_outputs_from(text, at + 1);
        assert(pop_outputs(text, at, (text.len() - at) as nat) =~= text.skip(at).map_values(
            |c: char| Some(c),
        ));
    }
}

/// Popping a scanner once per character of its text yields exactly those
/// characters in order, and the pop after that yields nothing.
pub proof fn lemma_pop_all(text: Seq<char>)
    ensures
        pop_outputs(text, 0, text.len()) == text.map_values(|c: char| Some(c)),
        pop_outputs(text, 0, (text.len() + 1) as nat) == text.map_values(|c: char| Some(c)).push(
            None,
        ),
{
    lemma_pop_outputs_from(text, 0);
    assert(text.skip(0) =~= text);
    lemma_pop_extra(text, 0, (text.len() + 1) as nat);
}

/// Pops past the end of the text yield `None`: running `n` pops where only
/// the text's length many can succeed appends `None` for each extra pop.
proof fn lemma_pop_extra(text: Seq<char>, at: int, n: nat)
    requires
        0 <= at <= text.len(),
        n == text.len() - at + 1,
    ensures
        pop_outputs(text, at, n) == text.skip(at).map_values(|c: char| Some(c)).push(None),
    decreases n,
{
    if at == text.len() {
        assert(pop_outputs(text, at, 0) == Seq::<Option<char>>::empty());
        assert(pop_value(text, at) is None);
        assert(text.skip(at).map_values(|c: char| Some(c)) =~= Seq::<Option<char>>::empty());
        assert(pop_outputs(text, at, 1) =~= text.skip(at).map_values(|c: char| Some(c)).push(
            None,
        ));
    } else {
        lemma_pop_extra(text, at + 1, (n - 1) as nat);
        assert(pop_outputs(text, at, n) =~= text.skip(at).map_values(|c: char| Some(c)).push(
            None,
        ));
    }
}

/// Cursor-driven linear scanner over the characters of a string: lookahead,
/// numeric matching, bounded substring search, and delimited-region excision.
pub struct Parser {
    characters: Vec<char>,
    cursor: usize,
}

impl Parser {
    /// The scanned character sequence, fixed at construction.
    pub closed spec fn text(&self) -> Seq<char> {
        self.characters@
    }

    /// The cursor position.
    pub closed spec fn at(&self) -> int {
        self.cursor as int
    }

    /// The cursor never exceeds the text length.
    pub open spec fn wf(&self) -> bool {
        0 <= self.at() <= self.text().len()
    }

    /// The character under the cursor, or `None` at end of input.
    pub open spec fn peek_spec(&self) -> Option<char> {
        if self.at() < self.text().len() {
            Some(self.text()[self.at()])
        } else {
            None
        }
    }

    /// Scanner over the characters of `str`, with the cursor at the start.
    pub fn new(str: &str) -> (r: Parser)
        ensures
            r.text() == str@,
            r.at() == 0,
            r.wf(),
    {
        Parser { characters: str_to_chars(str), cursor: 0 }
    }

    /// Current cursor index.
    pub fn cursor(&self) -> (r: usize)
        ensures
            r == self.at(),
    {
        self.cursor
    }

    /// The character under the cursor, without moving it.
    pub fn peek(&self) -> (r: Option<&char>)
        requires
            self.wf(),
        ensures
            r matches Some(c) ==> self.peek_spec() == Some(*c),
            r is None ==> self.peek_spec() is None,
    {
        if self.cursor < self.characters.len() {
            Some(&self.characters[self.cursor])
        } else {
            None
        }
    }

    /// The character `num` places past the cursor, without moving it.
    pub fn peek_at(&self, num: usize) -> (r: Option<&char>)
        ensures
            r matches Some(c) ==> self.at() + num < self.text().len() && *c == self.text()[self.at()
                + num],
            r is None ==> self.at() + num >= self.text().len(),
    {
        let n = self.characters.len();
        if self.cursor < n && num < n - self.cursor {
            Some(&self.characters[self.cursor + num])
        } else {
            None
        }
    }

    /// The character under the cursor; the cursor then moves one place,
    /// unless the scanner was already done.
    pub fn pop(&mut self) -> (r: Option<char>)
        requires
            old(self).wf(),
        ensures
            final(self).text() == old(self).text(),
            final(self).wf(),
            r == old(self).peek_spec(),
            r is Some ==> final(self).at() == old(self).at() + 1,
            r is None ==> final(self).at() == old(self).at(),
    {
        if self.cursor < self.characters.len() {
            let c = self.characters[self.cursor];
            self.cursor = self.cursor + 1;
            Some(c)
        } else {
            None
        }
    }

    /// Whether the cursor has reached the end of the text.
    pub fn is_done(&self) -> (r: bool)
        ensures
            r == (self.at() == self.text().len()),
    {
        self.cursor == self.characters.len()
    }

    /// Moves the cursor forward by `num` places; the caller must stay within
    /// the text.
    pub fn advance(&mut self, num: usize)
        requires
            old(self).wf(),
            old(self).at() + num <= old(self).text().len(),
        ensures
            final(self).text() == old(self).text(),
            final(self).at() == old(self).at() + num,
            final(self).wf(),
    {
        let n = self.characters.len();
        assert(self.cursor + num <= n);
        self.cursor = self.cursor + num;
    }

    /// Moves the cursor back to the start of the text.
    pub fn reset(&mut self)
        ensures
            final(self).text() == old(self).text(),
            final(self).at() == 0,
            final(self).wf(),
    {
        self.cursor = 0;
    }

    /// Whether `needle` occurs at index `i` of the text, checked cell by cell.
    fn matches_here(&self, needle: &Vec<char>, i: usize) -> (r: bool)
        requires
            i + needle@.len() <= self.text().len(),
        ensures
            r == matches_at(self.text(), needle@, i as int),
    {
        let n = self.characters.len();
        let m = needle.len();
        let mut j: usize = 0;
        while j < m
            invariant
                j <= m,
                m == needle@.len(),
                n == self.text().len(),
                i + m <= n,
                forall|k: int| 0 <= k < j ==> self.text()[i + k] == needle@[k],
            decreases m - j,
        {
            if self.characters[i + j] != needle[j] {
                proof {
                    assert(self.text().subrange(i as int, i + m)[j as int] != needle@[j as int]);
                }
                return false;
            }
            j = j + 1;
        }
        proof {
            assert(self.text().subrange(i as int, i + m) =~= needle@);
        }
        true
    }

    /// Forward substring search. On a match the cursor lands one place past
    /// the end of the first occurrence of `target` at or after the cursor and
    /// the call returns true; otherwise the cursor lands at the end of the
    /// text and the call returns false.
    pub fn advance_to(&mut self, target: &str) -> (found: bool)
        requires
            old(self).wf(),
            target@.len() > 0,
        ensures
            final(self).text() == old(self).text(),
            final(self).wf(),
            ({
                let f = find_from(old(self).text(), target@, old(self).at());
                &&& found == (f >= 0)
                &&& found ==> final(self).at() == f + target@.len()
                &&& !found ==> final(self).at() == old(self).text().len()
            }),
    {
        let needle = str_to_chars(target);
        let n = self.characters.len();
        let m = needle.len();
        let mut i = self.cursor;
        while i <= n && n - i >= m
            invariant
                self.text() == old(self).text(),
                self.at() == old(self).at(),
                self.wf(),
                n == self.text().len(),
                m == needle@.len(),
                m > 0,
                needle@ == target@,
                old(self).at() <= i as int <= n + 1,
                find_from(self.text(), needle@, old(self).at()) == find_from(
                    self.text(),
                    needle@,
                    i as int,
                ),
            decreases n - i,
        {
            if self.matches_here(&needle, i) {
                self.cursor = i + m;
                return true;
            }
            i = i + 1;
        }
        self.cursor = n;
        false
    }

    /// Greedily consumes the maximal run of ASCII digits under the cursor.
    /// Returns its value when the run is non-empty and the value fits in a
    /// signed 64-bit integer; returns `None`, with the run still consumed,
    /// when the value overflows; returns `None` with the cursor unmoved when
    /// no digit is present.
    pub fn match_number(&mut self) -> (r: Option<i64>)
        requires
            old(self).wf(),
        ensures
            final(self).text() == old(self).text(),
            final(self).wf(),
            final(self).at() >= old(self).at(),
            (old(self).peek_spec() matches Some(c) && is_digit_char(c)) ==> final(self).at() > old(
                self,
            ).at(),
            ({
                let t = old(self).text();
                let i = old(self).at();
                let e = digit_run_end(t, i);
                let v = seq_value(t.subrange(i, e));
                &&& final(self).at() == e
                &&& (e == i ==> r is None)
                &&& (e > i && v <= i64::MAX ==> r == Some(v as i64))
                &&& (e > i && v > i64::MAX ==> r is None)
            }),
    {
        let ghost t = self.characters@;
        let ghost i0 = self.cursor as int;
        let ghost e = digit_run_end(t, i0);
        proof {
            lemma_digit_run_end(t, i0);
        }
        let mut acc: i64 = 0;
        let mut overflow = false;
        let mut any = false;
        loop
            invariant
                self.wf(),
                self.text() == t,
                i0 <= self.at() <= e,
                e == digit_run_end(t, i0),
                i0 <= e <= t.len(),
                any == (self.at() > i0),
                all_digits(t.subrange(i0, e)),
                e < t.len() ==> !is_digit_char(t[e]),
                ({
                    let v = seq_value(t.subrange(i0, self.at()));
                    &&& (!overflow ==> acc == v)
                    &&& (overflow ==> v > i64::MAX)
                }),
            ensures
                self.wf(),
                self.text() == t,
                self.at() == e,
                any == (e > i0),
                ({
                    let v = seq_value(t.subrange(i0, e));
                    &&& (!overflow ==> acc == v)
                    &&& (overflow ==> v > i64::MAX)
                }),
            decreases t.len() - self.at(),
        {
            if self.cursor >= self.characters.len() {
                proof {
                    assert(self.at() == e);
                }
                break;
            }
            let c = self.characters[self.cursor];
            if !is_digit(c) {
                proof {
                    if self.at() < e {
                        assert(is_digit_char(t.subrange(i0, e)[self.at() - i0]));
                    }
                }
                break;
            }
            proof {
                if self.at() == e {
                    assert(!is_digit_char(t[e]));
                }
            }
            let d = digit_value(c);
            let ghost prev = t.subrange(i0, self.at());
            proof {
                assert forall|k: int| 0 <= k < prev.len() implies is_digit_char(
                    #[trigger] prev[k],
                ) by {
                    assert(prev[k] == t.subrange(i0, e)[k]);
                }
                lemma_seq_value_nonneg(prev);
            }
            self.cursor = self.cursor + 1;
            proof {
                assert(t.subrange(i0, self.at()).drop_last() =~= prev);
                assert(t.subrange(i0, self.at()).last() == c);
            }
            if !overflow {
                match acc.checked_mul(10) {
                    Some(x) => {
                        match x.checked_add(d as i64) {
                            Some(v) => {
                                acc = v;
                            },
                            None => {
                                overflow = true;
                            },
                        }
                    },
                    None => {
                        overflow = true;
                    },
                }
            }
            any = true;
        }
        proof {
            assert(t.subrange(i0, i0).len() == 0);
        }
        if any && !overflow {
            Some(acc)
        } else {
            None
        }
    }

    /// As `match_number`, but the matched value is returned only when the
    /// character just past the digit run equals `target`; that delimiter is
    /// then consumed as well. On any other following character the call
    /// returns `None` and leaves the cursor at that character, the digit run
    /// already consumed.
    pub fn match_number_up_to(&mut self, target: char) -> (r: Option<i64>)
        requires
            old(self).wf(),
        ensures
            final(self).text() == old(self).text(),
            final(self).wf(),
            final(self).at() >= old(self).at(),
            ({
                let t = old(self).text();
                let i = old(self).at();
                let e = digit_run_end(t, i);
                let v = seq_value(t.subrange(i, e));
                let delim = e < t.len() && t[e] == target;
                &&& (delim ==> final(self).at() == e + 1)
                &&& (!delim ==> final(self).at() == e)
                &&& (r is Some <==> delim && e > i && v <= i64::MAX)
                &&& (r is Some ==> r == Some(v as i64))
            }),
    {
        proof {
            lemma_digit_run_end(old(self).text(), old(self).at());
        }
        let number = self.match_number();
        let matched = match self.peek() {
            Some(c) => *c == target,
            None => false,
        };
        if matched {
            self.advance(1);
            number
        } else {
            None
        }
    }

    /// Scans from the cursor to the end of the text, excising every region
    /// from an occurrence of `from` through the next occurrence of `to`, and
    /// returns the text kept: text after the last excised region stays, and
    /// only a `from` with no later `to` drops its tail. The cursor ends at
    /// the end of the text.
    pub fn delete_between(&mut self, from: &str, to: &str) -> (r: String)
        requires
            old(self).wf(),
            from@.len() > 0,
            to@.len() > 0,
            from@ != to@,
        ensures
            final(self).text() == old(self).text(),
            final(self).at() == old(self).text().len(),
            r@ == excise_from(old(self).text(), from@, to@, old(self).at()),
    {
        let ghost t = self.characters@;
        let ghost at0 = self.cursor as int;
        let from_chars = str_to_chars(from);
        let from_len = from_chars.len();
        let mut result = String::new();
        proof {
            assert(result@ + excise_from(t, from@, to@, at0) =~= excise_from(t, from@, to@, at0));
        }
        loop
            invariant
                self.wf(),
                self.text() == t,
                from@.len() > 0,
                to@.len() > 0,
                0 <= at0 <= t.len(),
                from_len == from@.len(),
                result@ + excise_from(t, from@, to@, self.at()) == excise_from(t, from@, to@, at0),
            ensures
                self.wf(),
                self.text() == t,
                self.at() == t.len(),
                result@ == excise_from(t, from@, to@, at0),
            decreases t.len() - self.at(),
        {
            if self.cursor == self.characters.len() {
                proof {
                    assert(excise_from(t, from@, to@, self.at()) =~= Seq::<char>::empty());
                    assert(result@ =~= excise_from(t, from@, to@, at0));
                }
                break;
            }
            let ghost pos = self.at();
            let start = self.cursor;
            let found_open = self.advance_to(from);
            proof {
                lemma_find_from(t, from@, pos);
            }
            if !found_open {
                let n = self.characters.len();
                let ghost res0 = result@;
                let mut j = start;
                while j < n
                    invariant
                        self.text() == t,
                        start <= j <= n,
                        n == self.characters@.len(),
                        result@ == res0 + t.subrange(start as int, j as int),
                    decreases n - j,
                {
                    let c = self.characters[j];
                    push_char(&mut result, c);
                    proof {
                        assert(result@ =~= res0 + t.subrange(start as int, j + 1));
                    }
                    j = j + 1;
                }
                proof {
                    assert(t.subrange(pos, t.len() as int) =~= t.skip(pos));
                    assert(excise_from(t, from@, to@, pos) == t.skip(pos));
                    assert(result@ =~= excise_from(t, from@, to@, at0));
                }
                break;
            }
            let stop = self.cursor - from_len;
            let ghost f = find_from(t, from@, pos);
            proof {
                assert(stop == f);
            }
            let ghost res0 = result@;
            let mut j = start;
            while j < stop
                invariant
                    self.text() == t,
                    start <= j <= stop,
                    stop <= self.characters@.len(),
                    result@ == res0 + t.subrange(start as int, j as int),
                decreases stop - j,
            {
                let c = self.characters[j];
                push_char(&mut result, c);
                proof {
                    assert(result@ =~= res0 + t.subrange(start as int, j + 1));
                }
                j = j + 1;
            }
            proof {
                assert(result@ == res0 + t.subrange(pos, f));
            }
            let found_close = self.advance_to(to);
            proof {
                lemma_find_from(t, to@, f + from@.len());
            }
            if !found_close {
                proof {
                    assert(excise_from(t, from@, to@, pos) == t.subrange(pos, f));
                    assert(result@ =~= excise_from(t, from@, to@, at0));
                }
                break;
            }
            proof {
                let g = find_from(t, to@, f + from@.len());
                assert(excise_from(t, from@, to@, pos) == t.subrange(pos, f) + excise_from(
                    t,
                    from@,
                    to@,
                    g + to@.len(),
                ));
                assert(result@ + excise_from(t, from@, to@, self.at()) =~= excise_from(
                    t,
                    from@,
                    to@,
                    at0,
                ));
            }
        }
        result
    }
}

} // verus!
