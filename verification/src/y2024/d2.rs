//! Red-Nosed Reports: which level reports rise or fall safely.

use vstd::prelude::*;
use crate::multi_line_parser::{lines_of, MultiLineParser};
use crate::parser::{numbers_in_row, row_values};
use crate::text::{dec_string, u64_to_string};

verus! {

/// Whether each step of `s` rises by one to three.
pub open spec fn increasing_ok(s: Seq<i64>) -> bool {
    forall|k: int| 0 <= k < s.len() - 1 ==> 1 <= s[k + 1] - #[trigger] s[k] <= 3
}

/// Whether each step of `s` falls by one to three.
pub open spec fn decreasing_ok(s: Seq<i64>) -> bool {
    forall|k: int| 0 <= k < s.len() - 1 ==> 1 <= #[trigger] s[k] - s[k + 1] <= 3
}

/// Whether `s` rises correctly as it stands or after removing one level.
pub open spec fn increasing_with_skip_ok(s: Seq<i64>) -> bool {
    increasing_ok(s) || exists|k: int| 0 <= k < s.len() && increasing_ok(#[trigger] s.remove(k))
}

/// Whether `s` falls correctly as it stands or after removing one level.
pub open spec fn decreasing_with_skip_ok(s: Seq<i64>) -> bool {
    decreasing_ok(s) || exists|k: int| 0 <= k < s.len() && decreasing_ok(#[trigger] s.remove(k))
}

/// The levels of a report line: its digit runs, each clamped to the
/// signed 64-bit range.
pub open spec fn report_levels(row: Seq<char>) -> Seq<i64> {
    row_values(row)
}

/// How many of the reports are safe as they stand.
pub open spec fn count_plain_safe(rows: Seq<Seq<char>>) -> int
    decreases rows.len(),
{
    if rows.len() == 0 {
        0
    } else {
        count_plain_safe(rows.drop_last()) + if increasing_ok(report_levels(rows.last()))
            || decreasing_ok(report_levels(rows.last())) {
            1int
        } else {
            0int
        }
    }
}

/// How many of the reports are safe once one level may be dropped.
pub open spec fn count_skip_safe(rows: Seq<Seq<char>>) -> int
    decreases rows.len(),
{
    if rows.len() == 0 {
        0
    } else {
        count_skip_safe(rows.drop_last()) + if increasing_with_skip_ok(
            report_levels(rows.last()),
        ) || decreasing_with_skip_ok(report_levels(rows.last())) {
            1int
        } else {
            0int
        }
    }
}

/// How many reports are safe: each strictly rises or strictly falls by one
/// to three per step.
pub fn part1(input: String) -> (r: String)
    ensures
        r@ == dec_string(count_plain_safe(lines_of(input@))),
{
    let ghost rows = lines_of(input@);
    let lists = parse_input(input);
    let mut count: u64 = 0;
    let mut i: usize = 0;
    proof {
        assert(rows.take(0) =~= Seq::<Seq<char>>::empty());
    }
    while i < lists.len()
        invariant
            count <= i,
            i <= lists@.len(),
            lists@.len() == rows.len(),
            forall|k: int| 0 <= k < rows.len() ==> (#[trigger] lists@[k])@ == report_levels(
                rows[k],
            ),
            count == count_plain_safe(rows.take(i as int)),
        decreases lists@.len() - i,
    {
        proof {
            assert(rows.take(i + 1).drop_last() =~= rows.take(i as int));
            assert(rows.take(i + 1).last() == rows[i as int]);
        }
        if is_increasing(&lists[i]) || is_decreasing(&lists[i]) {
            count = count + 1;
        }
        i = i + 1;
    }
    proof {
        assert(rows.take(rows.len() as int) =~= rows);
    }
    u64_to_string(count)
}

/// How many reports are safe once a single level may be dropped.
pub fn part2(input: String) -> (r: String)
    ensures
        r@ == dec_string(count_skip_safe(lines_of(input@))),
{
    let ghost rows = lines_of(input@);
    let lists = parse_input(input);
    let mut count: u64 = 0;
    let mut i: usize = 0;
    proof {
        assert(rows.take(0) =~= Seq::<Seq<char>>::empty());
    }
    while i < lists.len()
        invariant
            count <= i,
            i <= lists@.len(),
            lists@.len() == rows.len(),
            forall|k: int| 0 <= k < rows.len() ==> (#[trigger] lists@[k])@ == report_levels(
                rows[k],
            ),
            count == count_skip_safe(rows.take(i as int)),
        decreases lists@.len() - i,
    {
        proof {
            assert(rows.take(i + 1).drop_last() =~= rows.take(i as int));
            assert(rows.take(i + 1).last() == rows[i as int]);
        }
        if is_increasing_with_one_skipped(&lists[i]) || is_decreasing_with_one_skipped(&lists[i]) {
            count = count + 1;
        }
        i = i + 1;
    }
    proof {
        assert(rows.take(rows.len() as int) =~= rows);
    }
    u64_to_string(count)
}

/// One report per line, each its clamped digit-run levels.
fn parse_input(input: String) -> (lists: Vec<Vec<i64>>)
    ensures
        lists@.len() == lines_of(input@).len(),
        forall|k: int| 0 <= k < lists@.len() ==> (#[trigger] lists@[k])@ == report_levels(
            lines_of(input@)[k],
        ),
{
    let ghost rows = lines_of(input@);
    let grid = MultiLineParser::new(input.as_str());
    let nrows = grid.len();
    let mut lists: Vec<Vec<i64>> = Vec::new();
    let mut i: usize = 0;
    while i < nrows
        invariant
            i <= nrows,
            nrows == rows.len(),
            grid.rows() == rows,
            lists@.len() == i,
            forall|k: int| 0 <= k < i ==> (#[trigger] lists@[k])@ == report_levels(rows[k]),
        decreases nrows - i,
    {
        let nums = numbers_in_row(grid.row_chars(i));
        lists.push(nums);
        i = i + 1;
    }
    lists
}

/// Whether the report rises by one to three at every step.
fn is_increasing(list: &Vec<i64>) -> (r: bool)
    ensures
        r == increasing_ok(list@),
{
    let n = list.len();
    let mut k: usize = 0;
    while n > 0 && k < n - 1
        invariant
            k <= n,
            n == list@.len(),
            forall|j: int| 0 <= j < k ==> 1 <= list@[j + 1] - #[trigger] list@[j] <= 3,
        decreases n - k,
    {
        let a = list[k] as i128;
        let b = list[k + 1] as i128;
        let d = b - a;
        if !(1 <= d && d <= 3) {
            return false;
        }
        k = k + 1;
    }
    true
}

/// Whether the report falls by one to three at every step.
fn is_decreasing(list: &Vec<i64>) -> (r: bool)
    ensures
        r == decreasing_ok(list@),
{
    let n = list.len();
    let mut k: usize = 0;
    while n > 0 && k < n - 1
        invariant
            k <= n,
            n == list@.len(),
            forall|j: int| 0 <= j < k ==> 1 <= #[trigger] list@[j] - list@[j + 1] <= 3,
        decreases n - k,
    {
        let a = list[k] as i128;
        let b = list[k + 1] as i128;
        let d = a - b;
        if !(1 <= d && d <= 3) {
            return false;
        }
        k = k + 1;
    }
    true
}

/// The report without its level at `index`.
fn list_without_element_at(list: &Vec<i64>, index: usize) -> (r: Vec<i64>)
    requires
        index < list@.len(),
    ensures
        r@ == list@.remove(index as int),
{
    let n = list.len();
    let mut out: Vec<i64> = Vec::new();
    let mut i: usize = 0;
    while i < n
        invariant
            i <= n,
            n == list@.len(),
            index < n,
            i <= index ==> out@ == list@.take(i as int),
            i > index ==> out@ == list@.remove(index as int).take(i - 1),
        decreases n - i,
    {
        if i != index {
            out.push(list[i]);
        }
        proof {
            if i < index {
                assert(out@ =~= list@.take(i + 1));
            } else if i == index {
                assert(out@ =~= list@.remove(index as int).take(i as int));
            } else {
                assert(out@ =~= list@.remove(index as int).take(i as int));
            }
        }
        i = i + 1;
    }
    proof {
        assert(list@.remove(index as int).take(n - 1) =~= list@.remove(index as int));
    }
    out
}

/// Removing a level away from a violating window keeps that window: the
/// two levels stay adjacent in the shortened report.
proof fn lemma_remove_keeps_pair(s: Seq<i64>, j: int, k: int)
    requires
        0 <= j < s.len() - 1,
        0 <= k < s.len(),
        k != j,
        k != j + 1,
    ensures
        ({
            let t = s.remove(k);
            let jj = if k < j {
                j - 1
            } else {
                j
            };
            &&& 0 <= jj < t.len() - 1
            &&& t[jj] == s[j]
            &&& t[jj + 1] == s[j + 1]
        }),
{
}

/// Whether the report rises correctly, possibly after dropping one level.
fn is_increasing_with_one_skipped(list: &Vec<i64>) -> (r: bool)
    ensures
        r == increasing_with_skip_ok(list@),
{
    let ghost s = list@;
    let n = list.len();
    let mut k: usize = 0;
    while n > 0 && k < n - 1
        invariant
            k <= n,
            n == s.len(),
            list@ == s,
            forall|j: int| 0 <= j < k ==> 1 <= s[j + 1] - #[trigger] s[j] <= 3,
        decreases n - k,
    {
        let a = list[k] as i128;
        let b = list[k + 1] as i128;
        let d = b - a;
        if !(1 <= d && d <= 3) {
            let without_first = list_without_element_at(list, k);
            let without_second = list_without_element_at(list, k + 1);
            let r1 = is_increasing(&without_first);
            let r2 = is_increasing(&without_second);
            proof {
                if !r1 && !r2 {
                    assert(!increasing_ok(s)) by {
                        assert(!(1 <= s[k + 1] - s[k as int] <= 3));
                    }
                    assert forall|m: int| 0 <= m < s.len() implies !increasing_ok(
                        #[trigger] s.remove(m),
                    ) by {
                        if m != k && m != k + 1 {
                            lemma_remove_keeps_pair(s, k as int, m);
                            let t = s.remove(m);
                            let jj = if m < k {
                                k - 1
                            } else {
                                k as int
                            };
                            assert(!(1 <= t[jj + 1] - t[jj] <= 3));
                        }
                    }
                } else {
                    if r1 {
                        assert(increasing_ok(s.remove(k as int)));
                    } else {
                        assert(increasing_ok(s.remove(k + 1)));
                    }
                }
            }
            return r1 || r2;
        }
        k = k + 1;
    }
    proof {
        assert(increasing_ok(s));
    }
    true
}

/// Whether the report falls correctly, possibly after dropping one level.
fn is_decreasing_with_one_skipped(list: &Vec<i64>) -> (r: bool)
    ensures
        r == decreasing_with_skip_ok(list@),
{
    let ghost s = list@;
    let n = list.len();
    let mut k: usize = 0;
    while n > 0 && k < n - 1
        invariant
            k <= n,
            n == s.len(),
            list@ == s,
            forall|j: int| 0 <= j < k ==> 1 <= #[trigger] s[j] - s[j + 1] <= 3,
        decreases n - k,
    {
        let a = list[k] as i128;
        let b = list[k + 1] as i128;
        let d = a - b;
        if !(1 <= d && d <= 3) {
            let without_first = list_without_element_at(list, k);
            let without_second = list_without_element_at(list, k + 1);
            let r1 = is_decreasing(&without_first);
            let r2 = is_decreasing(&without_second);
            proof {
                if !r1 && !r2 {
                    assert(!decreasing_ok(s)) by {
                        assert(!(1 <= s[k as int] - s[k + 1] <= 3));
                    }
                    assert forall|m: int| 0 <= m < s.len() implies !decreasing_ok(
                        #[trigger] s.remove(m),
                    ) by {
                        if m != k && m != k + 1 {
                            lemma_remove_keeps_pair(s, k as int, m);
                            let t = s.remove(m);
                            let jj = if m < k {
                                k - 1
                            } else {
                                k as int
                            };
                            assert(!(1 <= t[jj] - t[jj + 1] <= 3));
                        }
                    }
                } else {
                    if r1 {
                        assert(decreasing_ok(s.remove(k as int)));
                    } else {
                        assert(decreasing_ok(s.remove(k + 1)));
                    }
                }
            }
            return r1 || r2;
        }
        k = k + 1;
    }
    proof {
        assert(decreasing_ok(s));
    }
    true
}

} // verus!
