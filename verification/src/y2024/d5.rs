//! Print Queue: page updates against ordering rules.

use vstd::prelude::*;
use vstd::string::StrSliceExecFns;
use crate::multi_line_parser::{lines_of, MultiLineParser};
use crate::parser::{find_from, lemma_row_values_nonneg, numbers_in_row, row_values, Parser};
use crate::text::{add_sat, clamp_i64, dec_string, i64_to_string};

verus! {

/// The rules half of the input: everything before the first blank line,
/// or the whole input when there is none.
pub open spec fn rule_half(input: Seq<char>) -> Seq<char> {
    let f = find_from(input, "\n\n"@, 0);
    if f >= 0 {
        input.take(f)
    } else {
        input
    }
}

/// The updates half of the input: everything after the first blank line,
/// or nothing when there is none.
pub open spec fn pages_half(input: Seq<char>) -> Seq<char> {
    let f = find_from(input, "\n\n"@, 0);
    if f >= 0 {
        input.skip(f + 2)
    } else {
        Seq::empty()
    }
}

/// Each non-empty line of `text` as its clamped digit-run values.
pub open spec fn number_rows(text: Seq<char>) -> Seq<Seq<i64>> {
    lines_of(text).map_values(|row: Seq<char>| row_values(row))
}

/// Whether the rules hold a rule placing `a` before `b`.
pub open spec fn rule_in(orders: Seq<Seq<i64>>, a: i64, b: i64) -> bool {
    exists|i: int|
        0 <= i < orders.len() && (#[trigger] orders[i]).len() >= 2 && orders[i][0] == a
            && orders[i][1] == b
}

/// Whether no rule places a later page of the update before an earlier
/// one.
pub open spec fn page_ordered(page: Seq<i64>, orders: Seq<Seq<i64>>) -> bool {
    forall|x: int, y: int|
        0 <= x < y < page.len() ==> !rule_in(orders, #[trigger] page[y], #[trigger] page[x])
}

/// `x` placed before the first element a rule orders it ahead of.
pub open spec fn insert_by_rules(x: i64, s: Seq<i64>, orders: Seq<Seq<i64>>) -> Seq<i64>
    decreases s.len(),
{
    if s.len() == 0 {
        seq![x]
    } else if !rule_in(orders, x, s[0]) {
        seq![s[0]] + insert_by_rules(x, s.drop_first(), orders)
    } else {
        seq![x] + s
    }
}

/// The update rearranged by insertion under the ordering rules.
pub open spec fn sort_by_rules(page: Seq<i64>, orders: Seq<Seq<i64>>) -> Seq<i64>
    decreases page.len(),
{
    if page.len() == 0 {
        page
    } else {
        insert_by_rules(page.last(), sort_by_rules(page.drop_last(), orders), orders)
    }
}

/// Rearranging keeps the page count.
proof fn lemma_sort_by_rules_len(page: Seq<i64>, orders: Seq<Seq<i64>>)
    ensures
        sort_by_rules(page, orders).len() == page.len(),
    decreases page.len(),
{
    if page.len() > 0 {
        lemma_sort_by_rules_len(page.drop_last(), orders);
        lemma_insert_by_rules_len(page.last(), sort_by_rules(page.drop_last(), orders), orders);
    }
}

/// Insertion grows a sequence by one.
proof fn lemma_insert_by_rules_len(x: i64, s: Seq<i64>, orders: Seq<Seq<i64>>)
    ensures
        insert_by_rules(x, s, orders).len() == s.len() + 1,
    decreases s.len(),
{
    if s.len() > 0 && !rule_in(orders, x, s[0]) {
        lemma_insert_by_rules_len(x, s.drop_first(), orders);
    }
}

/// Every page value of every update row is non-negative.
proof fn lemma_number_rows_nonneg(text: Seq<char>)
    ensures
        forall|k: int, e: int|
            0 <= k < number_rows(text).len() && 0 <= e < number_rows(text)[k].len()
                ==> #[trigger] number_rows(text)[k][e] >= 0,
{
    assert forall|k: int, e: int|
        0 <= k < number_rows(text).len() && 0 <= e < number_rows(text)[k].len() implies #[trigger] number_rows(
        text,
    )[k][e] >= 0 by {
        lemma_row_values_nonneg(lines_of(text)[k]);
        assert(number_rows(text)[k] == row_values(lines_of(text)[k]));
    }
}

/// Insertion among non-negative values yields non-negative values.
proof fn lemma_insert_by_rules_nonneg(x: i64, s: Seq<i64>, orders: Seq<Seq<i64>>)
    requires
        x >= 0,
        forall|k: int| 0 <= k < s.len() ==> #[trigger] s[k] >= 0,
    ensures
        forall|k: int| 0 <= k < insert_by_rules(x, s, orders).len() ==> #[trigger] insert_by_rules(
            x,
            s,
            orders,
        )[k] >= 0,
    decreases s.len(),
{
    let t = insert_by_rules(x, s, orders);
    if s.len() == 0 {
    } else if !rule_in(orders, x, s[0]) {
        let rest = s.drop_first();
        assert forall|k: int| 0 <= k < rest.len() implies #[trigger] rest[k] >= 0 by {
            assert(rest[k] == s[k + 1]);
        }
        lemma_insert_by_rules_nonneg(x, rest, orders);
        assert forall|k: int| 0 <= k < t.len() implies #[trigger] t[k] >= 0 by {
            if k > 0 {
                assert(t[k] == insert_by_rules(x, rest, orders)[k - 1]);
            }
        }
    } else {
        assert forall|k: int| 0 <= k < t.len() implies #[trigger] t[k] >= 0 by {
            if k > 0 {
                assert(t[k] == s[k - 1]);
            }
        }
    }
}

/// Rearranging non-negative values keeps them non-negative.
proof fn lemma_sort_by_rules_nonneg(page: Seq<i64>, orders: Seq<Seq<i64>>)
    requires
        forall|k: int| 0 <= k < page.len() ==> #[trigger] page[k] >= 0,
    ensures
        forall|k: int| 0 <= k < sort_by_rules(page, orders).len() ==> #[trigger] sort_by_rules(
            page,
            orders,
        )[k] >= 0,
    decreases page.len(),
{
    if page.len() > 0 {
        let rest = page.drop_last();
        assert forall|k: int| 0 <= k < rest.len() implies #[trigger] rest[k] >= 0 by {
            assert(rest[k] == page[k]);
        }
        lemma_sort_by_rules_nonneg(rest, orders);
        lemma_insert_by_rules_nonneg(page.last(), sort_by_rules(rest, orders), orders);
    }
}

/// An ordered-middle total over non-negative updates is non-negative.
proof fn lemma_middle_total_ordered_nonneg(pages: Seq<Seq<i64>>, orders: Seq<Seq<i64>>)
    requires
        forall|k: int, e: int|
            0 <= k < pages.len() && 0 <= e < pages[k].len() ==> #[trigger] pages[k][e] >= 0,
    ensures
        middle_total_ordered(pages, orders) >= 0,
    decreases pages.len(),
{
    if pages.len() > 0 {
        let rest = pages.drop_last();
        assert forall|k: int, e: int|
            0 <= k < rest.len() && 0 <= e < rest[k].len() implies #[trigger] rest[k][e] >= 0 by {
            assert(rest[k] == pages[k]);
        }
        lemma_middle_total_ordered_nonneg(rest, orders);
    }
}

/// A sorted-middle total over non-negative updates is non-negative.
proof fn lemma_middle_total_sorted_nonneg(pages: Seq<Seq<i64>>, orders: Seq<Seq<i64>>)
    requires
        forall|k: int, e: int|
            0 <= k < pages.len() && 0 <= e < pages[k].len() ==> #[trigger] pages[k][e] >= 0,
    ensures
        middle_total_sorted(pages, orders) >= 0,
    decreases pages.len(),
{
    if pages.len() > 0 {
        let rest = pages.drop_last();
        assert forall|k: int, e: int|
            0 <= k < rest.len() && 0 <= e < rest[k].len() implies #[trigger] rest[k][e] >= 0 by {
            assert(rest[k] == pages[k]);
        }
        lemma_middle_total_sorted_nonneg(rest, orders);
        let p = pages.last();
        if p.len() > 0 && !page_ordered(p, orders) {
            assert forall|k: int| 0 <= k < p.len() implies #[trigger] p[k] >= 0 by {
                assert(pages[pages.len() - 1][k] >= 0);
            }
            lemma_sort_by_rules_nonneg(p, orders);
            lemma_sort_by_rules_len(p, orders);
        }
    }
}

/// Sum of the middle pages of the correctly ordered updates.
pub open spec fn middle_total_ordered(pages: Seq<Seq<i64>>, orders: Seq<Seq<i64>>) -> int
    decreases pages.len(),
{
    if pages.len() == 0 {
        0
    } else {
        let p = pages.last();
        middle_total_ordered(pages.drop_last(), orders) + if p.len() > 0 && page_ordered(
            p,
            orders,
        ) {
            p[p.len() as int / 2] as int
        } else {
            0int
        }
    }
}

/// Sum of the middle pages of the incorrectly ordered updates after
/// rearranging each by the rules.
pub open spec fn middle_total_sorted(pages: Seq<Seq<i64>>, orders: Seq<Seq<i64>>) -> int
    decreases pages.len(),
{
    if pages.len() == 0 {
        0
    } else {
        let p = pages.last();
        let sp = sort_by_rules(p, orders);
        middle_total_sorted(pages.drop_last(), orders) + if p.len() > 0 && !page_ordered(
            p,
            orders,
        ) {
            sp[sp.len() as int / 2] as int
        } else {
            0int
        }
    }
}

/// Sum of the middle pages of the correctly ordered updates, clamped to
/// the signed 64-bit range.
pub fn part1(input: String) -> (r: String)
    ensures
        r@ == dec_string(
            clamp_i64(
                middle_total_ordered(
                    number_rows(pages_half(input@)),
                    number_rows(rule_half(input@)),
                ),
            ) as int,
        ),
{
    let ghost ps_half = pages_half(input@);
    let (orders, pages) = parse_input(input);
    let ghost ov = orders@.map_values(|v: Vec<i64>| v@);
    let ghost pv = pages@.map_values(|v: Vec<i64>| v@);
    proof {
        lemma_number_rows_nonneg(ps_half);
    }
    let mut sum: i64 = 0;
    let mut i: usize = 0;
    proof {
        assert(pv.take(0) =~= Seq::<Seq<i64>>::empty());
    }
    while i < pages.len()
        invariant
            i <= pages@.len(),
            ov == orders@.map_values(|v: Vec<i64>| v@),
            pv == pages@.map_values(|v: Vec<i64>| v@),
            pv == number_rows(ps_half),
            forall|k: int, e: int|
                0 <= k < pv.len() && 0 <= e < pv[k].len() ==> #[trigger] pv[k][e] >= 0,
            sum == clamp_i64(middle_total_ordered(pv.take(i as int), ov)),
        decreases pages@.len() - i,
    {
        proof {
            assert(pv.take(i + 1).drop_last() =~= pv.take(i as int));
            assert(pv.take(i + 1).last() == pv[i as int]);
            assert forall|k: int, e: int|
                0 <= k < pv.take(i as int).len() && 0 <= e < pv.take(i as int)[k].len()
                implies #[trigger] pv.take(i as int)[k][e] >= 0 by {
                assert(pv.take(i as int)[k] == pv[k]);
            }
            lemma_middle_total_ordered_nonneg(pv.take(i as int), ov);
        }
        let page = &pages[i];
        if page.len() > 0 && is_ordered(page, &orders) {
            proof {
                assert(pv[i as int][page@.len() as int / 2] >= 0);
            }
            sum = add_sat(sum, page[page.len() / 2]);
        }
        i = i + 1;
    }
    proof {
        assert(pv.take(pv.len() as int) =~= pv);
    }
    i64_to_string(sum)
}

/// Sum of the middle pages of the incorrectly ordered updates, after
/// sorting each by the ordering rules, clamped to the signed 64-bit range.
pub fn part2(input: String) -> (r: String)
    ensures
        r@ == dec_string(
            clamp_i64(
                middle_total_sorted(
                    number_rows(pages_half(input@)),
                    number_rows(rule_half(input@)),
                ),
            ) as int,
        ),
{
    let ghost ps_half = pages_half(input@);
    let (orders, pages) = parse_input(input);
    let ghost ov = orders@.map_values(|v: Vec<i64>| v@);
    let ghost pv = pages@.map_values(|v: Vec<i64>| v@);
    proof {
        lemma_number_rows_nonneg(ps_half);
    }
    let mut sum: i64 = 0;
    let mut i: usize = 0;
    proof {
        assert(pv.take(0) =~= Seq::<Seq<i64>>::empty());
    }
    while i < pages.len()
        invariant
            i <= pages@.len(),
            ov == orders@.map_values(|v: Vec<i64>| v@),
            pv == pages@.map_values(|v: Vec<i64>| v@),
            pv == number_rows(ps_half),
            forall|k: int, e: int|
                0 <= k < pv.len() && 0 <= e < pv[k].len() ==> #[trigger] pv[k][e] >= 0,
            sum == clamp_i64(middle_total_sorted(pv.take(i as int), ov)),
        decreases pages@.len() - i,
    {
        proof {
            assert(pv.take(i + 1).drop_last() =~= pv.take(i as int));
            assert(pv.take(i + 1).last() == pv[i as int]);
            assert forall|k: int, e: int|
                0 <= k < pv.take(i as int).len() && 0 <= e < pv.take(i as int)[k].len()
                implies #[trigger] pv.take(i as int)[k][e] >= 0 by {
                assert(pv.take(i as int)[k] == pv[k]);
            }
            lemma_middle_total_sorted_nonneg(pv.take(i as int), ov);
        }
        let page = &pages[i];
        if page.len() > 0 && !is_ordered(page, &orders) {
            let sorted_page = sort_using_order(page, &orders);
            proof {
                lemma_sort_by_rules_len(pv[i as int], ov);
                assert forall|k: int| 0 <= k < page@.len() implies #[trigger] page@[k] >= 0 by {
                    assert(pv[i as int][k] >= 0);
                }
                lemma_sort_by_rules_nonneg(page@, ov);
                assert(sorted_page@[sorted_page@.len() as int / 2] >= 0);
            }
            sum = add_sat(sum, sorted_page[sorted_page.len() / 2]);
        }
        i = i + 1;
    }
    proof {
        assert(pv.take(pv.len() as int) =~= pv);
    }
    i64_to_string(sum)
}

/// The ordering rules and the updates: the two blank-line-separated halves
/// of the input, each a list of number rows.
fn parse_input(input: String) -> (r: (Vec<Vec<i64>>, Vec<Vec<i64>>))
    ensures
        r.0@.map_values(|v: Vec<i64>| v@) == number_rows(rule_half(input@)),
        r.1@.map_values(|v: Vec<i64>| v@) == number_rows(pages_half(input@)),
{
    let mut parser = Parser::new(input.as_str());
    proof {
        reveal_strlit("\n\n");
    }
    let found = parser.advance_to("\n\n");
    let split_at = if found {
        parser.cursor()
    } else {
        input.as_str().unicode_len()
    };
    let first_end = if found {
        split_at - 2
    } else {
        split_at
    };
    let total = input.as_str().unicode_len();
    let first_half = input.as_str().substring_char(0, first_end);
    let second_half = input.as_str().substring_char(split_at, total);
    proof {
        assert(first_half@ == rule_half(input@));
        assert(second_half@ =~= pages_half(input@));
    }
    let orders = rows_of_numbers(first_half);
    let pages = rows_of_numbers(second_half);
    (orders, pages)
}

/// One list of clamped numbers per non-empty line.
fn rows_of_numbers(text: &str) -> (out: Vec<Vec<i64>>)
    ensures
        out@.map_values(|v: Vec<i64>| v@) == number_rows(text@),
{
    let ghost rows = lines_of(text@);
    let grid = MultiLineParser::new(text);
    let nrows = grid.len();
    let mut out: Vec<Vec<i64>> = Vec::new();
    let mut i: usize = 0;
    while i < nrows
        invariant
            i <= nrows,
            nrows == rows.len(),
            grid.rows() == rows,
            out@.len() == i,
            forall|k: int| 0 <= k < i ==> (#[trigger] out@[k])@ == row_values(rows[k]),
        decreases nrows - i,
    {
        out.push(numbers_in_row(grid.row_chars(i)));
        i = i + 1;
    }
    proof {
        assert(out@.map_values(|v: Vec<i64>| v@) =~= number_rows(text@));
    }
    out
}

/// Whether a rule `(a, b)` stands in the rules.
fn orders_contain(orders: &Vec<Vec<i64>>, a: i64, b: i64) -> (r: bool)
    ensures
        r == rule_in(orders@.map_values(|v: Vec<i64>| v@), a, b),
{
    let ghost ov = orders@.map_values(|v: Vec<i64>| v@);
    let n = orders.len();
    let mut i: usize = 0;
    while i < n
        invariant
            i <= n,
            n == ov.len(),
            ov == orders@.map_values(|v: Vec<i64>| v@),
            forall|k: int|
                0 <= k < i ==> !((#[trigger] ov[k]).len() >= 2 && ov[k][0] == a && ov[k][1] == b),
        decreases n - i,
    {
        let rule = &orders[i];
        if rule.len() >= 2 && rule[0] == a && rule[1] == b {
            proof {
                assert((#[trigger] ov[i as int]).len() >= 2 && ov[i as int][0] == a
                    && ov[i as int][1] == b);
            }
            return true;
        }
        i = i + 1;
    }
    false
}

/// Whether no rule places a later page of the update before an earlier one.
fn is_ordered(page: &Vec<i64>, orders: &Vec<Vec<i64>>) -> (r: bool)
    ensures
        r == page_ordered(page@, orders@.map_values(|v: Vec<i64>| v@)),
{
    let ghost ov = orders@.map_values(|v: Vec<i64>| v@);
    let n = page.len();
    let mut i: usize = 0;
    while i < n
        invariant
            i <= n,
            n == page@.len(),
            ov == orders@.map_values(|v: Vec<i64>| v@),
            forall|x: int, y: int|
                0 <= x < y < n && x < i ==> !rule_in(ov, #[trigger] page@[y], #[trigger] page@[x]),
        decreases n - i,
    {
        let mut j = i + 1;
        while j < n
            invariant
                i < j,
                j <= n,
                n == page@.len(),
                i < n,
                ov == orders@.map_values(|v: Vec<i64>| v@),
                forall|x: int, y: int|
                    0 <= x < y < n && x < i ==> !rule_in(
                        ov,
                        #[trigger] page@[y],
                        #[trigger] page@[x],
                    ),
                forall|y: int| i < y < j ==> !rule_in(ov, #[trigger] page@[y], page@[i as int]),
            decreases n - j,
        {
            if orders_contain(orders, page[j], page[i]) {
                proof {
                    assert(rule_in(ov, page@[j as int], page@[i as int]));
                }
                return false;
            }
            j = j + 1;
        }
        i = i + 1;
    }
    true
}

/// Placing `x` at the first position a rule orders it ahead of is exactly
/// the insertion the rule order asks for.
proof fn lemma_insert_by_rules_at(x: i64, s: Seq<i64>, orders: Seq<Seq<i64>>, pos: int)
    requires
        0 <= pos <= s.len(),
        forall|k: int| 0 <= k < pos ==> !rule_in(orders, x, #[trigger] s[k]),
        pos < s.len() ==> rule_in(orders, x, s[pos]),
    ensures
        insert_by_rules(x, s, orders) == s.insert(pos, x),
    decreases pos,
{
    if pos == 0 {
        if s.len() == 0 {
            assert(insert_by_rules(x, s, orders) =~= s.insert(0, x));
        } else {
            assert(insert_by_rules(x, s, orders) =~= s.insert(0, x));
        }
    } else {
        assert(!rule_in(orders, x, s[0]));
        let rest = s.drop_first();
        assert forall|k: int| 0 <= k < pos - 1 implies !rule_in(orders, x, #[trigger] rest[k]) by {
            assert(rest[k] == s[k + 1]);
        }
        lemma_insert_by_rules_at(x, rest, orders, pos - 1);
        assert(insert_by_rules(x, s, orders) =~= s.insert(pos, x));
    }
}

/// The update rearranged by the ordering rules: a page moves before
/// another when a rule demands it.
fn sort_using_order(page: &Vec<i64>, orders: &Vec<Vec<i64>>) -> (out: Vec<i64>)
    ensures
        out@ == sort_by_rules(page@, orders@.map_values(|v: Vec<i64>| v@)),
{
    let ghost ov = orders@.map_values(|v: Vec<i64>| v@);
    let n = page.len();
    let mut out: Vec<i64> = Vec::new();
    let mut i: usize = 0;
    proof {
        assert(page@.take(0) =~= Seq::<i64>::empty());
    }
    while i < n
        invariant
            i <= n,
            n == page@.len(),
            ov == orders@.map_values(|v: Vec<i64>| v@),
            out@ == sort_by_rules(page@.take(i as int), ov),
        decreases n - i,
    {
        let x = page[i];
        let m = out.len();
        let mut pos: usize = 0;
        while pos < m && !orders_contain(orders, x, out[pos])
            invariant
                pos <= m,
                m == out@.len(),
                ov == orders@.map_values(|v: Vec<i64>| v@),
                forall|k: int| 0 <= k < pos ==> !rule_in(ov, x, #[trigger] out@[k]),
            decreases m - pos,
        {
            pos = pos + 1;
        }
        let ghost out1 = out@;
        proof {
            lemma_insert_by_rules_at(x, out1, ov, pos as int);
            assert(page@.take(i + 1).drop_last() =~= page@.take(i as int));
            assert(page@.take(i + 1).last() == x);
        }
        out.insert(pos, x);
        i = i + 1;
    }
    proof {
        assert(page@.take(n as int) =~= page@);
    }
    out
}

} // verus!
