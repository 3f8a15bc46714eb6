//! Bridge Repair: operator insertions that satisfy each equation.

use vstd::prelude::*;
use crate::multi_line_parser::{lines_of, MultiLineParser};
use crate::parser::{lemma_row_values_nonneg, numbers_in_row, row_values};
use crate::text::{
    add_sat, clamp_i64, dec_string, i64_to_string, lemma_clamp_mul10, mul_sat, num_digits, pow10,
};

verus! {

/// The operands after the first two are folded into `combined`: the test
/// value stays in front.
pub open spec fn folded(nums: Seq<i64>, combined: i64) -> Seq<i64> {
    seq![nums[0], combined] + nums.skip(3)
}

/// Whether inserting additions and multiplications left to right between
/// the operands can reach the test value in front, each step clamped to
/// the signed 64-bit range as the search computes it.
pub open spec fn can_make(nums: Seq<i64>) -> bool
    decreases nums.len(),
{
    if nums.len() < 2 {
        false
    } else if nums.len() == 2 {
        nums[0] == nums[1]
    } else {
        can_make(folded(nums, clamp_i64(nums[1] + nums[2]))) || can_make(
            folded(nums, clamp_i64(nums[1] as int * nums[2] as int)),
        )
    }
}

/// The decimal digits of `b` appended to those of `a`, every step clamped
/// to the signed 64-bit range; a negative `b` merely adds.
pub open spec fn concat_val(a: i64, b: i64) -> i64 {
    if b >= 0 {
        clamp_i64(clamp_i64(a as int * pow10(num_digits(b as int))) as int + b)
    } else {
        clamp_i64(a + b)
    }
}

/// As `can_make`, with decimal concatenation as a third operator.
pub open spec fn can_make_concat(nums: Seq<i64>) -> bool
    decreases nums.len(),
{
    if nums.len() < 2 {
        false
    } else if nums.len() == 2 {
        nums[0] == nums[1]
    } else {
        can_make_concat(folded(nums, clamp_i64(nums[1] + nums[2]))) || can_make_concat(
            folded(nums, clamp_i64(nums[1] as int * nums[2] as int)),
        ) || can_make_concat(folded(nums, concat_val(nums[1], nums[2])))
    }
}

/// Sum of the test values of the satisfiable equations, each row read as
/// its clamped digit runs, the test value first.
pub open spec fn calibration_total(rows: Seq<Seq<char>>, with_concat: bool) -> int
    decreases rows.len(),
{
    if rows.len() == 0 {
        0
    } else {
        let e = row_values(rows.last());
        let ok = if with_concat {
            can_make(e) || can_make_concat(e)
        } else {
            can_make(e)
        };
        calibration_total(rows.drop_last(), with_concat) + if ok {
            e[0] as int
        } else {
            0int
        }
    }
}

/// A calibration total is never negative.
proof fn lemma_calibration_total_nonneg(rows: Seq<Seq<char>>, with_concat: bool)
    ensures
        calibration_total(rows, with_concat) >= 0,
    decreases rows.len(),
{
    if rows.len() > 0 {
        lemma_calibration_total_nonneg(rows.drop_last(), with_concat);
        let e = row_values(rows.last());
        lemma_row_values_nonneg(rows.last());
        let ok = if with_concat {
            can_make(e) || can_make_concat(e)
        } else {
            can_make(e)
        };
        if ok {
            assert(e.len() >= 2);
            assert(e[0] >= 0);
        }
    }
}

/// Sum of the test values of the equations that addition and
/// multiplication can satisfy, clamped to the signed 64-bit range.
pub fn part1(input: String) -> (r: String)
    ensures
        r@ == dec_string(clamp_i64(calibration_total(lines_of(input@), false)) as int),
{
    let ghost rows = lines_of(input@);
    let equations = parse_input(input);
    let mut sum: i64 = 0;
    let mut i: usize = 0;
    proof {
        assert(rows.take(0) =~= Seq::<Seq<char>>::empty());
    }
    while i < equations.len()
        invariant
            i <= equations@.len(),
            equations@.len() == rows.len(),
            forall|k: int| 0 <= k < rows.len() ==> (#[trigger] equations@[k])@ == row_values(
                rows[k],
            ),
            sum == clamp_i64(calibration_total(rows.take(i as int), false)),
        decreases equations@.len() - i,
    {
        proof {
            assert(rows.take(i + 1).drop_last() =~= rows.take(i as int));
            assert(rows.take(i + 1).last() == rows[i as int]);
            lemma_calibration_total_nonneg(rows.take(i as int), false);
            lemma_row_values_nonneg(rows[i as int]);
        }
        if can_be_verified(&equations[i]) {
            let e = &equations[i];
            sum = add_sat(sum, e[0]);
        }
        i = i + 1;
    }
    proof {
        assert(rows.take(rows.len() as int) =~= rows);
    }
    i64_to_string(sum)
}

/// As `part1`, with digit concatenation allowed as a third operator.
pub fn part2(input: String) -> (r: String)
    ensures
        r@ == dec_string(clamp_i64(calibration_total(lines_of(input@), true)) as int),
{
    let ghost rows = lines_of(input@);
    let equations = parse_input(input);
    let mut sum: i64 = 0;
    let mut i: usize = 0;
    proof {
        assert(rows.take(0) =~= Seq::<Seq<char>>::empty());
    }
    while i < equations.len()
        invariant
            i <= equations@.len(),
            equations@.len() == rows.len(),
            forall|k: int| 0 <= k < rows.len() ==> (#[trigger] equations@[k])@ == row_values(
                rows[k],
            ),
            sum == clamp_i64(calibration_total(rows.take(i as int), true)),
        decreases equations@.len() - i,
    {
        proof {
            assert(rows.take(i + 1).drop_last() =~= rows.take(i as int));
            assert(rows.take(i + 1).last() == rows[i as int]);
            lemma_calibration_total_nonneg(rows.take(i as int), true);
            lemma_row_values_nonneg(rows[i as int]);
        }
        if can_be_verified(&equations[i]) || can_be_verified_part2(&equations[i]) {
            let e = &equations[i];
            sum = add_sat(sum, e[0]);
        }
        i = i + 1;
    }
    proof {
        assert(rows.take(rows.len() as int) =~= rows);
    }
    i64_to_string(sum)
}

/// One equation per line: the test value first, then the operands.
fn parse_input(input: String) -> (equations: Vec<Vec<i64>>)
    ensures
        equations@.len() == lines_of(input@).len(),
        forall|k: int| 0 <= k < equations@.len() ==> (#[trigger] equations@[k])@ == row_values(
            lines_of(input@)[k],
        ),
{
    let ghost rows = lines_of(input@);
    let grid = MultiLineParser::new(input.as_str());
    let nrows = grid.len();
    let mut equations: Vec<Vec<i64>> = Vec::new();
    let mut i: usize = 0;
    while i < nrows
        invariant
            i <= nrows,
            nrows == rows.len(),
            grid.rows() == rows,
            equations@.len() == i,
            forall|k: int| 0 <= k < i ==> (#[trigger] equations@[k])@ == row_values(rows[k]),
        decreases nrows - i,
    {
        equations.push(numbers_in_row(grid.row_chars(i)));
        i = i + 1;
    }
    equations
}

/// The operands after folding the first two into one with `combined`.
fn fold_front(nums: &Vec<i64>, combined: i64) -> (r: Vec<i64>)
    requires
        nums@.len() >= 3,
    ensures
        r@ == folded(nums@, combined),
{
    let mut out: Vec<i64> = Vec::new();
    out.push(nums[0]);
    out.push(combined);
    let n = nums.len();
    let mut i: usize = 3;
    while i < n
        invariant
            3 <= i <= n,
            n == nums@.len(),
            out@ == seq![nums@[0], combined] + nums@.subrange(3, i as int),
        decreases n - i,
    {
        out.push(nums[i]);
        proof {
            assert(out@ =~= seq![nums@[0], combined] + nums@.subrange(3, i + 1));
        }
        i = i + 1;
    }
    proof {
        assert(nums@.subrange(3, n as int) =~= nums@.skip(3));
        assert(out@ =~= folded(nums@, combined));
    }
    out
}

/// Whether inserting additions and multiplications left to right between
/// the operands can reach the test value.
fn can_be_verified(nums: &Vec<i64>) -> (r: bool)
    ensures
        r == can_make(nums@),
        r ==> nums@.len() >= 2,
    decreases nums@.len(),
{
    if nums.len() < 2 {
        return false;
    }
    if nums.len() == 2 {
        return nums[0] == nums[1];
    }
    let sum_nums = fold_front(nums, add_sat(nums[1], nums[2]));
    let mul_nums = fold_front(nums, mul_sat(nums[1], nums[2]));
    can_be_verified(&sum_nums) || can_be_verified(&mul_nums)
}

/// The decimal digits of `b` appended to those of `a`, each step clamped
/// to the signed 64-bit range.
fn concat_numbers(a: i64, b: i64) -> (r: i64)
    ensures
        r == concat_val(a, b),
{
    if b < 0 {
        return add_sat(a, b);
    }
    if b == 0 {
        proof {
            assert(num_digits(0) == 1);
            assert(pow10(0) == 1);
            assert(pow10(1) == 10);
        }
        return mul_sat(a, 10);
    }
    let mut shifted = a;
    let mut rest = b;
    let ghost mut k: int = 0;
    while rest > 0
        invariant
            b >= 1,
            rest >= 0,
            k >= 0,
            shifted == clamp_i64(a as int * pow10(k)),
            num_digits(b as int) == k + (if rest > 0 {
                num_digits(rest as int)
            } else {
                0int
            }),
        decreases rest,
    {
        proof {
            let p = pow10(k);
            assert(pow10(k + 1) == 10 * p);
            assert(a as int * (10 * p) == 10 * (a as int * p)) by (nonlinear_arith);
            lemma_clamp_mul10(a as int * p);
        }
        shifted = mul_sat(shifted, 10);
        rest = rest / 10;
        proof {
            k = k + 1;
        }
    }
    add_sat(shifted, b)
}

/// As `can_be_verified`, with digit concatenation as a third operator.
fn can_be_verified_part2(nums: &Vec<i64>) -> (r: bool)
    ensures
        r == can_make_concat(nums@),
        r ==> nums@.len() >= 2,
    decreases nums@.len(),
{
    if nums.len() < 2 {
        return false;
    }
    if nums.len() == 2 {
        return nums[0] == nums[1];
    }
    let sum_nums = fold_front(nums, add_sat(nums[1], nums[2]));
    let mul_nums = fold_front(nums, mul_sat(nums[1], nums[2]));
    let concat_nums = fold_front(nums, concat_numbers(nums[1], nums[2]));
    can_be_verified_part2(&sum_nums) || can_be_verified_part2(&mul_nums) || can_be_verified_part2(
        &concat_nums,
    )
}

} // verus!
