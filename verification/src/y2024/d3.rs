//! Mull It Over: multiplication instructions in a corrupted memory dump.

use vstd::prelude::*;
use crate::parser::{
    digit_run_end, excise_from, find_from, lemma_digit_run_end, lemma_find_from, Parser,
};
use crate::text::{
    add_sat, all_digits, clamp_i64, dec_string, i64_to_string, lemma_seq_value_nonneg, mul_sat,
    seq_value,
};

verus! {

/// The operand pairs of every `mul(a,b)` instruction of `text` from `pos`
/// on, in reading order: after each `mul(` opener, a digit run closed by a
/// comma and a digit run closed by a parenthesis, a malformed or oversized
/// operand counting as zero with its digits consumed.
pub open spec fn mul_pairs(text: Seq<char>, pos: int) -> Seq<(i64, i64)>
    decreases text.len() - pos,
    when 0 <= pos <= text.len()
    via mul_pairs_decreases
{
    let f = find_from(text, "mul("@, pos);
    if f < 0 {
        Seq::empty()
    } else {
        let c0 = f + 4;
        let e1 = digit_run_end(text, c0);
        let v1 = seq_value(text.subrange(c0, e1));
        let d1 = e1 < text.len() && text[e1] == ',';
        let a: int = if d1 && e1 > c0 && v1 <= i64::MAX {
            v1
        } else {
            0
        };
        let p1: int = if d1 {
            e1 + 1
        } else {
            e1
        };
        let e2 = digit_run_end(text, p1);
        let v2 = seq_value(text.subrange(p1, e2));
        let d2 = e2 < text.len() && text[e2] == ')';
        let b: int = if d2 && e2 > p1 && v2 <= i64::MAX {
            v2
        } else {
            0
        };
        let p2: int = if d2 {
            e2 + 1
        } else {
            e2
        };
        seq![(a as i64, b as i64)] + mul_pairs(text, p2)
    }
}

#[via_fn]
proof fn mul_pairs_decreases(text: Seq<char>, pos: int) {
    reveal_strlit("mul(");
    lemma_find_from(text, "mul("@, pos);
    let f = find_from(text, "mul("@, pos);
    if f >= 0 {
        lemma_digit_run_end(text, f + 4);
        let e1 = digit_run_end(text, f + 4);
        let p1: int = if e1 < text.len() && text[e1] == ',' {
            e1 + 1
        } else {
            e1
        };
        lemma_digit_run_end(text, p1);
    }
}

/// Every operand of every pair is non-negative.
pub proof fn lemma_mul_pairs_nonneg(text: Seq<char>, pos: int)
    requires
        0 <= pos <= text.len(),
    ensures
        forall|k: int|
            0 <= k < mul_pairs(text, pos).len() ==> (#[trigger] mul_pairs(text, pos)[k]).0 >= 0
                && mul_pairs(text, pos)[k].1 >= 0,
    decreases text.len() - pos,
{
    reveal_strlit("mul(");
    lemma_find_from(text, "mul("@, pos);
    let f = find_from(text, "mul("@, pos);
    if f >= 0 {
        lemma_digit_run_end(text, f + 4);
        let e1 = digit_run_end(text, f + 4);
        lemma_seq_value_nonneg(text.subrange(f + 4, e1));
        let p1: int = if e1 < text.len() && text[e1] == ',' {
            e1 + 1
        } else {
            e1
        };
        lemma_digit_run_end(text, p1);
        let e2 = digit_run_end(text, p1);
        lemma_seq_value_nonneg(text.subrange(p1, e2));
        let p2: int = if e2 < text.len() && text[e2] == ')' {
            e2 + 1
        } else {
            e2
        };
        lemma_mul_pairs_nonneg(text, p2);
        assert forall|k: int| 0 <= k < mul_pairs(text, pos).len() implies (#[trigger] mul_pairs(
            text,
            pos,
        )[k]).0 >= 0 && mul_pairs(text, pos)[k].1 >= 0 by {
            if k > 0 {
                assert(mul_pairs(text, pos)[k] == mul_pairs(text, p2)[k - 1]);
            }
        }
    }
}

/// Sum of the products of the pairs, each product clamped to the signed
/// 64-bit range.
pub open spec fn pairs_total(ps: Seq<(i64, i64)>) -> int
    decreases ps.len(),
{
    if ps.len() == 0 {
        0
    } else {
        pairs_total(ps.drop_last()) + clamp_i64(ps.last().0 as int * ps.last().1 as int) as int
    }
}

/// A total over non-negative pairs is non-negative.
proof fn lemma_pairs_total_nonneg(ps: Seq<(i64, i64)>)
    requires
        forall|k: int| 0 <= k < ps.len() ==> (#[trigger] ps[k]).0 >= 0 && ps[k].1 >= 0,
    ensures
        pairs_total(ps) >= 0,
    decreases ps.len(),
{
    if ps.len() > 0 {
        lemma_pairs_total_nonneg(ps.drop_last());
        let a = ps.last().0 as int;
        let b = ps.last().1 as int;
        assert(a * b >= 0) by (nonlinear_arith)
            requires
                a >= 0,
                b >= 0,
        ;
    }
}

/// Sum of the products of every well-formed multiplication instruction in
/// the corrupted memory dump, clamped to the signed 64-bit range.
pub fn part1(input: String) -> (r: String)
    ensures
        r@ == dec_string(clamp_i64(pairs_total(mul_pairs(input@, 0))) as int),
{
    let nums = parse_input(input.as_str());
    let ghost ps = mul_pairs(input@, 0);
    proof {
        lemma_mul_pairs_nonneg(input@, 0);
    }
    let mut sum: i64 = 0;
    let mut i: usize = 0;
    proof {
        assert(ps.take(0) =~= Seq::<(i64, i64)>::empty());
    }
    while i < nums.len()
        invariant
            i <= nums@.len(),
            nums@ == ps,
            forall|k: int| 0 <= k < ps.len() ==> (#[trigger] ps[k]).0 >= 0 && ps[k].1 >= 0,
            sum == clamp_i64(pairs_total(ps.take(i as int))),
        decreases nums@.len() - i,
    {
        let (a, b) = nums[i];
        proof {
            assert(ps.take(i + 1).drop_last() =~= ps.take(i as int));
            assert(ps.take(i + 1).last() == ps[i as int]);
            assert forall|k: int| 0 <= k < ps.take(i as int).len() implies (#[trigger] ps.take(
                i as int,
            )[k]).0 >= 0 && ps.take(i as int)[k].1 >= 0 by {
                assert(ps.take(i as int)[k] == ps[k]);
            }
            lemma_pairs_total_nonneg(ps.take(i as int));
            assert(a as int * b as int >= 0) by (nonlinear_arith)
                requires
                    a >= 0,
                    b >= 0,
            ;
        }
        sum = add_sat(sum, mul_sat(a, b));
        i = i + 1;
    }
    proof {
        assert(ps.take(ps.len() as int) =~= ps);
    }
    i64_to_string(sum)
}

/// As `part1`, with every stretch between a disabling marker and the next
/// enabling marker excised first.
pub fn part2(input: String) -> (r: String)
    ensures
        r@ == dec_string(
            clamp_i64(
                pairs_total(mul_pairs(excise_from(input@, "don't()"@, "do()"@, 0), 0)),
            ) as int,
        ),
{
    let mut parser = Parser::new(input.as_str());
    proof {
        reveal_strlit("don't()");
        reveal_strlit("do()");
    }
    let kept = parser.delete_between("don't()", "do()");
    part1(kept)
}

/// Every `mul(a,b)` instruction in reading order; a malformed operand
/// counts as zero, as the scan has consumed its digits either way.
fn parse_input(input: &str) -> (results: Vec<(i64, i64)>)
    ensures
        results@ == mul_pairs(input@, 0),
{
    let ghost t = input@;
    let mut parser = Parser::new(input);
    let mut results: Vec<(i64, i64)> = Vec::new();
    proof {
        assert(results@ + mul_pairs(t, 0) =~= mul_pairs(t, 0));
    }
    loop
        invariant
            parser.wf(),
            parser.text() == t,
            mul_pairs(t, 0) == results@ + mul_pairs(t, parser.at()),
        ensures
            results@ == mul_pairs(t, 0),
        decreases parser.text().len() - parser.at(),
    {
        proof {
            reveal_strlit("mul(");
        }
        let ghost pos = parser.at();
        let found = parser.advance_to("mul(");
        proof {
            lemma_find_from(t, "mul("@, pos);
        }
        if !found {
            proof {
                assert(mul_pairs(t, pos) =~= Seq::<(i64, i64)>::empty());
                assert(results@ =~= mul_pairs(t, 0));
            }
            break;
        }
        let ghost f = find_from(t, "mul("@, pos);
        let ghost c0 = parser.at();
        proof {
            assert(c0 == f + 4);
            lemma_digit_run_end(t, c0);
            lemma_seq_value_nonneg(t.subrange(c0, digit_run_end(t, c0)));
        }
        let num1 = parser.match_number_up_to(',');
        let ghost p1 = parser.at();
        proof {
            lemma_digit_run_end(t, p1);
            lemma_seq_value_nonneg(t.subrange(p1, digit_run_end(t, p1)));
        }
        let num2 = parser.match_number_up_to(')');
        let a = match num1 {
            Option::Some(v) => v,
            Option::None => 0,
        };
        let b = match num2 {
            Option::Some(v) => v,
            Option::None => 0,
        };
        results.push((a, b));
        proof {
            assert(mul_pairs(t, pos) == seq![(a, b)] + mul_pairs(t, parser.at()));
            assert(mul_pairs(t, 0) =~= results@ + mul_pairs(t, parser.at()));
        }
    }
    results
}

} // verus!
