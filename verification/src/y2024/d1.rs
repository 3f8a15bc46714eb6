//! Historian Hysteria: distance and similarity of two location lists.

use vstd::prelude::*;
use vstd::seq_lib::group_to_multiset_ensures;
use crate::multi_line_parser::{lines_of, MultiLineParser};
use crate::parser::{lemma_row_values_nonneg, numbers_in_row, row_values};
use crate::text::{add_sat, clamp_i64, dec_string, i64_to_string, mul_sat, sub_sat};

verus! {

/// Whether `s` is in nondecreasing order.
pub open spec fn sorted(s: Seq<i64>) -> bool {
    forall|i: int, j: int| 0 <= i < j < s.len() ==> s[i] <= s[j]
}

/// `x` placed before the first larger element of the sorted `s`.
pub open spec fn insert_sorted(x: i64, s: Seq<i64>) -> Seq<i64>
    decreases s.len(),
{
    if s.len() == 0 {
        seq![x]
    } else if s[0] <= x {
        seq![s[0]] + insert_sorted(x, s.drop_first())
    } else {
        seq![x] + s
    }
}

/// The values of `s` in nondecreasing order, built by insertion.
pub open spec fn sort_spec(s: Seq<i64>) -> Seq<i64>
    decreases s.len(),
{
    if s.len() == 0 {
        s
    } else {
        insert_sorted(s.last(), sort_spec(s.drop_last()))
    }
}

/// The location pairs of the input: the first two numbers of every line
/// holding at least two.
pub open spec fn located_pairs(rows: Seq<Seq<char>>) -> Seq<(i64, i64)>
    decreases rows.len(),
{
    if rows.len() == 0 {
        Seq::empty()
    } else {
        located_pairs(rows.drop_last()) + if row_values(rows.last()).len() >= 2 {
            seq![(row_values(rows.last())[0], row_values(rows.last())[1])]
        } else {
            Seq::empty()
        }
    }
}

/// The left column of the pairs.
pub open spec fn lefts(ps: Seq<(i64, i64)>) -> Seq<i64> {
    ps.map_values(|p: (i64, i64)| p.0)
}

/// The right column of the pairs.
pub open spec fn rights(ps: Seq<(i64, i64)>) -> Seq<i64> {
    ps.map_values(|p: (i64, i64)| p.1)
}

/// Both components of every pair are non-negative.
proof fn lemma_located_pairs_nonneg(rows: Seq<Seq<char>>)
    ensures
        forall|k: int|
            0 <= k < located_pairs(rows).len() ==> (#[trigger] located_pairs(rows)[k]).0 >= 0
                && located_pairs(rows)[k].1 >= 0,
    decreases rows.len(),
{
    if rows.len() > 0 {
        lemma_located_pairs_nonneg(rows.drop_last());
        lemma_row_values_nonneg(rows.last());
        let ps0 = located_pairs(rows.drop_last());
        assert forall|k: int| 0 <= k < located_pairs(rows).len() implies (#[trigger] located_pairs(
            rows,
        )[k]).0 >= 0 && located_pairs(rows)[k].1 >= 0 by {
            if k < ps0.len() {
                assert(located_pairs(rows)[k] == ps0[k]);
            } else {
                assert(located_pairs(rows)[k] == (
                    row_values(rows.last())[0],
                    row_values(rows.last())[1],
                ));
            }
        }
    }
}

/// Sum over the aligned entries of the absolute difference, each clamped
/// to the signed 64-bit range; the longer column's tail is ignored.
pub open spec fn dist_total(sa: Seq<i64>, sb: Seq<i64>) -> int
    decreases sa.len(),
{
    if sa.len() == 0 || sb.len() == 0 {
        0
    } else {
        let d: int = if sa[0] >= sb[0] {
            sa[0] - sb[0]
        } else {
            sb[0] - sa[0]
        };
        clamp_i64(d) as int + dist_total(sa.drop_first(), sb.drop_first())
    }
}

/// A distance total is never negative.
proof fn lemma_dist_total_nonneg(sa: Seq<i64>, sb: Seq<i64>)
    ensures
        dist_total(sa, sb) >= 0,
    decreases sa.len(),
{
    if sa.len() > 0 && sb.len() > 0 {
        lemma_dist_total_nonneg(sa.drop_first(), sb.drop_first());
    }
}

/// How often `x` occurs in `s`.
pub open spec fn count_in(s: Seq<i64>, x: i64) -> int
    decreases s.len(),
{
    if s.len() == 0 {
        0
    } else {
        count_in(s.drop_last(), x) + if s.last() == x {
            1int
        } else {
            0int
        }
    }
}

/// Occurrence counts are never negative.
proof fn lemma_count_in_nonneg(s: Seq<i64>, x: i64)
    ensures
        count_in(s, x) >= 0,
    decreases s.len(),
{
    if s.len() > 0 {
        lemma_count_in_nonneg(s.drop_last(), x);
    }
}

/// Sum over the left column of each entry times its count in the right
/// column, products and counts clamped to the signed 64-bit range.
pub open spec fn sim_total(sa: Seq<i64>, sb: Seq<i64>) -> int
    decreases sa.len(),
{
    if sa.len() == 0 {
        0
    } else {
        sim_total(sa.drop_last(), sb) + clamp_i64(
            sa.last() as int * clamp_i64(count_in(sb, sa.last())) as int,
        ) as int
    }
}

/// A similarity total over non-negative entries is never negative.
proof fn lemma_sim_total_nonneg(sa: Seq<i64>, sb: Seq<i64>)
    requires
        forall|k: int| 0 <= k < sa.len() ==> #[trigger] sa[k] >= 0,
    ensures
        sim_total(sa, sb) >= 0,
    decreases sa.len(),
{
    if sa.len() > 0 {
        assert forall|k: int| 0 <= k < sa.drop_last().len() implies #[trigger] sa.drop_last()[k]
            >= 0 by {
            assert(sa.drop_last()[k] == sa[k]);
        }
        lemma_sim_total_nonneg(sa.drop_last(), sb);
        lemma_count_in_nonneg(sb, sa.last());
        let x = sa.last() as int;
        let c = clamp_i64(count_in(sb, sa.last())) as int;
        assert(x * c >= 0) by (nonlinear_arith)
            requires
                x >= 0,
                c >= 0,
        ;
    }
}

/// Placing `x` at the first position whose element exceeds it is exactly
/// the insertion the sorted order asks for.
proof fn lemma_insert_at_pos(x: i64, s: Seq<i64>, pos: int)
    requires
        0 <= pos <= s.len(),
        forall|k: int| 0 <= k < pos ==> #[trigger] s[k] <= x,
        pos < s.len() ==> s[pos] > x,
    ensures
        insert_sorted(x, s) == s.insert(pos, x),
    decreases pos,
{
    if pos == 0 {
        if s.len() == 0 {
            assert(insert_sorted(x, s) =~= s.insert(0, x));
        } else {
            assert(s[0] > x);
            assert(insert_sorted(x, s) =~= s.insert(0, x));
        }
    } else {
        assert(s[0] <= x);
        let rest = s.drop_first();
        assert forall|k: int| 0 <= k < pos - 1 implies #[trigger] rest[k] <= x by {
            assert(rest[k] == s[k + 1]);
        }
        lemma_insert_at_pos(x, rest, pos - 1);
        assert(insert_sorted(x, s) =~= s.insert(pos, x));
    }
}

/// The values of `v`, rearranged into nondecreasing order.
fn sort_i64(v: &Vec<i64>) -> (out: Vec<i64>)
    ensures
        out@ == sort_spec(v@),
        sorted(out@),
        out@.to_multiset() == v@.to_multiset(),
{
    broadcast use group_to_multiset_ensures;

    let n = v.len();
    let mut out: Vec<i64> = Vec::new();
    let mut i: usize = 0;
    proof {
        assert(v@.take(0) =~= Seq::<i64>::empty());
        assert(out@.to_multiset() =~= v@.take(0).to_multiset());
    }
    while i < n
        invariant
            i <= n,
            n == v@.len(),
            sorted(out@),
            out@ == sort_spec(v@.take(i as int)),
            out@.to_multiset() == v@.take(i as int).to_multiset(),
        decreases n - i,
    {
        let x = v[i];
        let m = out.len();
        let mut pos: usize = 0;
        while pos < m && out[pos] <= x
            invariant
                pos <= m,
                m == out@.len(),
                forall|k: int| 0 <= k < pos ==> #[trigger] out@[k] <= x,
            decreases m - pos,
        {
            pos = pos + 1;
        }
        let ghost out1 = out@;
        proof {
            lemma_insert_at_pos(x, out1, pos as int);
        }
        out.insert(pos, x);
        proof {
            out@.to_multiset_ensures();
            out1.to_multiset_ensures();
            v@.take(i as int).to_multiset_ensures();
            assert(out@.contains(x)) by {
                assert(out@[pos as int] == x);
            }
            assert(out@.to_multiset().count(x) > 0);
            assert(out@.remove(pos as int) =~= out1);
            assert(out@.remove(pos as int).to_multiset() =~= out1.to_multiset());
            assert(out@.to_multiset().remove(x) =~= out1.to_multiset());
            assert(out@.to_multiset() =~= out1.to_multiset().insert(x));
            assert(v@.take(i + 1) =~= v@.take(i as int).push(x));
            assert(v@.take(i + 1).to_multiset() =~= v@.take(i as int).to_multiset().insert(x));
            assert(v@.take(i + 1).drop_last() =~= v@.take(i as int));
            assert(out@ == sort_spec(v@.take(i + 1)));
            assert forall|a: int, b: int| 0 <= a < b < out@.len() implies out@[a] <= out@[b] by {
                if b < pos {
                    assert(out1[a] <= out1[b]);
                } else if a > pos {
                    assert(out1[a - 1] <= out1[b - 1]);
                } else if a < pos && b == pos {
                    assert(out@[a] == out1[a]);
                } else if a == pos && b > pos {
                    assert(out@[b] == out1[b - 1]);
                    if pos < m {
                        assert(!(out1[pos as int] <= x));
                        assert(sorted(out1));
                        if b - 1 > pos {
                            assert(out1[pos as int] <= out1[b - 1]);
                        }
                    }
                } else if a < pos && b > pos {
                    assert(out@[a] == out1[a] && out@[b] == out1[b - 1]);
                    assert(out1[a] <= x || a < pos);
                }
            }
        }
        i = i + 1;
    }
    proof {
        assert(v@.take(n as int) =~= v@);
    }
    out
}

/// Total distance between the two location lists: the columns are sorted
/// independently and the absolute differences of the aligned entries are
/// added up, clamped to the signed 64-bit range.
pub fn part1(input: String) -> (r: String)
    ensures
        ({
            let ps = located_pairs(lines_of(input@));
            r@ == dec_string(
                clamp_i64(dist_total(sort_spec(lefts(ps)), sort_spec(rights(ps)))) as int,
            )
        }),
{
    let ghost ps = located_pairs(lines_of(input@));
    let (first_list, second_list) = get_two_lists_from_input(input);
    let first_sorted = sort_i64(&first_list);
    let second_sorted = sort_i64(&second_list);
    let ghost sa = sort_spec(lefts(ps));
    let ghost sb = sort_spec(rights(ps));
    let n = if first_sorted.len() <= second_sorted.len() {
        first_sorted.len()
    } else {
        second_sorted.len()
    };
    proof {
        assert(sa.len() == lefts(ps).len()) by {
            lemma_sort_spec_len(lefts(ps));
        }
        assert(sb.len() == rights(ps).len()) by {
            lemma_sort_spec_len(rights(ps));
        }
    }
    let mut sum: i64 = 0;
    let ghost mut done: int = 0;
    let mut i: usize = 0;
    proof {
        assert(sa.skip(0) =~= sa);
        assert(sb.skip(0) =~= sb);
    }
    while i < n
        invariant
            i <= n,
            n == sa.len(),
            n == sb.len(),
            first_sorted@ == sa,
            second_sorted@ == sb,
            done >= 0,
            dist_total(sa, sb) == done + dist_total(sa.skip(i as int), sb.skip(i as int)),
            sum == clamp_i64(done),
        decreases n - i,
    {
        let a = first_sorted[i];
        let b = second_sorted[i];
        let d = if a >= b {
            sub_sat(a, b)
        } else {
            sub_sat(b, a)
        };
        proof {
            assert(sa.skip(i as int).drop_first() =~= sa.skip(i + 1));
            assert(sb.skip(i as int).drop_first() =~= sb.skip(i + 1));
            assert(sa.skip(i as int)[0] == a);
            assert(sb.skip(i as int)[0] == b);
            lemma_dist_total_nonneg(sa.skip(i + 1), sb.skip(i + 1));
            done = done + clamp_i64(if a >= b {
                a - b
            } else {
                b - a
            }) as int;
        }
        sum = add_sat(sum, d);
        i = i + 1;
    }
    proof {
        assert(dist_total(sa.skip(i as int), sb.skip(i as int)) == 0);
    }
    i64_to_string(sum)
}

/// The lengths of the two columns agree with the pair count.
proof fn lemma_sort_spec_len(s: Seq<i64>)
    ensures
        sort_spec(s).len() == s.len(),
    decreases s.len(),
{
    if s.len() > 0 {
        lemma_sort_spec_len(s.drop_last());
        lemma_insert_len(s.last(), sort_spec(s.drop_last()));
    }
}

/// Insertion grows a sequence by one.
proof fn lemma_insert_len(x: i64, s: Seq<i64>)
    ensures
        insert_sorted(x, s).len() == s.len() + 1,
    decreases s.len(),
{
    if s.len() > 0 && s[0] <= x {
        lemma_insert_len(x, s.drop_first());
    }
}

/// Similarity score: each entry of the first list contributes its value
/// times how often it appears in the second list, clamped to the signed
/// 64-bit range.
pub fn part2(input: String) -> (r: String)
    ensures
        ({
            let ps = located_pairs(lines_of(input@));
            r@ == dec_string(clamp_i64(sim_total(lefts(ps), rights(ps))) as int)
        }),
{
    let ghost ps = located_pairs(lines_of(input@));
    let (first_list, second_list) = get_two_lists_from_input(input);
    let ghost sa = lefts(ps);
    let ghost sb = rights(ps);
    proof {
        lemma_located_pairs_nonneg(lines_of(input@));
        assert forall|k: int| 0 <= k < sa.len() implies #[trigger] sa[k] >= 0 by {
            assert(sa[k] == ps[k].0);
        }
    }
    let mut sum: i64 = 0;
    let mut i: usize = 0;
    proof {
        assert(sa.take(0) =~= Seq::<i64>::empty());
    }
    while i < first_list.len()
        invariant
            i <= first_list@.len(),
            first_list@ == sa,
            second_list@ == sb,
            forall|k: int| 0 <= k < sa.len() ==> #[trigger] sa[k] >= 0,
            sum == clamp_i64(sim_total(sa.take(i as int), sb)),
        decreases first_list@.len() - i,
    {
        let x = first_list[i];
        let mut count: i64 = 0;
        let mut j: usize = 0;
        proof {
            assert(sb.take(0) =~= Seq::<i64>::empty());
        }
        while j < second_list.len()
            invariant
                j <= second_list@.len(),
                second_list@ == sb,
                count == clamp_i64(count_in(sb.take(j as int), x)),
                count >= 0,
            decreases second_list@.len() - j,
        {
            proof {
                assert(sb.take(j + 1).drop_last() =~= sb.take(j as int));
                assert(sb.take(j + 1).last() == sb[j as int]);
                lemma_count_in_nonneg(sb.take(j as int), x);
            }
            if second_list[j] == x && count < i64::MAX {
                count = count + 1;
            }
            j = j + 1;
        }
        proof {
            assert(sb.take(sb.len() as int) =~= sb);
            assert(sa.take(i + 1).drop_last() =~= sa.take(i as int));
            assert(sa.take(i + 1).last() == sa[i as int]);
            assert forall|k: int| 0 <= k < sa.take(i as int).len() implies #[trigger] sa.take(
                i as int,
            )[k] >= 0 by {
                assert(sa.take(i as int)[k] == sa[k]);
            }
            lemma_sim_total_nonneg(sa.take(i as int), sb);
            lemma_count_in_nonneg(sb, x);
            assert(x as int * count as int >= 0) by (nonlinear_arith)
                requires
                    x >= 0,
                    count >= 0,
            ;
        }
        sum = add_sat(sum, mul_sat(x, count));
        i = i + 1;
    }
    proof {
        assert(sa.take(sa.len() as int) =~= sa);
    }
    i64_to_string(sum)
}

/// Reads the two side-by-side columns of numbers into two lists; a line
/// with fewer than two numbers is ignored.
fn get_two_lists_from_input(input: String) -> (r: (Vec<i64>, Vec<i64>))
    ensures
        r.0@ == lefts(located_pairs(lines_of(input@))),
        r.1@ == rights(located_pairs(lines_of(input@))),
{
    let ghost rows = lines_of(input@);
    let grid = MultiLineParser::new(input.as_str());
    let nrows = grid.len();
    let mut first_list: Vec<i64> = Vec::new();
    let mut second_list: Vec<i64> = Vec::new();
    let mut i: usize = 0;
    proof {
        assert(rows.take(0) =~= Seq::<Seq<char>>::empty());
        assert(first_list@ =~= lefts(located_pairs(rows.take(0))));
        assert(second_list@ =~= rights(located_pairs(rows.take(0))));
    }
    while i < nrows
        invariant
            i <= nrows,
            nrows == rows.len(),
            grid.rows() == rows,
            first_list@ == lefts(located_pairs(rows.take(i as int))),
            second_list@ == rights(located_pairs(rows.take(i as int))),
        decreases nrows - i,
    {
        proof {
            assert(rows.take(i + 1).drop_last() =~= rows.take(i as int));
            assert(rows.take(i + 1).last() == rows[i as int]);
        }
        let nums = numbers_in_row(grid.row_chars(i));
        if nums.len() >= 2 {
            first_list.push(nums[0]);
            second_list.push(nums[1]);
        }
        proof {
            assert(first_list@ =~= lefts(located_pairs(rows.take(i + 1))));
            assert(second_list@ =~= rights(located_pairs(rows.take(i + 1))));
        }
        i = i + 1;
    }
    proof {
        assert(rows.take(rows.len() as int) =~= rows);
    }
    (first_list, second_list)
}

} // verus!
