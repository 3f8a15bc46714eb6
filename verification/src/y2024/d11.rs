//! Plutonian Pebbles: how a line of stones multiplies under blinking.

use vstd::prelude::*;
use crate::multi_line_parser::{lines_of, MultiLineParser};
use crate::parser::{numbers_in_row, row_values};
use crate::text::{
    cap_u64, clamp_i64, lemma_num_digits_lower, lemma_pow10_monotone, lemma_pow10_pos, mul_sat,
    num_digits, pow10, u64_to_string,
};

verus! {

/// One blink of a stone `num`: zero becomes one; a non-negative stone with
/// an even digit count splits into its upper and lower halves; any other
/// stone is multiplied by 2024, the product clamped to the signed 64-bit
/// range.
pub open spec fn blink_spec(num: int) -> Seq<i64> {
    if num == 0 {
        seq![1i64]
    } else if num >= 1 && num_digits(num) % 2 == 0 {
        let p = pow10(num_digits(num) / 2);
        seq![(num / p) as i64, (num % p) as i64]
    } else {
        seq![clamp_i64(num * 2024)]
    }
}

/// How many stones the single stone `num` becomes after `n` blinks.
pub open spec fn stones_after(num: i64, n: nat) -> int
    decreases n, 0int, 0int,
{
    if n == 0 {
        1
    } else {
        stones_after_all(blink_spec(num as int), (n - 1) as nat)
    }
}

/// How many stones a line of stones becomes after `n` blinks: the count
/// of each, added up.
pub open spec fn stones_after_all(stones: Seq<i64>, n: nat) -> int
    decreases n, 1int, stones.len(),
{
    if stones.len() == 0 {
        0
    } else {
        stones_after(stones[0], n) + stones_after_all(stones.drop_first(), n)
    }
}

/// A stone becomes at least one stone, however often it blinks.
pub proof fn lemma_stones_after_pos(num: i64, n: nat)
    ensures
        stones_after(num, n) >= 1,
    decreases n, 0int, 0int,
{
    if n > 0 {
        lemma_stones_after_lower(blink_spec(num as int), (n - 1) as nat);
    }
}

/// A line of stones becomes at least one stone each.
proof fn lemma_stones_after_lower(stones: Seq<i64>, n: nat)
    ensures
        stones_after_all(stones, n) >= stones.len(),
    decreases n, 1int, stones.len(),
{
    if stones.len() > 0 {
        lemma_stones_after_pos(stones[0], n);
        lemma_stones_after_lower(stones.drop_first(), n);
    }
}

/// Every number of every row, in row-major order: the engraved stones.
pub open spec fn all_stones(rows: Seq<Seq<char>>) -> Seq<i64>
    decreases rows.len(),
{
    if rows.len() == 0 {
        Seq::empty()
    } else {
        all_stones(rows.drop_last()) + row_values(rows.last())
    }
}

/// The saturating total of what the stones become after `n` blinks each:
/// every stone's count and the running sum held to the unsigned 64-bit
/// range.
pub open spec fn total_after(stones: Seq<i64>, n: nat) -> int
    decreases stones.len(),
{
    if stones.len() == 0 {
        0
    } else {
        cap_u64(total_after(stones.drop_last(), n) + cap_u64(stones_after(stones.last(), n)))
    }
}

/// A saturating blink total stays in the unsigned 64-bit range.
proof fn lemma_total_after_bounds(stones: Seq<i64>, n: nat)
    ensures
        0 <= total_after(stones, n) <= u64::MAX,
    decreases stones.len(),
{
    if stones.len() > 0 {
        lemma_total_after_bounds(stones.drop_last(), n);
        lemma_stones_after_pos(stones.last(), n);
    }
}

/// The saturating total of stones after `n` blinks at the numbers of the
/// input's lines.
pub open spec fn blink_total(input: Seq<char>, n: nat) -> int {
    total_after(all_stones(lines_of(input)), n)
}

/// Number of stones after blinking 25 times at the engraved stones.
pub fn part1(input: String) -> (r: String)
    ensures
        r@ == crate::text::dec_string(blink_total(input@, 25)),
{
    let ghost stones_spec = all_stones(lines_of(input@));
    let stones = parse_stones(input);
    let mut sum: u64 = 0;
    let mut i: usize = 0;
    proof {
        assert(stones@.take(0) =~= Seq::<i64>::empty());
    }
    while i < stones.len()
        invariant
            i <= stones@.len(),
            stones@ == stones_spec,
            sum as int == total_after(stones@.take(i as int), 25),
        decreases stones@.len() - i,
    {
        proof {
            lemma_total_after_bounds(stones@.take(i as int), 25);
            lemma_stones_after_pos(stones@[i as int], 25);
            assert(stones@.take(i + 1).drop_last() =~= stones@.take(i as int));
            assert(stones@.take(i + 1).last() == stones@[i as int]);
        }
        sum = sum.saturating_add(blink_n(stones[i], 25));
        i = i + 1;
    }
    proof {
        assert(stones@.take(stones@.len() as int) =~= stones@);
    }
    u64_to_string(sum)
}

/// Number of stones after blinking 75 times.
pub fn part2(input: String) -> (r: String)
    ensures
        r@ == crate::text::dec_string(blink_total(input@, 75)),
{
    let ghost stones_spec = all_stones(lines_of(input@));
    let stones = parse_stones(input);
    let mut sum: u64 = 0;
    let mut i: usize = 0;
    proof {
        assert(stones@.take(0) =~= Seq::<i64>::empty());
    }
    while i < stones.len()
        invariant
            i <= stones@.len(),
            stones@ == stones_spec,
            sum as int == total_after(stones@.take(i as int), 75),
        decreases stones@.len() - i,
    {
        proof {
            lemma_total_after_bounds(stones@.take(i as int), 75);
            lemma_stones_after_pos(stones@[i as int], 75);
            assert(stones@.take(i + 1).drop_last() =~= stones@.take(i as int));
            assert(stones@.take(i + 1).last() == stones@[i as int]);
        }
        sum = sum.saturating_add(blink_n(stones[i], 75));
        i = i + 1;
    }
    proof {
        assert(stones@.take(stones@.len() as int) =~= stones@);
    }
    u64_to_string(sum)
}

/// The engraved numbers, read off the input's lines in row-major order.
fn parse_stones(input: String) -> (stones: Vec<i64>)
    ensures
        stones@ == all_stones(lines_of(input@)),
{
    let grid = MultiLineParser::new(input.as_str());
    let ghost rows = lines_of(input@);
    let nrows = grid.len();
    let mut stones: Vec<i64> = Vec::new();
    let mut i: usize = 0;
    proof {
        assert(rows.take(0) =~= Seq::<Seq<char>>::empty());
        assert(stones@ =~= all_stones(rows.take(0)));
    }
    while i < nrows
        invariant
            i <= nrows,
            nrows == grid.rows().len(),
            grid.rows() == rows,
            stones@ == all_stones(rows.take(i as int)),
        decreases nrows - i,
    {
        let mut nums = numbers_in_row(grid.row_chars(i));
        stones.append(&mut nums);
        proof {
            assert(rows.take(i + 1).drop_last() =~= rows.take(i as int));
            assert(rows.take(i + 1).last() == rows[i as int]);
        }
        i = i + 1;
    }
    proof {
        assert(rows.take(rows.len() as int) =~= rows);
    }
    stones
}

/// How many decimal digits `n` has.
fn count_digits(n: i64) -> (r: u64)
    requires
        n >= 0,
    ensures
        r == num_digits(n as int),
        r >= 1,
{
    let mut count: u64 = 1;
    let mut rest = n / 10;
    while rest > 0
        invariant
            count >= 1,
            rest >= 0,
            count + rest <= 1 + (n as int) / 10,
            num_digits(n as int) == count + (if rest > 0 {
                num_digits(rest as int)
            } else {
                0int
            }),
        decreases rest,
    {
        rest = rest / 10;
        count = count + 1;
    }
    count
}

/// One blink of a single stone: zero becomes one, a stone with an even
/// number of digits splits into its two halves, and any other stone is
/// multiplied by 2024.
pub fn blink(num: i64) -> (r: Vec<i64>)
    ensures
        r@ == blink_spec(num as int),
{
    if num == 0 {
        let v = vec![1i64];
        proof {
            assert(v@ =~= blink_spec(num as int));
        }
        return v;
    }
    if num < 0 {
        let v = vec![mul_sat(num, 2024)];
        proof {
            assert(v@ =~= blink_spec(num as int));
        }
        return v;
    }
    let digits = count_digits(num);
    if digits % 2 == 0 {
        let ghost d = num_digits(num as int);
        let half = digits / 2;
        proof {
            lemma_num_digits_lower(num as int);
            lemma_pow10_monotone(half as int, d - 1);
            lemma_pow10_pos(half as int);
        }
        let mut p: i64 = 1;
        let mut k: u64 = 0;
        while k < half
            invariant
                k <= half,
                half == num_digits(num as int) / 2,
                p == pow10(k as int),
                p >= 1,
                pow10(half as int) <= i64::MAX,
            decreases half - k,
        {
            proof {
                lemma_pow10_monotone(k as int + 1, half as int);
                lemma_pow10_pos(k as int);
            }
            p = mul_sat(p, 10);
            k = k + 1;
        }
        let left = num / p;
        let right = num % p;
        let v = vec![left, right];
        proof {
            assert(v@ =~= blink_spec(num as int));
        }
        v
    } else {
        let v = vec![mul_sat(num, 2024)];
        proof {
            assert(v@ =~= blink_spec(num as int));
        }
        v
    }
}

/// Index of the first tally entry for `v`, or `-1` when there is none.
pub open spec fn find_key(entries: Seq<(i64, u64)>, v: i64) -> int
    decreases entries.len(),
{
    if entries.len() == 0 {
        -1
    } else if entries[0].0 == v {
        0
    } else {
        let r = find_key(entries.drop_first(), v);
        if r < 0 {
            -1int
        } else {
            r + 1
        }
    }
}

/// `find_key` points at the first entry for `v` when there is one, and is
/// negative exactly when no entry holds `v`.
proof fn lemma_find_key(entries: Seq<(i64, u64)>, v: i64)
    ensures
        find_key(entries, v) >= 0 ==> 0 <= find_key(entries, v) < entries.len() && entries[find_key(
            entries,
            v,
        )].0 == v && forall|t: int| 0 <= t < find_key(entries, v) ==> (#[trigger] entries[t]).0 != v,
        find_key(entries, v) < 0 ==> forall|t: int|
            0 <= t < entries.len() ==> (#[trigger] entries[t]).0 != v,
    decreases entries.len(),
{
    if entries.len() > 0 && entries[0].0 != v {
        lemma_find_key(entries.drop_first(), v);
        assert forall|t: int| 1 <= t < entries.len() implies (#[trigger] entries[t]).0
            == entries.drop_first()[t - 1].0 by {}
    }
}

/// The stones the tally entries from `k` on become after `n` more blinks,
/// each entry counted with its exact multiplicity.
pub open spec fn weighted_from(entries: Seq<(i64, u64)>, exact: Seq<int>, k: int, n: nat) -> int
    decreases entries.len() - k,
    when 0 <= k <= entries.len() && exact.len() == entries.len()
{
    if k >= entries.len() {
        0
    } else {
        exact[k] * stones_after(entries[k].0, n) + weighted_from(entries, exact, k + 1, n)
    }
}

/// A weighted tally reads only the keys and multiplicities from `k` on.
proof fn lemma_weighted_agree(
    e1: Seq<(i64, u64)>,
    x1: Seq<int>,
    e2: Seq<(i64, u64)>,
    x2: Seq<int>,
    k: int,
    n: nat,
)
    requires
        e1.len() == e2.len(),
        x1.len() == e1.len(),
        x2.len() == e2.len(),
        0 <= k <= e1.len(),
        forall|t: int| k <= t < e1.len() ==> (#[trigger] e1[t]).0 == e2[t].0 && x1[t] == x2[t],
    ensures
        weighted_from(e1, x1, k, n) == weighted_from(e2, x2, k, n),
    decreases e1.len() - k,
{
    if k < e1.len() {
        lemma_weighted_agree(e1, x1, e2, x2, k + 1, n);
    }
}

/// Raising one entry's multiplicity raises the weighted tally by that many
/// counts of its stone; the stored count may change freely.
proof fn lemma_weighted_update(
    entries: Seq<(i64, u64)>,
    exact: Seq<int>,
    k: int,
    t: int,
    p: (i64, u64),
    add: int,
    n: nat,
)
    requires
        0 <= k <= t < entries.len(),
        exact.len() == entries.len(),
        p.0 == entries[t].0,
    ensures
        weighted_from(entries.update(t, p), exact.update(t, exact[t] + add), k, n)
            == weighted_from(entries, exact, k, n) + add * stones_after(entries[t].0, n),
    decreases t - k,
{
    let e2 = entries.update(t, p);
    let x2 = exact.update(t, exact[t] + add);
    if k == t {
        lemma_weighted_agree(e2, x2, entries, exact, k + 1, n);
        assert((exact[t] + add) * stones_after(entries[t].0, n) == exact[t] * stones_after(
            entries[t].0,
            n,
        ) + add * stones_after(entries[t].0, n)) by (nonlinear_arith);
    } else {
        lemma_weighted_update(entries, exact, k + 1, t, p, add, n);
    }
}

/// Appending a tally entry raises the weighted tally by its counts of its
/// stone.
proof fn lemma_weighted_push(
    entries: Seq<(i64, u64)>,
    exact: Seq<int>,
    k: int,
    p: (i64, u64),
    add: int,
    n: nat,
)
    requires
        0 <= k <= entries.len(),
        exact.len() == entries.len(),
    ensures
        weighted_from(entries.push(p), exact.push(add), k, n) == weighted_from(entries, exact, k, n)
            + add * stones_after(p.0, n),
    decreases entries.len() - k,
{
    let e2 = entries.push(p);
    let x2 = exact.push(add);
    if k == entries.len() {
        assert(weighted_from(e2, x2, k + 1, n) == 0);
        assert(x2[k] == add && e2[k].0 == p.0);
    } else {
        lemma_weighted_push(entries, exact, k + 1, p, add, n);
    }
}

/// Capping before a further saturating addition loses nothing: the end
/// result is the cap of the exact sum.
proof fn lemma_cap_u64_add(a: int, b: int)
    requires
        a >= 0,
        b >= 0,
    ensures
        cap_u64(cap_u64(a) + cap_u64(b)) == cap_u64(a + b),
{
}

/// Adds `count` stones of value `v` to the tally: onto the first entry
/// for `v`, saturating, or as a new entry.
fn bump(counts: &mut Vec<(i64, u64)>, v: i64, count: u64)
    ensures
        ({
            let t = find_key(old(counts)@, v);
            if t >= 0 {
                final(counts)@ == old(counts)@.update(
                    t,
                    (v, old(counts)@[t].1.saturating_add(count)),
                )
            } else {
                final(counts)@ == old(counts)@.push((v, count))
            }
        }),
{
    proof {
        lemma_find_key(old(counts)@, v);
    }
    let n = counts.len();
    let mut i: usize = 0;
    while i < n
        invariant
            i <= n,
            n == counts@.len(),
            counts@ == old(counts)@,
            forall|t: int| 0 <= t < i ==> (#[trigger] counts@[t]).0 != v,
        decreases n - i,
    {
        let (key, old_count) = counts[i];
        if key == v {
            proof {
                lemma_find_key(counts@, v);
                assert(find_key(counts@, v) == i);
            }
            counts.set(i, (key, old_count.saturating_add(count)));
            return ;
        }
        i = i + 1;
    }
    proof {
        lemma_find_key(counts@, v);
        assert(find_key(counts@, v) < 0);
    }
    counts.push((v, count));
}

/// How many stones a single stone becomes after `num` blinks, the count
/// held to the unsigned 64-bit range.
pub fn blink_n(stone_num: i64, num: usize) -> (r: u64)
    ensures
        r as int == cap_u64(stones_after(stone_num, num as nat)),
{
    let ghost total = stones_after(stone_num, num as nat);
    let mut counts: Vec<(i64, u64)> = vec![(stone_num, 1)];
    let ghost mut exact: Seq<int> = seq![1int];
    proof {
        lemma_stones_after_pos(stone_num, num as nat);
        assert(counts@[0] == (stone_num, 1u64));
        assert(weighted_from(counts@, exact, 1, num as nat) == 0);
        assert(weighted_from(counts@, exact, 0, num as nat) == total);
    }
    let mut step: usize = 0;
    while step < num
        invariant
            step <= num,
            counts@.len() == exact.len(),
            forall|t: int|
                0 <= t < exact.len() ==> #[trigger] exact[t] >= 1 && counts@[t].1 as int
                    == cap_u64(exact[t]),
            weighted_from(counts@, exact, 0, (num - step) as nat) == total,
        decreases num - step,
    {
        let ghost r = (num - step) as nat;
        let ghost r1 = (num - step - 1) as nat;
        let mut next: Vec<(i64, u64)> = Vec::new();
        let ghost mut next_exact: Seq<int> = Seq::empty();
        let mut i: usize = 0;
        proof {
            assert(weighted_from(next@, next_exact, 0, r1) == 0);
        }
        while i < counts.len()
            invariant
                i <= counts@.len(),
                counts@.len() == exact.len(),
                step < num,
                r == (num - step) as nat,
                r1 == (num - step - 1) as nat,
                forall|t: int|
                    0 <= t < exact.len() ==> #[trigger] exact[t] >= 1 && counts@[t].1 as int
                        == cap_u64(exact[t]),
                next@.len() == next_exact.len(),
                forall|t: int|
                    0 <= t < next_exact.len() ==> #[trigger] next_exact[t] >= 1 && next@[t].1
                        as int == cap_u64(next_exact[t]),
                weighted_from(next@, next_exact, 0, r1) + weighted_from(
                    counts@,
                    exact,
                    i as int,
                    r,
                ) == total,
            decreases counts@.len() - i,
        {
            let (v, c) = counts[i];
            let ghost e = exact[i as int];
            let blown = blink(v);
            proof {
                assert(weighted_from(counts@, exact, i as int, r) == e * stones_after(v, r)
                    + weighted_from(counts@, exact, i + 1, r));
                assert(stones_after(v, r) == stones_after_all(blink_spec(v as int), r1));
                assert(blown@.skip(0) =~= blown@);
            }
            let mut k: usize = 0;
            while k < blown.len()
                invariant
                    k <= blown@.len(),
                    blown@ == blink_spec(v as int),
                    e >= 1,
                    c as int == cap_u64(e),
                    counts@.len() == exact.len(),
                    i < counts@.len(),
                    next@.len() == next_exact.len(),
                    forall|t: int|
                        0 <= t < next_exact.len() ==> #[trigger] next_exact[t] >= 1 && next@[t].1
                            as int == cap_u64(next_exact[t]),
                    weighted_from(next@, next_exact, 0, r1) + e * stones_after_all(
                        blown@.skip(k as int),
                        r1,
                    ) + weighted_from(counts@, exact, i + 1, r) == total,
                decreases blown@.len() - k,
            {
                let w = blown[k];
                let ghost next0 = next@;
                let ghost nx0 = next_exact;
                proof {
                    lemma_find_key(next@, w);
                    assert(blown@.skip(k as int)[0] == w);
                    assert(blown@.skip(k as int).drop_first() =~= blown@.skip(k + 1));
                    assert(stones_after_all(blown@.skip(k as int), r1) == stones_after(w, r1)
                        + stones_after_all(blown@.skip(k + 1), r1));
                    assert(e * stones_after_all(blown@.skip(k as int), r1) == e * stones_after(
                        w,
                        r1,
                    ) + e * stones_after_all(blown@.skip(k + 1), r1)) by (nonlinear_arith)
                        requires
                            stones_after_all(blown@.skip(k as int), r1) == stones_after(w, r1)
                                + stones_after_all(blown@.skip(k + 1), r1),
                    ;
                }
                bump(&mut next, w, c);
                proof {
                    let t = find_key(next0, w);
                    if t >= 0 {
                        let p = (w, next0[t].1.saturating_add(c));
                        next_exact = nx0.update(t, nx0[t] + e);
                        lemma_cap_u64_add(nx0[t], e);
                        lemma_weighted_update(next0, nx0, 0, t, p, e, r1);
                    } else {
                        next_exact = nx0.push(e);
                        lemma_weighted_push(next0, nx0, 0, (w, c), e, r1);
                    }
                }
                k = k + 1;
            }
            i = i + 1;
        }
        proof {
            assert(weighted_from(counts@, exact, counts@.len() as int, r) == 0);
        }
        counts = next;
        proof {
            exact = next_exact;
        }
        step = step + 1;
    }
    let ghost exact_final = exact;
    proof {
        assert((num - step) as nat == 0nat);
    }
    let mut sum: u64 = 0;
    let mut i: usize = 0;
    while i < counts.len()
        invariant
            i <= counts@.len(),
            counts@.len() == exact_final.len(),
            forall|t: int|
                0 <= t < exact_final.len() ==> #[trigger] exact_final[t] >= 1 && counts@[t].1
                    as int == cap_u64(exact_final[t]),
            weighted_from(counts@, exact_final, 0, 0) == total,
            total - weighted_from(counts@, exact_final, i as int, 0) >= 0,
            sum as int == cap_u64(total - weighted_from(counts@, exact_final, i as int, 0)),
        decreases counts@.len() - i,
    {
        let (_, c) = counts[i];
        proof {
            assert(weighted_from(counts@, exact_final, i as int, 0) == exact_final[i as int]
                * stones_after(counts@[i as int].0, 0) + weighted_from(
                counts@,
                exact_final,
                i + 1,
                0,
            ));
            assert(exact_final[i as int] * stones_after(counts@[i as int].0, 0) == exact_final[i
                as int] * 1);
            lemma_cap_u64_add(
                total - weighted_from(counts@, exact_final, i as int, 0),
                exact_final[i as int],
            );
        }
        sum = sum.saturating_add(c);
        i = i + 1;
    }
    proof {
        assert(weighted_from(counts@, exact_final, counts@.len() as int, 0) == 0);
    }
    sum
}

} // verus!
