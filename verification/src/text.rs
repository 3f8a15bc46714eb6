//! Character, digit and string helpers shared by the scanners.

use vstd::prelude::*;
use vstd::string::StrSliceExecFns;

verus! {

/// Whether `c` is an ASCII decimal digit.
pub open spec fn is_digit_char(c: char) -> bool {
    48 <= c as u32 <= 57
}

/// Numeric value of an ASCII decimal digit.
pub open spec fn digit_val(c: char) -> int {
    c as u32 - 48
}

/// The ASCII digit character for a value in `0..=9`.
pub open spec fn digit_char(d: int) -> char {
    if d == 0 {
        '0'
    } else if d == 1 {
        '1'
    } else if d == 2 {
        '2'
    } else if d == 3 {
        '3'
    } else if d == 4 {
        '4'
    } else if d == 5 {
        '5'
    } else if d == 6 {
        '6'
    } else if d == 7 {
        '7'
    } else if d == 8 {
        '8'
    } else {
        '9'
    }
}

/// Decimal value of a digit sequence, most significant digit first.
pub open spec fn seq_value(s: Seq<char>) -> int
    decreases s.len(),
{
    if s.len() == 0 {
        0
    } else {
        seq_value(s.drop_last()) * 10 + digit_val(s.last())
    }
}

/// Whether every character of `s` is an ASCII decimal digit.
pub open spec fn all_digits(s: Seq<char>) -> bool {
    forall|i: int| 0 <= i < s.len() ==> is_digit_char(#[trigger] s[i])
}

/// A digit sequence has a non-negative value.
pub proof fn lemma_seq_value_nonneg(s: Seq<char>)
    requires
        all_digits(s),
    ensures
        seq_value(s) >= 0,
    decreases s.len(),
{
    if s.len() > 0 {
        assert(all_digits(s.drop_last()));
        lemma_seq_value_nonneg(s.drop_last());
    }
}

/// The value of a digit prefix never exceeds the value of the whole run.
pub proof fn lemma_seq_value_take_le(s: Seq<char>, k: int)
    requires
        all_digits(s),
        0 <= k <= s.len(),
    ensures
        0 <= seq_value(s.take(k)) <= seq_value(s),
    decreases s.len() - k,
{
    assert forall|i: int| 0 <= i < s.take(k).len() implies is_digit_char(#[trigger] s.take(k)[i]) by {
        assert(s.take(k)[i] == s[i]);
    }
    lemma_seq_value_nonneg(s.take(k));
    if k < s.len() {
        assert(s.take(k + 1).drop_last() =~= s.take(k));
        lemma_seq_value_take_le(s, k + 1);
    } else {
        assert(s.take(k) =~= s);
    }
}

/// Whether `s` reads as a signed 64-bit integer: an optional leading plus
/// or minus sign, then a non-empty digit run whose value fits.
pub open spec fn signed_field_ok(s: Seq<char>) -> bool {
    if s.len() > 0 && s[0] == '-' {
        &&& s.len() > 1
        &&& all_digits(s.skip(1))
        &&& seq_value(s.skip(1)) <= i64::MAX as int + 1
    } else if s.len() > 0 && s[0] == '+' {
        &&& s.len() > 1
        &&& all_digits(s.skip(1))
        &&& seq_value(s.skip(1)) <= i64::MAX
    } else {
        &&& s.len() > 0
        &&& all_digits(s)
        &&& seq_value(s) <= i64::MAX
    }
}

/// The signed value `s` reads as: its digit run's value, negated after a
/// leading minus sign.
pub open spec fn signed_field_value(s: Seq<char>) -> int {
    if s.len() > 0 && s[0] == '-' {
        -seq_value(s.skip(1))
    } else if s.len() > 0 && s[0] == '+' {
        seq_value(s.skip(1))
    } else {
        seq_value(s)
    }
}

/// Canonical decimal digit characters of a non-negative value.
pub open spec fn dec_digits(n: int) -> Seq<char>
    decreases n,
{
    if n < 10 {
        seq![digit_char(n)]
    } else {
        dec_digits(n / 10).push(digit_char(n % 10))
    }
}

/// Decimal text of a signed value: a minus sign for negatives, then digits.
pub open spec fn dec_string(n: int) -> Seq<char> {
    if n < 0 {
        seq!['-'] + dec_digits(-n)
    } else {
        dec_digits(n)
    }
}

/// The characters of `s`, as a vector.
pub fn str_to_chars(s: &str) -> (r: Vec<char>)
    ensures
        r@ == s@,
{
    let n = s.unicode_len();
    let mut r: Vec<char> = Vec::new();
    let mut i: usize = 0;
    while i < n
        invariant
            i <= n,
            n == s@.len(),
            r@ == s@.take(i as int),
        decreases n - i,
    {
        let c = s.get_char(i);
        r.push(c);
        i = i + 1;
        proof {
            assert(r@ =~= s@.take(i as int));
        }
    }
    proof {
        assert(r@ =~= s@);
    }
    r
}

/// Whether `c` is an ASCII decimal digit.
pub fn is_digit(c: char) -> (r: bool)
    ensures
        r == is_digit_char(c),
{
    let u = c as u32;
    48 <= u && u <= 57
}

/// Numeric value of an ASCII decimal digit.
pub fn digit_value(c: char) -> (r: u32)
    requires
        is_digit_char(c),
    ensures
        r == digit_val(c),
        r <= 9,
{
    c as u32 - 48
}

/// The value of the digit run `chars[start..end]`.
pub fn digits_to_i64(chars: &Vec<char>, start: usize, end: usize) -> (r: i64)
    requires
        start <= end <= chars@.len(),
        all_digits(chars@.subrange(start as int, end as int)),
        seq_value(chars@.subrange(start as int, end as int)) <= i64::MAX,
    ensures
        r == seq_value(chars@.subrange(start as int, end as int)),
{
    let ghost field = chars@.subrange(start as int, end as int);
    let mut acc: i64 = 0;
    let mut j = start;
    while j < end
        invariant
            start <= j <= end,
            end <= chars@.len(),
            field == chars@.subrange(start as int, end as int),
            all_digits(field),
            seq_value(field) <= i64::MAX,
            acc == seq_value(field.take(j - start)),
        decreases end - j,
    {
        let c = chars[j];
        proof {
            assert(c == field[j - start]);
            lemma_seq_value_take_le(field, j - start + 1);
            assert(field.take(j - start + 1).drop_last() =~= field.take(j - start));
        }
        let d = digit_value(c);
        acc = acc * 10 + d as i64;
        j = j + 1;
    }
    proof {
        assert(field.take(end - start) =~= field);
    }
    acc
}

/// The signed 64-bit value the field `chars[start..end]` reads as.
pub fn field_to_i64(chars: &Vec<char>, start: usize, end: usize) -> (r: i64)
    requires
        start <= end <= chars@.len(),
        signed_field_ok(chars@.subrange(start as int, end as int)),
    ensures
        r == signed_field_value(chars@.subrange(start as int, end as int)),
{
    let ghost field = chars@.subrange(start as int, end as int);
    if chars[start] == '-' {
        let ghost digits = field.skip(1);
        proof {
            assert(digits =~= chars@.subrange(start as int + 1, end as int));
        }
        let mut acc: i64 = 0;
        let mut j = start + 1;
        while j < end
            invariant
                start + 1 <= j <= end,
                end <= chars@.len(),
                digits == chars@.subrange(start as int + 1, end as int),
                all_digits(digits),
                seq_value(digits) <= i64::MAX as int + 1,
                acc == -seq_value(digits.take(j - (start + 1))),
            decreases end - j,
        {
            let c = chars[j];
            proof {
                assert(c == digits[j - (start + 1)]);
                lemma_seq_value_take_le(digits, j - (start + 1) + 1);
                assert(digits.take(j - (start + 1) + 1).drop_last() =~= digits.take(
                    j - (start + 1),
                ));
            }
            let d = digit_value(c);
            acc = acc * 10 - d as i64;
            j = j + 1;
        }
        proof {
            assert(digits.take(end - (start + 1)) =~= digits);
        }
        acc
    } else if chars[start] == '+' {
        proof {
            assert(field.skip(1) =~= chars@.subrange(start as int + 1, end as int));
        }
        digits_to_i64(chars, start + 1, end)
    } else {
        digits_to_i64(chars, start, end)
    }
}

/// `v` held to the unsigned 64-bit range from above.
pub open spec fn cap_u64(v: int) -> int {
    if v > u64::MAX {
        u64::MAX as int
    } else {
        v
    }
}

/// `v` squeezed into the signed 64-bit range.
pub open spec fn clamp_i64(v: int) -> i64 {
    if v > i64::MAX {
        i64::MAX
    } else if v < i64::MIN {
        i64::MIN
    } else {
        v as i64
    }
}

/// `a + b`, clamped to the signed 64-bit range.
pub fn add_sat(a: i64, b: i64) -> (r: i64)
    ensures
        r == clamp_i64(a + b),
{
    match a.checked_add(b) {
        Option::Some(v) => v,
        Option::None => {
            if b >= 0 {
                i64::MAX
            } else {
                i64::MIN
            }
        },
    }
}

/// `a - b`, clamped to the signed 64-bit range.
pub fn sub_sat(a: i64, b: i64) -> (r: i64)
    ensures
        r == clamp_i64(a - b),
{
    match a.checked_sub(b) {
        Option::Some(v) => v,
        Option::None => {
            if b <= 0 {
                i64::MAX
            } else {
                i64::MIN
            }
        },
    }
}

/// `a * b`, clamped to the signed 64-bit range.
pub fn mul_sat(a: i64, b: i64) -> (r: i64)
    ensures
        r == clamp_i64(a * b),
        a >= 1 && b >= 1 ==> r >= 1,
{
    proof {
        assert(a >= 1 && b >= 1 ==> a * b >= 1) by (nonlinear_arith);
        assert(((a >= 0) == (b >= 0)) ==> a * b >= 0) by (nonlinear_arith);
        assert(((a >= 0) != (b >= 0)) ==> a * b <= 0) by (nonlinear_arith);
    }
    match a.checked_mul(b) {
        Option::Some(v) => v,
        Option::None => {
            if (a >= 0) == (b >= 0) {
                i64::MAX
            } else {
                i64::MIN
            }
        },
    }
}

/// How many decimal digits a non-negative value has.
pub open spec fn num_digits(n: int) -> int
    decreases n,
{
    if n < 10 {
        1
    } else {
        1 + num_digits(n / 10)
    }
}

/// Ten to the `k`, with one for non-positive `k`.
pub open spec fn pow10(k: int) -> int
    decreases k,
{
    if k <= 0 {
        1
    } else {
        10 * pow10(k - 1)
    }
}

/// Powers of ten are positive.
pub proof fn lemma_pow10_pos(k: int)
    ensures
        pow10(k) >= 1,
    decreases k,
{
    if k > 0 {
        lemma_pow10_pos(k - 1);
    }
}

/// Powers of ten grow with the exponent.
pub proof fn lemma_pow10_monotone(a: int, b: int)
    requires
        a <= b,
    ensures
        pow10(a) <= pow10(b),
    decreases b - a,
{
    if a < b {
        if b <= 0 {
        } else {
            lemma_pow10_monotone(a, b - 1);
            lemma_pow10_pos(b - 1);
        }
    }
}

/// A positive value reaches at least ten to one less than its digit count.
pub proof fn lemma_num_digits_lower(n: int)
    requires
        n >= 1,
    ensures
        pow10(num_digits(n) - 1) <= n,
    decreases n,
{
    if n >= 10 {
        lemma_num_digits_lower(n / 10);
    }
}

/// Clamping before a further tenfold step loses nothing: the end result is
/// the clamp of the exact product.
pub proof fn lemma_clamp_mul10(x: int)
    ensures
        clamp_i64(clamp_i64(x) as int * 10) == clamp_i64(10 * x),
{
}

/// `a * b` when it fits the unsigned 64-bit range, and its top otherwise.
pub fn mul_sat_u64(a: u64, b: u64) -> (r: u64)
    ensures
        a * b <= u64::MAX ==> r == a * b,
        a * b > u64::MAX ==> r == u64::MAX,
{
    match a.checked_mul(b) {
        Option::Some(v) => v,
        Option::None => u64::MAX,
    }
}

/// The characters of `chars`, as one string.
pub fn chars_to_string(chars: &Vec<char>) -> (r: String)
    ensures
        r@ == chars@,
{
    let n = chars.len();
    let mut s = String::new();
    let mut i: usize = 0;
    while i < n
        invariant
            i <= n,
            n == chars@.len(),
            s@ == chars@.take(i as int),
        decreases n - i,
    {
        push_char(&mut s, chars[i]);
        i = i + 1;
        proof {
            assert(s@ =~= chars@.take(i as int));
        }
    }
    proof {
        assert(s@ =~= chars@);
    }
    s
}

/// Relies on `String::push`: appends one character to the string.
#[verifier::external_body]
pub fn push_char(s: &mut String, c: char)
    ensures
        final(s)@ == old(s)@.push(c),
{
    s.push(c);
}

/// Appends the decimal digits of `n` to `s`.
fn push_u64_digits(s: &mut String, n: u64)
    ensures
        final(s)@ == old(s)@ + dec_digits(n as int),
    decreases n,
{
    if n < 10 {
        let c: char = match n {
            0 => '0',
            1 => '1',
            2 => '2',
            3 => '3',
            4 => '4',
            5 => '5',
            6 => '6',
            7 => '7',
            8 => '8',
            _ => '9',
        };
        assert(c == digit_char(n as int));
        push_char(s, c);
        proof {
            assert(s@ =~= old(s)@ + dec_digits(n as int));
        }
    } else {
        push_u64_digits(s, n / 10);
        let d = n % 10;
        let c: char = match d {
            0 => '0',
            1 => '1',
            2 => '2',
            3 => '3',
            4 => '4',
            5 => '5',
            6 => '6',
            7 => '7',
            8 => '8',
            _ => '9',
        };
        assert(c == digit_char(n as int % 10));
        push_char(s, c);
        proof {
            assert(s@ =~= old(s)@ + dec_digits(n as int));
        }
    }
}

/// The decimal text of `n`.
pub fn u64_to_string(n: u64) -> (r: String)
    ensures
        r@ == dec_string(n as int),
{
    let mut s = String::new();
    push_u64_digits(&mut s, n);
    proof {
        assert(s@ =~= dec_string(n as int));
    }
    s
}

/// The decimal text of `n`, with a leading minus sign when negative.
pub fn i64_to_string(n: i64) -> (r: String)
    ensures
        r@ == dec_string(n as int),
{
    if n >= 0 {
        u64_to_string(n as u64)
    } else {
        let mut s = String::new();
        push_char(&mut s, '-');
        let mag: u64 = if n == i64::MIN {
            9223372036854775808u64
        } else {
            (-n) as u64
        };
        assert(mag == -(n as int));
        push_u64_digits(&mut s, mag);
        proof {
            assert(s@ =~= dec_string(n as int));
        }
        s
    }
}

} // verus!
