//! Decimal fixed-point arithmetic helpers.
//!
//! Values throughout the library are decimal numbers stored as integer
//! mantissas: the pair `(m, scale)` stands for `m / 10^scale`.  This module
//! holds the integer division and rounding primitives the projections use,
//! and the exact decimal formatting of a mantissa back into text.

use vstd::prelude::*;

verus! {

use vstd::arithmetic::div_mod::{
    lemma_div_is_ordered,
    lemma_div_nonincreasing,
    lemma_div_pos_is_pos,
    lemma_fundamental_div_mod,
    lemma_fundamental_div_mod_converse,
    lemma_mod_bound,
};
use vstd::math::abs;

/// `10^k` as a mathematical integer.
pub open spec fn pow10(k: nat) -> int
    decreases k,
{
    if k == 0 {
        1
    } else {
        10 * pow10((k - 1) as nat)
    }
}

pub proof fn lemma_pow10_pos(k: nat)
    ensures
        pow10(k) >= 1,
    decreases k,
{
    if k > 0 {
        lemma_pow10_pos((k - 1) as nat);
    }
}

pub proof fn lemma_pow10_mono(j: nat, k: nat)
    requires
        j <= k,
    ensures
        pow10(j) <= pow10(k),
    decreases k,
{
    if j < k {
        lemma_pow10_mono(j, (k - 1) as nat);
        lemma_pow10_pos((k - 1) as nat);
    }
}

/// Dividing a negative numerator rounds away from zero: `(-n) / b` is the
/// negated ceiling of `n / b`.
proof fn lemma_neg_div_is_neg_ceil(n: int, b: int)
    requires
        n >= 0,
        b >= 1,
    ensures
        (-n) / b == -((n + b - 1) / b),
{
    let q0 = (n + b - 1) / b;
    let r1 = (n + b - 1) % b;
    lemma_fundamental_div_mod(n + b - 1, b);
    lemma_mod_bound(n + b - 1, b);
    assert((-q0) * b == -(b * q0)) by (nonlinear_arith);
    lemma_fundamental_div_mod_converse(-n, b, -q0, b - 1 - r1);
}

/// Floor division of `a` by a positive `b` (what `/` already means on
/// spec integers with a positive divisor).
pub fn div_floor(a: i64, b: i64) -> (q: i64)
    requires
        1 <= b < 0x4000_0000_0000_0000,
        -0x4000_0000_0000_0000 < a < 0x4000_0000_0000_0000,
    ensures
        q == a as int / b as int,
{
    if a >= 0 {
        let q = (a as u64) / (b as u64);
        proof {
            lemma_div_nonincreasing(a as int, b as int);
            lemma_div_pos_is_pos(a as int, b as int);
        }
        q as i64
    } else {
        let n: u64 = (-a) as u64;
        let bu: u64 = b as u64;
        let q: u64 = (n + bu - 1) / bu;
        proof {
            lemma_neg_div_is_neg_ceil(n as int, bu as int);
            lemma_div_nonincreasing(n as int + bu - 1, bu as int);
            lemma_div_pos_is_pos(n as int + bu - 1, bu as int);
        }
        -(q as i64)
    }
}

/// Rounding of the quotient `n / d` to the nearest integer, halves away
/// from zero (the rounding rule of `f64::round`).
pub open spec fn round_half_away(n: int, d: int) -> int
    recommends
        d >= 1,
{
    if n >= 0 {
        (2 * n + d) / (2 * d)
    } else {
        -((2 * (-n) + d) / (2 * d))
    }
}

/// Rounded division, halves away from zero, mirroring `round_half_away`.
pub fn round_div(n: i128, d: i128) -> (r: i128)
    requires
        1 <= d < 0x1_0000_0000_0000_0000_0000,
        -0x1_0000_0000_0000_0000_0000_0000_0000 < n < 0x1_0000_0000_0000_0000_0000_0000_0000,
    ensures
        r == round_half_away(n as int, d as int),
{
    if n >= 0 {
        let q = ((2 * n + d) as u128) / ((2 * d) as u128);
        proof {
            lemma_div_nonincreasing(2 * n as int + d as int, 2 * d as int);
            lemma_div_pos_is_pos(2 * n as int + d as int, 2 * d as int);
        }
        q as i128
    } else {
        let m = -n;
        let q = ((2 * m + d) as u128) / ((2 * d) as u128);
        proof {
            lemma_div_nonincreasing(2 * m as int + d as int, 2 * d as int);
            lemma_div_pos_is_pos(2 * m as int + d as int, 2 * d as int);
        }
        -(q as i128)
    }
}

pub proof fn lemma_round_half_away_mono(n1: int, n2: int, d: int)
    requires
        d >= 1,
        n1 <= n2,
    ensures
        round_half_away(n1, d) <= round_half_away(n2, d),
{
    if n1 >= 0 {
        lemma_div_is_ordered(2 * n1 + d, 2 * n2 + d, 2 * d);
    } else if n2 < 0 {
        lemma_div_is_ordered(2 * (-n2) + d, 2 * (-n1) + d, 2 * d);
    } else {
        lemma_div_pos_is_pos(2 * (-n1) + d, 2 * d);
        lemma_div_pos_is_pos(2 * n2 + d, 2 * d);
    }
}

/// An exact multiple of the divisor rounds to that multiple.
pub proof fn lemma_round_half_away_exact(f: int, d: int)
    requires
        d >= 1,
    ensures
        round_half_away(f * d, d) == f,
{
    if f >= 0 {
        assert(f * d >= 0) by (nonlinear_arith)
            requires
                f >= 0,
                d >= 1,
        ;
        assert(2 * (f * d) + d == f * (2 * d) + d) by (nonlinear_arith);
        lemma_fundamental_div_mod_converse(2 * (f * d) + d, 2 * d, f, d);
    } else {
        assert(f * d < 0) by (nonlinear_arith)
            requires
                f < 0,
                d >= 1,
        ;
        assert(2 * (-(f * d)) + d == (-f) * (2 * d) + d) by (nonlinear_arith);
        lemma_fundamental_div_mod_converse(2 * (-(f * d)) + d, 2 * d, -f, d);
    }
}

/// The rounded quotient of a numerator between two exact multiples lies
/// between the multiples.
pub proof fn lemma_round_half_away_bounds(n: int, d: int, lo: int, hi: int)
    requires
        d >= 1,
        lo * d <= n <= hi * d,
    ensures
        lo <= round_half_away(n, d) <= hi,
{
    lemma_round_half_away_exact(lo, d);
    lemma_round_half_away_exact(hi, d);
    lemma_round_half_away_mono(lo * d, n, d);
    lemma_round_half_away_mono(n, hi * d, d);
}

/// The decimal digit character for one digit value.
pub open spec fn digit_char(d: int) -> char {
    if d == 0 {
        '0'
    } else if d == 1 {
        '1'
    } else if d == 2 {
        '2'
    } else if d == 3 {
        '3'
    } else if d == 4 {
        '4'
    } else if d == 5 {
        '5'
    } else if d == 6 {
        '6'
    } else if d == 7 {
        '7'
    } else if d == 8 {
        '8'
    } else {
        '9'
    }
}

/// The decimal digit characters of `n`, most significant first.
pub open spec fn dec_digits(n: nat) -> Seq<char>
    decreases n,
{
    if n < 10 {
        seq![digit_char(n as int)]
    } else {
        dec_digits(n / 10).push(digit_char((n % 10) as int))
    }
}

fn digit_char_of(d: u64) -> (c: char)
    requires
        d < 10,
    ensures
        c == digit_char(d as int),
{
    match d {
        0 => '0',
        1 => '1',
        2 => '2',
        3 => '3',
        4 => '4',
        5 => '5',
        6 => '6',
        7 => '7',
        8 => '8',
        _ => '9',
    }
}

fn push_digits(n: u64, out: &mut Vec<char>)
    ensures
        final(out)@ == old(out)@ + dec_digits(n as nat),
    decreases n,
{
    if n < 10 {
        out.push(digit_char_of(n));
        assert(out@ =~= old(out)@ + dec_digits(n as nat));
    } else {
        push_digits(n / 10, out);
        out.push(digit_char_of(n % 10));
        assert(out@ =~= old(out)@ + dec_digits(n as nat));
    }
}

proof fn lemma_dec_digits_len_bound(n: nat, k: nat)
    requires
        k >= 1,
        n < pow10(k),
    ensures
        1 <= dec_digits(n).len() <= k,
    decreases n,
{
    if n >= 10 {
        lemma_pow10_pos((k - 1) as nat);
        assert(pow10(k) == 10 * pow10((k - 1) as nat));
        // n <= pow10(k) - 1, so n / 10 <= pow10(k - 1) - 1
        lemma_div_is_ordered(n as int, 10 * pow10((k - 1) as nat) - 1, 10);
        lemma_fundamental_div_mod_converse(
            10 * pow10((k - 1) as nat) - 1,
            10,
            pow10((k - 1) as nat) - 1,
            9,
        );
        assert(n / 10 < n) by {
            vstd::arithmetic::div_mod::lemma_div_decreases(n as int, 10);
        }
        lemma_dec_digits_len_bound(n / 10, (k - 1) as nat);
    }
}

proof fn lemma_dec_digits_len(n: nat)
    requires
        n < 0x1_0000_0000_0000_0000,
    ensures
        1 <= dec_digits(n).len() <= 20,
{
    assert(pow10(20) == 100_000_000_000_000_000_000) by {
        reveal_with_fuel(pow10, 21);
    }
    lemma_dec_digits_len_bound(n, 20);
}

/// The fractional digits of a decimal string, with trailing zeros removed.
pub open spec fn trim_zeros(s: Seq<char>) -> Seq<char>
    decreases s.len(),
{
    if s.len() > 0 && s.last() == '0' {
        trim_zeros(s.drop_last())
    } else {
        s
    }
}

proof fn lemma_trim_zeros_take(s: Seq<char>, j: int)
    requires
        0 <= j <= s.len(),
        forall|i: int| j <= i < s.len() ==> s[i] == '0',
        j == 0 || s[j - 1] != '0',
    ensures
        trim_zeros(s) == s.take(j),
    decreases s.len(),
{
    if s.len() == j {
        assert(s.take(j) =~= s);
    } else {
        lemma_trim_zeros_take(s.drop_last(), j);
        assert(s.drop_last().take(j) =~= s.take(j));
    }
}

proof fn lemma_trim_zeros_prefix(s: Seq<char>)
    ensures
        trim_zeros(s).len() <= s.len(),
        forall|i: int|
            0 <= i < trim_zeros(s).len() ==> #[trigger] trim_zeros(s)[i] == s[i],
    decreases s.len(),
{
    if s.len() > 0 && s.last() == '0' {
        lemma_trim_zeros_prefix(s.drop_last());
        assert forall|i: int|
            0 <= i < trim_zeros(s).len() implies #[trigger] trim_zeros(s)[i] == s[i] by {
            assert(trim_zeros(s)[i] == s.drop_last()[i]);
        }
    }
}

/// The exact text of the decimal number `m / 10^scale`: an optional minus
/// sign, the integer digits, and the fractional digits with trailing zeros
/// trimmed (no fraction at all when it would be all zeros).
pub open spec fn spec_format_decimal(m: int, scale: nat) -> Seq<char> {
    let digs = dec_digits(abs(m));
    let padded = if digs.len() >= scale + 1 {
        digs
    } else {
        Seq::new((scale + 1 - digs.len()) as nat, |i: int| '0') + digs
    };
    let cut = padded.len() - scale;
    let int_part = padded.take(cut as int);
    let frac = trim_zeros(padded.skip(cut as int));
    let sign: Seq<char> = if m < 0 {
        seq!['-']
    } else {
        Seq::empty()
    };
    sign + int_part + (if frac.len() > 0 {
        seq!['.'] + frac
    } else {
        Seq::empty()
    })
}

/// Relies on `String: FromIterator<char>`: collecting characters yields the
/// string made of exactly those characters in order.
#[verifier::external_body]
pub(crate) fn chars_to_string(chars: &Vec<char>) -> (s: String)
    ensures
        s@ == chars@,
{
    chars.iter().collect()
}

/// Render the decimal number `m / 10^scale` as text.
#[verifier::rlimit(50)]
pub fn format_decimal(m: i64, scale: u32) -> (s: String)
    requires
        scale <= 16,
        -0x4000_0000_0000_0000 < m < 0x4000_0000_0000_0000,
    ensures
        s@ == spec_format_decimal(m as int, scale as nat),
{
    let neg = m < 0;
    let n: u64 = if neg {
        (-m) as u64
    } else {
        m as u64
    };
    let mut digs: Vec<char> = Vec::new();
    push_digits(n, &mut digs);
    proof {
        lemma_dec_digits_len(n as nat);
    }

    let ghost spec_padded: Seq<char> = if digs@.len() >= scale + 1 {
        digs@
    } else {
        Seq::new((scale + 1 - digs@.len()) as nat, |i: int| '0') + digs@
    };

    let mut padded: Vec<char> = Vec::new();
    let pad_len: usize = if digs.len() >= scale as usize + 1 {
        0
    } else {
        scale as usize + 1 - digs.len()
    };
    let mut i: usize = 0;
    while i < pad_len
        invariant
            i <= pad_len,
            padded@ =~= Seq::new(i as nat, |k: int| '0'),
        decreases pad_len - i,
    {
        padded.push('0');
        i = i + 1;
    }
    let mut j: usize = 0;
    while j < digs.len()
        invariant
            j <= digs@.len(),
            padded@ =~= Seq::new(pad_len as nat, |k: int| '0') + digs@.take(j as int),
        decreases digs@.len() - j,
    {
        let c = digs[j];
        padded.push(c);
        j = j + 1;
    }
    assert(padded@ =~= spec_padded);

    let cut: usize = padded.len() - scale as usize;

    // Index just past the last fractional digit that is not '0'.
    let mut end: usize = padded.len();
    while end > cut && padded[end - 1] == '0'
        invariant
            cut <= end <= padded@.len(),
            forall|k: int| end <= k < padded@.len() ==> padded@[k] == '0',
        decreases end,
    {
        end = end - 1;
    }

    let mut out: Vec<char> = Vec::new();
    if neg {
        out.push('-');
    }
    let ghost sign: Seq<char> = if neg {
        seq!['-']
    } else {
        Seq::empty()
    };
    let mut p: usize = 0;
    while p < cut
        invariant
            p <= cut <= padded@.len(),
            out@ =~= sign + padded@.take(p as int),
            sign == (if neg {
                seq!['-']
            } else {
                Seq::<char>::empty()
            }),
        decreases cut - p,
    {
        let c = padded[p];
        out.push(c);
        p = p + 1;
    }
    if end > cut {
        out.push('.');
        let mut q: usize = cut;
        while q < end
            invariant
                cut <= q <= end <= padded@.len(),
                out@ =~= sign + padded@.take(cut as int) + seq!['.'] + padded@.subrange(
                    cut as int,
                    q as int,
                ),
                sign == (if neg {
                    seq!['-']
                } else {
                    Seq::<char>::empty()
                }),
            decreases end - q,
        {
            let c = padded[q];
            out.push(c);
            q = q + 1;
        }
    }
    proof {
        let frac0 = padded@.skip(cut as int);
        lemma_trim_zeros_take(frac0, end - cut);
        assert(frac0.take(end - cut) =~= padded@.subrange(cut as int, end as int));
        if end > cut {
            assert(out@ =~= spec_format_decimal(m as int, scale as nat));
        } else {
            assert(out@ =~= spec_format_decimal(m as int, scale as nat));
        }
    }
    chars_to_string(&out)
}

/// A formatted decimal with a bounded mantissa and scale is short.
pub proof fn lemma_format_decimal_len(m: int, scale: nat)
    requires
        -0x4000_0000_0000_0000 < m < 0x4000_0000_0000_0000,
        scale <= 16,
    ensures
        1 <= spec_format_decimal(m, scale).len() <= 42,
{
    lemma_dec_digits_len(abs(m));
    let digs = dec_digits(abs(m));
    let padded = if digs.len() >= scale + 1 {
        digs
    } else {
        Seq::new((scale + 1 - digs.len()) as nat, |i: int| '0') + digs
    };
    let cut = padded.len() - scale;
    lemma_trim_zeros_prefix(padded.skip(cut as int));
}

} // verus!
