//! Byte counts as the views print them.
//!
//! A size is shown by turning the byte count into an `f64`, dividing by 1024 until it is small,
//! and printing it with a fixed number of decimals. Every step of that is exact arithmetic on
//! the binary value: the conversion rounds to 53 significant bits (ties to even), a division by
//! 1024 only moves the binary point, and printing with a fixed precision rounds the exact value
//! to the nearest decimal (ties to even). This module does the same with integers, so the text
//! is the one the float arithmetic prints, for every byte count.
use vstd::prelude::*;
use vstd::arithmetic::power2::{pow2, lemma2_to64, lemma2_to64_rest, lemma_pow2_adds,
    lemma_pow2_strictly_increases};
use crate::text::{decimal, digit, push_char, push_decimal};

verus! {

/// `n / d` rounded to the nearest whole number, a tie going to the even neighbour.
pub open spec fn div_round_even(n: nat, d: nat) -> nat {
    let q = n / d;
    let r = n % d;
    if 2 * r < d {
        q
    } else if 2 * r > d {
        q + 1
    } else if q % 2 == 0 {
        q
    } else {
        q + 1
    }
}

/// The exponent of the least significant bit `b` keeps as an `f64`, searching from `e`: the
/// least `e` (at most 11, enough for any `u64`) with `b < 2^(53+e)`.
pub open spec fn f64_exp(b: nat, e: nat) -> nat
    decreases 11 - e,
{
    if e < 11 && b >= pow2(53 + e) {
        f64_exp(b, e + 1)
    } else {
        e
    }
}

/// The value `b as f64` holds: `b` rounded to 53 significant bits, ties to even.
pub open spec fn f64_value(b: nat) -> nat {
    let e = f64_exp(b, 0);
    div_round_even(b, pow2(e)) * pow2(e)
}

/// `n / d` printed with `{:.0}`: the nearest whole number, ties to even.
pub open spec fn whole_text(n: nat, d: nat) -> Seq<char> {
    decimal(div_round_even(n, d))
}

/// `n / d` printed with `{:.1}`: rounded to tenths, ties to even.
pub open spec fn tenths_text(n: nat, d: nat) -> Seq<char> {
    let t = div_round_even(10 * n, d);
    decimal(t / 10) + seq!['.', digit(t % 10)]
}

proof fn lemma_quotient_bound(n: nat, d: nat, q: nat)
    requires
        d >= 1,
        q == n / d,
    ensures
        q * d <= n,
        q <= n,
        div_round_even(n, d) <= q + 1,
{
    assert(q * d <= n) by (nonlinear_arith)
        requires
            d >= 1,
            q == n / d,
    ;
    assert(q <= q * d) by (nonlinear_arith)
        requires
            d >= 1,
    ;
}

/// `div_round_even` on machine integers.
pub fn round_even(n: u128, d: u128) -> (r: u128)
    requires
        1 <= d <= 0x1_0000_0000_0000_0000_0000,
        n < 0x1000_0000_0000_0000_0000_0000_0000_0000,
    ensures
        r == div_round_even(n as nat, d as nat),
        r <= n + 1,
{
    let q = n / d;
    let r = n % d;
    proof {
        lemma_quotient_bound(n as nat, d as nat, q as nat);
    }
    if 2 * r < d {
        q
    } else if 2 * r > d {
        q + 1
    } else if q % 2 == 0 {
        q
    } else {
        q + 1
    }
}

/// `b as f64`, as the integer it holds.
pub fn f64_of(b: u64) -> (f: u128)
    ensures
        f == f64_value(b as nat),
        f <= b + 2048,
{
    proof {
        lemma2_to64();
        lemma2_to64_rest();
    }
    let mut e: usize = 0;
    let mut lim: u128 = 0x20_0000_0000_0000;
    let mut unit: u128 = 1;
    while e < 11 && (b as u128) >= lim
        invariant
            e <= 11,
            lim == pow2((53 + e) as nat),
            unit == pow2(e as nat),
            unit <= 2048,
            f64_exp(b as nat, 0) == f64_exp(b as nat, e as nat),
        decreases 11 - e,
    {
        proof {
            lemma_pow2_adds((53 + e) as nat, 1);
            lemma_pow2_adds(e as nat, 1);
            lemma2_to64();
            if e < 10 {
                lemma_pow2_strictly_increases(e as nat, 10);
            }
        }
        lim = lim * 2;
        unit = unit * 2;
        e = e + 1;
    }
    let q = round_even(b as u128, unit);
    proof {
        lemma_quotient_bound(b as nat, unit as nat, (b as nat) / (unit as nat));
        assert(q * unit <= b + unit) by (nonlinear_arith)
            requires
                q <= (b as nat) / (unit as nat) + 1,
                ((b as nat) / (unit as nat)) * unit <= b,
        ;
    }
    q * unit
}

/// Appends `n / d` as `{:.0}` prints it.
pub fn push_whole(s: &mut String, n: u128, d: u128)
    requires
        1024 <= d <= 0x1_0000_0000_0000_0000_0000,
        n <= 0x2_0000_0000_0000_0000,
    ensures
        final(s)@ == old(s)@ + whole_text(n as nat, d as nat),
{
    let t = round_even(n, d);
    proof {
        let q = (n as nat) / (d as nat);
        lemma_quotient_bound(n as nat, d as nat, q);
        assert(q * 1024 <= q * d) by (nonlinear_arith)
            requires
                d >= 1024,
        ;
    }
    push_decimal(s, t as u64);
}

/// Appends `n / d` as `{:.1}` prints it.
pub fn push_tenths(s: &mut String, n: u128, d: u128)
    requires
        1024 <= d <= 0x1_0000_0000_0000_0000_0000,
        n <= 0x2_0000_0000_0000_0000,
    ensures
        final(s)@ == old(s)@ + tenths_text(n as nat, d as nat),
{
    let t = round_even(10 * n, d);
    proof {
        let q = (10 * n as nat) / (d as nat);
        lemma_quotient_bound(10 * n as nat, d as nat, q);
        assert(q * 1024 <= q * d) by (nonlinear_arith)
            requires
                d >= 1024,
        ;
    }
    let ghost before = s@;
    push_decimal(s, (t / 10) as u64);
    push_char(s, '.');
    let last = (t % 10) as u64;
    push_char(
        s,
        if last == 0 {
            '0'
        } else if last == 1 {
            '1'
        } else if last == 2 {
            '2'
        } else if last == 3 {
            '3'
        } else if last == 4 {
            '4'
        } else if last == 5 {
            '5'
        } else if last == 6 {
            '6'
        } else if last == 7 {
            '7'
        } else if last == 8 {
            '8'
        } else {
            '9'
        },
    );
    assert(s@ =~= before + tenths_text(n as nat, d as nat));
}

} // verus!
