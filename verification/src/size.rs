//! Human-readable file sizes ("512 B", "1.5 KB", "2.0 MB").
//!
//! The tool prints a size of a kilobyte or more as the quotient of the size,
//! converted to a double, by 1024 or 1024 * 1024, with one decimal.  The
//! conversion rounds to 53 significant bits, ties to even, and dividing by a
//! power of two is exact; the decimal is then rounded, ties to even.  All of
//! this is computed here with integers, exactly.

use vstd::prelude::*;
use vstd::string::*;
use vstd::arithmetic::div_mod::*;
use vstd::arithmetic::mul::*;
use crate::text::{decimal, digit_char, push_char, push_decimal};

verus! {

/// 2^53: every integer below it is exactly a double.
pub open spec fn two_pow_53() -> nat {
    0x20_0000_0000_0000
}

/// 2^k.
pub open spec fn pow2(k: nat) -> nat
    decreases k,
{
    if k == 0 {
        1
    } else {
        2 * pow2((k - 1) as nat)
    }
}

/// How many low bits of `n` a double cannot hold.
pub open spec fn dropped_bits(n: nat) -> nat
    decreases n,
{
    if n < two_pow_53() {
        0
    } else {
        1 + dropped_bits(n / 2)
    }
}

/// The value of `n as f64`: `n` rounded to 53 significant bits, ties to even.
pub open spec fn as_double(n: nat) -> nat {
    let k = dropped_bits(n);
    if k == 0 {
        n
    } else {
        let q = n / pow2(k);
        let r = n % pow2(k);
        let half = pow2(k) / 2;
        let up = r > half || (r == half && q % 2 == 1);
        (if up {
            q + 1
        } else {
            q
        }) * pow2(k)
    }
}

/// `x / d` counted in tenths, rounded to the nearest tenth, ties to even
/// (how `{:.1}` rounds a double that is exactly `x / d`).
pub open spec fn rounded_tenths(x: nat, d: nat) -> nat {
    let t = (x * 10) / d;
    let r = (x * 10) % d;
    if 2 * r > d || (2 * r == d && t % 2 == 1) {
        t + 1
    } else {
        t
    }
}

/// A number of tenths written with one decimal: 15 becomes "1.5".
pub open spec fn one_decimal(t: nat) -> Seq<char> {
    decimal(t / 10) + seq!['.', digit_char(t % 10)]
}

/// The text that [`format_size`] returns for `size`.
pub open spec fn size_text(size: u64) -> Seq<char> {
    if size >= 1024 * 1024 {
        one_decimal(rounded_tenths(as_double(size as nat), 1024 * 1024)) + " MB"@
    } else if size >= 1024 {
        one_decimal(rounded_tenths(size as nat, 1024)) + " KB"@
    } else {
        decimal(size as nat) + " B"@
    }
}

/// The value of `n as f64`, as an integer.
fn double_value(n: u64) -> (x: u128)
    ensures
        x == as_double(n as nat),
        x <= 2 * (n as nat),
{
    if n < 0x20_0000_0000_0000 {
        return n as u128;
    }
    let mut m: u64 = n;
    let mut k: u64 = 0;
    let mut pow: u128 = 1;
    assert(n as nat / pow2(0) == n) by {
        lemma_div_basics(n as int);
    }
    while m >= 0x20_0000_0000_0000
        invariant
            m as nat == n as nat / pow2(k as nat),
            pow == pow2(k as nat),
            dropped_bits(n as nat) == k + dropped_bits(m as nat),
            0 < pow <= n,
            k < pow,
            m >= 1,
        decreases m,
    {
        proof {
            lemma_div_denominator(n as int, pow2(k as nat) as int, 2);
            assert(pow2((k + 1) as nat) == 2 * pow2(k as nat));
            assert(pow2(k as nat) * 2 == 2 * pow2(k as nat)) by (nonlinear_arith);
            lemma_fundamental_div_mod(n as int, (2 * pow) as int);
            lemma_mod_pos_bound(n as int, (2 * pow) as int);
            let m2 = m as int / 2;
            assert(m2 >= 1);
            assert((2 * pow) * (n as int / (2 * pow) as int) <= n);
            assert(n as int / (2 * pow) as int == m2);
            assert(2 * pow <= n) by (nonlinear_arith)
                requires
                    (2 * pow) * m2 <= n,
                    m2 >= 1,
                    pow > 0,
            ;
        }
        m = m / 2;
        k = k + 1;
        pow = pow * 2;
    }
    proof {
        lemma_fundamental_div_mod(n as int, pow as int);
        lemma_mod_pos_bound(n as int, pow as int);
        assert(k >= 1);
        assert(pow * (m as int) <= n);
    }
    let q: u128 = m as u128;
    let r: u128 = n as u128 - q * pow;
    assert(r == n as nat % pow2(k as nat));
    let half = pow / 2;
    let up = r > half || (r == half && q % 2 == 1);
    let q2: u128 = if up {
        q + 1
    } else {
        q
    };
    assert(q2 * pow <= 2 * (n as nat)) by (nonlinear_arith)
        requires
            q2 <= q + 1,
            q >= 1,
            pow * q <= n,
    ;
    q2 * pow
}

/// `x / d` in tenths, rounded as [`rounded_tenths`] says.
fn tenths_of(x: u128, d: u128) -> (t: u128)
    requires
        x <= 0x4_0000_0000_0000_0000,
        1024 <= d <= 1024 * 1024,
    ensures
        t == rounded_tenths(x as nat, d as nat),
        t * 100 <= x + 100,
{
    let x10 = x * 10;
    let t = x10 / d;
    let r = x10 % d;
    proof {
        lemma_fundamental_div_mod(x10 as int, d as int);
        lemma_mod_pos_bound(x10 as int, d as int);
        assert(d * t <= x10);
        assert(t * 100 <= x) by (nonlinear_arith)
            requires
                d * t <= x10,
                d >= 1024,
                x10 == x * 10,
                t >= 0,
        ;
    }
    if 2 * r > d || (2 * r == d && t % 2 == 1) {
        t + 1
    } else {
        t
    }
}

/// Appends a number of tenths with one decimal.
fn push_one_decimal(s: &mut String, t: u128)
    requires
        t / 10 <= u64::MAX,
    ensures
        final(s)@ == old(s)@ + one_decimal(t as nat),
{
    push_decimal(s, (t / 10) as u64);
    push_char(s, '.');
    let d = (t % 10) as u64;
    let c = if d == 0 {
        '0'
    } else if d == 1 {
        '1'
    } else if d == 2 {
        '2'
    } else if d == 3 {
        '3'
    } else if d == 4 {
        '4'
    } else if d == 5 {
        '5'
    } else if d == 6 {
        '6'
    } else if d == 7 {
        '7'
    } else if d == 8 {
        '8'
    } else {
        '9'
    };
    push_char(s, c);
    assert(old(s)@ + one_decimal(t as nat) == old(s)@ + decimal((t / 10) as nat) + seq!['.'] + seq![
        c,
    ]);
}

/// Formats a size in bytes for display: "B" below a kilobyte, else "KB"
/// below a megabyte, else "MB", the last two with one decimal.
pub fn format_size(size: u64) -> (s: String)
    ensures
        s@ == size_text(size),
{
    let mut s = String::new();
    if size >= 1024 * 1024 {
        let x = double_value(size);
        let t = tenths_of(x, 1024 * 1024);
        push_one_decimal(&mut s, t);
        s.append(" MB");
    } else if size >= 1024 {
        let t = tenths_of(size as u128, 1024);
        push_one_decimal(&mut s, t);
        s.append(" KB");
    } else {
        push_decimal(&mut s, size);
        s.append(" B");
    }
    s
}

} // verus!
