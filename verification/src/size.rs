//! Byte sizes for people, and the rounding that double precision brings with it.
//!
//! A double holds 53 significant bits. Everything here is done in integers; the
//! rounding a double would have applied is spelled out instead of borrowed.
use vstd::arithmetic::power2::{lemma2_to64, lemma_pow2_pos, lemma_pow2_unfold, pow2};
use vstd::prelude::*;

use crate::text::{decimal, decimal_of, digit};

verus! {

/// The whole number nearest to `n / d`; halfway between two, the even one.
pub open spec fn nearest(n: nat, d: nat) -> nat {
    let q = n / d;
    let r = n % d;
    if 2 * r < d || (2 * r == d && q % 2 == 0) {
        q
    } else {
        q + 1
    }
}

/// How many low bits of `n` do not fit into 53 significant bits.
pub open spec fn excess_bits(n: nat) -> nat
    decreases n,
{
    if n < 0x20_0000_0000_0000 {
        0
    } else {
        1 + excess_bits(n / 2)
    }
}

/// The value of `n` once it is held as a double: 53 significant bits, the
/// nearest there is, halfway between two the even one.
pub open spec fn as_double(n: nat) -> nat {
    let unit = pow2(excess_bits(n));
    nearest(n, unit) * unit
}

/// `n / unit` with one decimal.
pub open spec fn one_decimal(n: nat, unit: nat) -> Seq<char> {
    let tenths = nearest(10 * n, unit);
    decimal(tenths / 10) + "."@ + seq![digit(tenths % 10)]
}

/// A byte count as the command line prints it: whole bytes below 1024, otherwise
/// one decimal of the largest unit among K, M, G and T that it reaches.
pub open spec fn human_text(bytes: nat) -> Seq<char> {
    if bytes < 0x400 {
        decimal(bytes) + "B"@
    } else if bytes < 0x10_0000 {
        one_decimal(bytes, 0x400) + "K"@
    } else if bytes < 0x4000_0000 {
        one_decimal(bytes, 0x10_0000) + "M"@
    } else if bytes < 0x100_0000_0000 {
        one_decimal(bytes, 0x4000_0000) + "G"@
    } else {
        one_decimal(as_double(bytes), 0x100_0000_0000) + "T"@
    }
}

/// The whole number nearest to `n / d`; halfway between two, the even one.
pub fn nearest_of(n: u128, d: u128) -> (r: u128)
    requires
        0 < d < 0x8000_0000_0000_0000_0000_0000_0000_0000,
    ensures
        r == nearest(n as nat, d as nat),
{
    let q: u128 = n / d;
    let r: u128 = n % d;
    if 2 * r < d || (2 * r == d && q % 2 == 0) {
        q
    } else {
        assert(q < u128::MAX) by {
            if q == u128::MAX {
                assert(d == 1) by (nonlinear_arith)
                    requires
                        q == n / d,
                        q == u128::MAX,
                        d > 0,
                {}
            }
        }
        q + 1
    }
}

/// `nearest(n, unit) * unit` is at most half a unit away from `n`.
proof fn lemma_nearest_close(n: nat, unit: nat)
    requires
        unit > 0,
    ensures
        2 * (nearest(n, unit) * unit) <= 2 * n + unit,
        2 * n <= 2 * (nearest(n, unit) * unit) + unit,
{
    let q = n / unit;
    let r = n % unit;
    assert(n == q * unit + r) by (nonlinear_arith)
        requires
            unit > 0,
            q == n / unit,
            r == n % unit,
    ;
    assert((q + 1) * unit == q * unit + unit) by (nonlinear_arith);
}

/// The value of `n` once it is held as a double.
pub fn double_of(n: u128) -> (r: u128)
    requires
        n < 0x1_0000_0000_0000_0000_0000_0000,
    ensures
        r == as_double(n as nat),
        r <= 2 * n,
{
    let mut unit: u128 = 1;
    let mut rest: u128 = n;
    let ghost mut k: nat = 0;
    proof {
        lemma2_to64();
    }
    while rest >= 0x20_0000_0000_0000
        invariant
            n < 0x1_0000_0000_0000_0000_0000_0000,
            unit == pow2(k),
            excess_bits(n as nat) == k + excess_bits(rest as nat),
            rest * unit <= n,
            k > 0 ==> rest >= 0x10_0000_0000_0000,
        decreases rest,
    {
        assert(unit <= n) by (nonlinear_arith)
            requires
                rest * unit <= n,
                rest >= 1,
        ;
        proof {
            lemma_pow2_unfold(k + 1);
            let half = rest / 2;
            assert(half * (2 * unit) <= rest * unit) by (nonlinear_arith)
                requires
                    half == rest / 2,
                    0 <= rest,
                    0 <= unit,
            ;
            k = k + 1;
        }
        rest = rest / 2;
        unit = 2 * unit;
    }
    proof {
        assert(unit == pow2(excess_bits(n as nat)));
        lemma_pow2_pos(k);
        lemma_nearest_close(n as nat, unit as nat);
        assert(k > 0 ==> unit <= n) by (nonlinear_arith)
            requires
                rest * unit <= n,
                k > 0 ==> rest >= 1,
        ;
    }
    let q: u128 = nearest_of(n, unit);
    q * unit
}

/// `n / unit` with one decimal.
fn one_decimal_of(n: u128, unit: u128) -> (r: String)
    requires
        n < 0x1_0000_0000_0000_0000_0000_0000,
        0 < unit < 0x1_0000_0000_0000_0000,
    ensures
        r@ == one_decimal(n as nat, unit as nat),
{
    let tenths: u128 = nearest_of(10 * n, unit);
    let mut out = decimal_of(tenths / 10);
    out.append(".");
    let last: u8 = (tenths % 10) as u8;
    let ghost before = out@;
    out.push((last + 48u8) as char);
    assert(out@ =~= before + seq![digit(tenths as nat % 10)]);
    out
}

/// A byte count as the command line prints it.
pub fn human(bytes: u64) -> (r: String)
    ensures
        r@ == human_text(bytes as nat),
{
    let n: u128 = bytes as u128;
    let mut out = if n < 0x400 {
        decimal_of(n)
    } else if n < 0x10_0000 {
        one_decimal_of(n, 0x400)
    } else if n < 0x4000_0000 {
        one_decimal_of(n, 0x10_0000)
    } else if n < 0x100_0000_0000 {
        one_decimal_of(n, 0x4000_0000)
    } else {
        one_decimal_of(double_of(n), 0x100_0000_0000)
    };
    if n < 0x400 {
        out.append("B");
    } else if n < 0x10_0000 {
        out.append("K");
    } else if n < 0x4000_0000 {
        out.append("M");
    } else if n < 0x100_0000_0000 {
        out.append("G");
    } else {
        out.append("T");
    }
    out
}

/// What is nearest is at most half a unit away, and halfway between two it is the
/// even one.
pub proof fn law_nearest_is_nearest(n: nat, d: nat)
    requires
        d > 0,
    ensures
        2 * (nearest(n, d) * d) <= 2 * n + d,
        2 * n <= 2 * (nearest(n, d) * d) + d,
        2 * (nearest(n, d) * d) == 2 * n + d || 2 * n == 2 * (nearest(n, d) * d) + d ==> nearest(
            n,
            d,
        ) % 2 == 0,
{
    lemma_nearest_close(n, d);
    let q = n / d;
    let r = n % d;
    assert(n == q * d + r && r < d) by (nonlinear_arith)
        requires
            d > 0,
            q == n / d,
            r == n % d,
    ;
    assert((q + 1) * d == q * d + d) by (nonlinear_arith);
}

/// A number below 2^53 is a double as it is.
pub proof fn law_small_numbers_are_exact(n: nat)
    requires
        n < 0x20_0000_0000_0000,
    ensures
        as_double(n) == n,
{
    lemma2_to64();
    assert(pow2(0) == 1);
    assert(n / 1 == n && n % 1 == 0);
    assert(nearest(n, 1) == n);
    assert(n * 1 == n);
}

/// Whether a text is a number of tenths, with one decimal, and a unit.
pub open spec fn shows_tenths(text: Seq<char>, tenths: nat, unit: char) -> bool {
    text == decimal(tenths / 10).push('.').push((48 + tenths % 10) as char).push(unit)
}

/// A size is shown in bytes below 1024, and from there on in the largest of K, M, G
/// and T that it reaches, to the nearest tenth.
pub proof fn law_sizes_are_shown_to_a_tenth(bytes: nat) -> (tenths: nat)
    ensures
        bytes < 1024 ==> human_text(bytes) == decimal(bytes).push('B'),
        1024 <= bytes < 1048576 ==> shows_tenths(human_text(bytes), tenths, 'K') && -1024 <= 2 * (10
            * bytes - tenths * 1024) <= 1024,
        1048576 <= bytes < 1073741824 ==> shows_tenths(human_text(bytes), tenths, 'M') && -1048576
            <= 2 * (10 * bytes - tenths * 1048576) <= 1048576,
        1073741824 <= bytes < 1099511627776 ==> shows_tenths(human_text(bytes), tenths, 'G')
            && -1073741824 <= 2 * (10 * bytes - tenths * 1073741824) <= 1073741824,
        1099511627776 <= bytes < 0x20_0000_0000_0000 ==> shows_tenths(
            human_text(bytes),
            tenths,
            'T',
        ) && -1099511627776 <= 2 * (10 * bytes - tenths * 1099511627776) <= 1099511627776,
{
    reveal_strlit("B");
    reveal_strlit("K");
    reveal_strlit("M");
    reveal_strlit("G");
    reveal_strlit("T");
    reveal_strlit(".");
    if 1099511627776 <= bytes < 0x20_0000_0000_0000 {
        law_small_numbers_are_exact(bytes);
    }
    let unit: nat = if bytes < 1048576 {
        1024
    } else if bytes < 1073741824 {
        1048576
    } else if bytes < 1099511627776 {
        1073741824
    } else {
        1099511627776
    };
    let tenths = nearest(10 * bytes, unit);
    lemma_nearest_close(10 * bytes, unit);
    assert(digit(tenths % 10) == (48 + tenths % 10) as char);
    let text = decimal(tenths / 10) + "."@ + seq![digit(tenths % 10)];
    let shown = decimal(tenths / 10).push('.').push((48 + tenths % 10) as char);
    assert("."@ =~= seq!['.']);
    assert(text =~= shown);
    assert(text + "K"@ =~= shown.push('K')) by {
        assert("K"@ =~= seq!['K']);
    }
    assert(text + "M"@ =~= shown.push('M')) by {
        assert("M"@ =~= seq!['M']);
    }
    assert(text + "G"@ =~= shown.push('G')) by {
        assert("G"@ =~= seq!['G']);
    }
    assert(text + "T"@ =~= shown.push('T')) by {
        assert("T"@ =~= seq!['T']);
    }
    assert(decimal(bytes) + "B"@ =~= decimal(bytes).push('B')) by {
        assert("B"@ =~= seq!['B']);
    }
    tenths
}

} // verus!
