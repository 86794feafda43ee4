//! Figures as decimal text with a fixed number of decimals.
//!
//! The text is that of the exact value of the figure, rounded to the nearest decimal with
//! ties to even, so it is the same text on every machine.
use vstd::prelude::*;
use vstd::arithmetic::div_mod::*;
use vstd::arithmetic::mul::*;
use vstd::arithmetic::power2::*;
use crate::level::{law_fraction_is_the_value, round_half_even, Level};
use crate::text::{self, digits, padded_digits};

verus! {

/// `10^p`.
pub open spec fn ten_power(p: nat) -> nat
    decreases p,
{
    if p == 0 {
        1
    } else {
        10 * ten_power((p - 1) as nat)
    }
}

/// The fraction `num / den` with `p` decimals.
pub open spec fn fixed_fraction(num: nat, den: nat, p: nat) -> Seq<char> {
    let n = round_half_even(num * ten_power(p), den);
    digits(n / ten_power(p)) + "."@ + padded_digits(n % ten_power(p), p)
}

/// The text of a figure with `p` decimals.
pub open spec fn fixed_text(l: Level, p: nat) -> Seq<char> {
    if l.nan() {
        "NaN"@
    } else if !l.finite() {
        if l.negative() {
            "-inf"@
        } else {
            "inf"@
        }
    } else if l.negative() {
        "-"@ + fixed_fraction(l.numerator(), l.denominator(), p)
    } else {
        fixed_fraction(l.numerator(), l.denominator(), p)
    }
}

/// The number whose decimal digits, lowest first, are `s`.
spec fn digits_value(s: Seq<u8>) -> nat
    decreases s.len(),
{
    if s.len() == 0 {
        0
    } else {
        digits_value(s.drop_last()) + s.last() as nat * ten_power((s.len() - 1) as nat)
    }
}

/// Every element is a decimal digit and the highest one is not zero.
spec fn numeral(s: Seq<u8>) -> bool {
    s.len() > 0 && s.last() != 0 && forall|i: int| 0 <= i < s.len() ==> s[i] < 10
}

proof fn lemma_lowest_digit(s: Seq<u8>)
    requires
        s.len() > 0,
    ensures
        digits_value(s) == s[0] as nat + 10 * digits_value(s.skip(1)),
    decreases s.len(),
{
    let n = (s.len() - 1) as nat;
    let d = s.last() as nat;
    assert(digits_value(s) == digits_value(s.drop_last()) + d * ten_power(n));
    if n == 0 {
        assert(s.drop_last() =~= Seq::<u8>::empty());
        assert(s.skip(1) =~= Seq::<u8>::empty());
        assert(ten_power(0) == 1);
        assert(digits_value(s.drop_last()) == 0);
        assert(digits_value(s.skip(1)) == 0);
        assert(d * 1 == d);
    } else {
        let rest = s.skip(1);
        lemma_lowest_digit(s.drop_last());
        assert(s.drop_last().skip(1) =~= rest.drop_last());
        assert(rest.last() == s.last());
        let t = ten_power((n - 1) as nat);
        assert(ten_power(n) == 10 * t);
        assert(digits_value(rest) == digits_value(rest.drop_last()) + d * t);
        assert(d * (10 * t) == 10 * (d * t)) by (nonlinear_arith);
    }
}

/// The decimal digits of `m`, lowest first.
fn digits_of(m: u64) -> (v: Vec<u8>)
    requires
        m > 0,
    ensures
        numeral(v@),
        digits_value(v@) == m,
{
    let mut v: Vec<u8> = Vec::new();
    let mut rest: u64 = m;
    let ghost mut t: nat = 1;
    assert(ten_power(0) == 1);
    while rest > 0
        invariant
            t == ten_power(v@.len()),
            t > 0,
            digits_value(v@) + rest as nat * t == m,
            forall|i: int| 0 <= i < v@.len() ==> v@[i] < 10,
            rest == 0 ==> v@.len() > 0 && v@.last() != 0,
            m > 0,
        decreases rest,
    {
        let ghost before = v@;
        let d: u8 = (rest % 10) as u8;
        v.push(d);
        proof {
            assert(v@.drop_last() =~= before);
            let q = rest as nat / 10;
            assert(rest as nat * t == d as nat * t + q * (10 * t)) by (nonlinear_arith)
                requires
                    rest as nat == 10 * q + d as nat,
            ;
            t = 10 * t;
        }
        rest = rest / 10;
    }
    assert(0 * t == 0);
    v
}

/// The digits of twice a number.
fn doubled(v: &Vec<u8>) -> (r: Vec<u8>)
    requires
        numeral(v@),
    ensures
        numeral(r@),
        digits_value(r@) == 2 * digits_value(v@),
{
    let mut r: Vec<u8> = Vec::new();
    let mut carry: u8 = 0;
    let mut i: usize = 0;
    assert(v@.take(0) =~= Seq::<u8>::empty());
    while i < v.len()
        invariant
            numeral(v@),
            i <= v@.len(),
            r@.len() == i,
            carry <= 1,
            forall|j: int| 0 <= j < r@.len() ==> r@[j] < 10,
            digits_value(r@) + carry as nat * ten_power(i as nat) == 2 * digits_value(v@.take(i as int)),
            i == v@.len() ==> carry == 1 || r@.last() != 0,
        decreases v.len() - i,
    {
        let ghost before = r@;
        let ghost carried = carry as nat;
        let d: u8 = 2 * v[i] + carry;
        r.push(d % 10);
        carry = d / 10;
        proof {
            assert(r@.drop_last() =~= before);
            assert(v@.take(i + 1).drop_last() =~= v@.take(i as int));
            let t = ten_power(i as nat);
            let low = (d % 10) as nat;
            let x = v@[i as int] as nat;
            assert(low * t + carry as nat * (10 * t) == carried * t + 2 * (x * t)) by (nonlinear_arith)
                requires
                    low + 10 * (carry as nat) == 2 * x + carried,
            ;
        }
        i = i + 1;
    }
    assert(v@.take(v@.len() as int) =~= v@);
    if carry == 1 {
        let ghost before = r@;
        r.push(1);
        assert(r@.drop_last() =~= before);
    }
    r
}

/// The text of a number given by its digits.
fn numeral_text(v: &Vec<u8>) -> (r: String)
    requires
        numeral(v@),
    ensures
        r@ == digits(digits_value(v@)),
{
    let mut i: usize = v.len() - 1;
    let mut r = text::number(v[i] as u64);
    proof {
        lemma_lowest_digit(v@.skip(i as int));
        assert(v@.skip(i as int).skip(1) =~= Seq::<u8>::empty());
    }
    while i > 0
        invariant
            numeral(v@),
            i < v@.len(),
            r@ == digits(digits_value(v@.skip(i as int))),
            digits_value(v@.skip(i as int)) > 0,
        decreases i,
    {
        i = i - 1;
        let d = text::number(v[i] as u64);
        r.append(d.as_str());
        proof {
            let s = v@.skip(i as int);
            lemma_lowest_digit(s);
            assert(s.skip(1) =~= v@.skip(i + 1));
            let n = digits_value(s);
            assert(n / 10 == digits_value(s.skip(1)) && n % 10 == s[0]) by {
                lemma_fundamental_div_mod_converse(
                    n as int,
                    10,
                    digits_value(s.skip(1)) as int,
                    s[0] as int,
                );
            }
            assert(r@ =~= digits(n));
        }
    }
    assert(v@.skip(0) =~= v@);
    r
}

/// The decimal numeral of `m * 2^j`.
fn large_number(m: u64, j: u64) -> (r: String)
    requires
        m > 0,
    ensures
        r@ == digits(m as nat * pow2(j as nat)),
{
    let mut v = digits_of(m);
    let mut i: u64 = 0;
    proof {
        lemma2_to64();
    }
    while i < j
        invariant
            i <= j,
            numeral(v@),
            digits_value(v@) == m as nat * pow2(i as nat),
        decreases j - i,
    {
        v = doubled(&v);
        proof {
            lemma_pow2_unfold((i + 1) as nat);
            let p = pow2(i as nat);
            assert(2 * (m as nat * p) == m as nat * (2 * p)) by (nonlinear_arith);
        }
        i = i + 1;
    }
    numeral_text(&v)
}

/// `10^p` for the one or two decimals that figures are written with.
fn scale_of(p: u64) -> (r: u64)
    requires
        1 <= p <= 2,
    ensures
        r == ten_power(p as nat),
        1 <= r <= 100,
{
    proof {
        reveal_with_fuel(ten_power, 4);
    }
    if p == 1 {
        10
    } else {
        100
    }
}

/// The absolute value of a finite figure with `p` decimals.
fn fixed_absolute(l: Level, p: u64) -> (r: String)
    requires
        l.finite(),
        1 <= p <= 2,
    ensures
        r@ == fixed_fraction(l.numerator(), l.denominator(), p as nat),
{
    let scale = scale_of(p);
    let (m, k) = l.parts();
    proof {
        l.lemma_parts_bounded();
        lemma2_to64();
        lemma2_to64_rest();
    }
    if k >= 1074 {
        let mut r = large_number(m, k - 1074);
        r.append(".");
        let zeros = text::padded_number(0, p);
        r.append(zeros.as_str());
        proof {
            let num = l.numerator();
            let n = num * (scale as nat);
            lemma_fundamental_div_mod_converse(n as int, 1, n as int, 0);
            assert(round_half_even(n, 1) == n);
            assert(n == scale as nat * num) by (nonlinear_arith)
                requires
                    n == num * (scale as nat),
            ;
            lemma_fundamental_div_mod_converse(n as int, scale as int, num as int, 0);
        }
        r
    } else {
        let e: u64 = 1074 - k;
        let n: u64;
        if e >= 64 {
            proof {
                let den = pow2(e as nat);
                if e > 64 {
                    lemma_pow2_strictly_increases(64, e as nat);
                }
                let x = m as nat * scale as nat;
                assert(x < 0x1000_0000_0000_0000) by (nonlinear_arith)
                    requires
                        x == m as nat * scale as nat,
                        m < 0x20_0000_0000_0000,
                        scale <= 100,
                ;
                lemma_small_mod(x, den);
                lemma_fundamental_div_mod_converse(x as int, den as int, 0, x as int);
            }
            n = 0;
        } else {
            let den = crate::level::power_of_two(e);
            proof {
                lemma_pow2_pos(e as nat);
                lemma_pow2_unfold(e as nat);
                assert((m as nat) * (scale as nat) < 0x1000_0000_0000_0000) by (nonlinear_arith)
                    requires
                        m < 0x20_0000_0000_0000,
                        scale <= 100,
                ;
            }
            let x: u128 = (m as u128) * (scale as u128);
            let q = x / den;
            let rest = x % den;
            proof {
                assert(q <= x) by (nonlinear_arith)
                    requires
                        q == x / den,
                        den >= 1,
                ;
            }
            if rest > den / 2 || (rest == den / 2 && q % 2 == 1) {
                n = (q + 1) as u64;
            } else {
                n = q as u64;
            }
        }
        let mut r = text::number(n / scale);
        r.append(".");
        let decimals = text::padded_number(n % scale, p);
        r.append(decimals.as_str());
        r
    }
}

/// The text of a figure with `p` decimals, one or two.
pub fn fixed(l: Level, p: u64) -> (r: String)
    requires
        1 <= p <= 2,
    ensures
        r@ == fixed_text(l, p as nat),
{
    if l.is_nan() {
        String::from_str("NaN")
    } else if !l.is_finite() {
        if l.is_negative() {
            String::from_str("-inf")
        } else {
            String::from_str("inf")
        }
    } else if l.is_negative() {
        let mut r = String::from_str("-");
        let a = fixed_absolute(l, p);
        r.append(a.as_str());
        r
    } else {
        fixed_absolute(l, p)
    }
}

/// The text of a finite figure is that of the nearest decimal: a sign for what is negative, the
/// whole part, a point and `p` decimals. The decimal, `hundredths` where there are two decimals,
/// is at most half of its last place away from the absolute value.
pub proof fn law_text_is_the_nearest_decimal(l: Level, p: nat) -> (scaled: nat)
    requires
        l.finite(),
    ensures
        fixed_text(l, p) == (if l.negative() {
            "-"@
        } else {
            Seq::<char>::empty()
        }) + digits(scaled / ten_power(p)) + "."@ + padded_digits(scaled % ten_power(p), p),
        -(pow2(1074) as int) <= 2 * (scaled * pow2(1074) - l.abs_units() * ten_power(p)) <= pow2(1074),
        ten_power(p) == vstd::arithmetic::power::pow(10, p),
{
    lemma_ten_power(p);
    law_fraction_is_the_value(l);
    let t = ten_power(p);
    let n = l.numerator();
    let d = l.denominator();
    let r = round_half_even(n * t, d);
    lemma_fundamental_div_mod((n * t) as int, d as int);
    lemma_mod_bound((n * t) as int, d as int);
    let q = (n * t) as int / d as int;
    let m = (n * t) as int % d as int;
    assert(-(d as int) <= 2 * (r * d - n * t) <= d) by {
        assert(d * q + m == n * t);
        assert((q + 1) * d == d * q + d) by (nonlinear_arith);
        assert(q * d == d * q) by (nonlinear_arith);
    }
    let a = l.abs_units() as int;
    let u = pow2(1074) as int;
    lemma_pow2_pos(1074);
    let off = r * d - n * t;
    let x = r * u - a * t;
    assert(d * x == d * (r * u) - (a * d) * t) by (nonlinear_arith)
        requires
            x == r * u - a * t,
    ;
    assert(u * off == u * (r * d) - (n * u) * t) by (nonlinear_arith)
        requires
            off == r * d - n * t,
    ;
    assert(d * (r * u) == u * (r * d)) by (nonlinear_arith);
    assert(-u <= 2 * x && 2 * x <= u) by (nonlinear_arith)
        requires
            d * x == u * off,
            -d <= 2 * off <= d,
            d > 0,
            u > 0,
    ;
    let body = digits(r / t) + "."@ + padded_digits(r % t, p);
    if !l.negative() {
        assert(Seq::<char>::empty() + digits(r / t) + "."@ + padded_digits(r % t, p) =~= body);
    } else {
        assert("-"@ + digits(r / t) + "."@ + padded_digits(r % t, p) =~= "-"@ + body);
    }
    r
}

proof fn lemma_ten_power(p: nat)
    ensures
        ten_power(p) == vstd::arithmetic::power::pow(10, p),
        ten_power(p) > 0,
    decreases p,
{
    reveal(vstd::arithmetic::power::pow);
    if p > 0 {
        lemma_ten_power((p - 1) as nat);
    }
}

/// Figures without a value have a text of their own.
pub proof fn law_text_of_no_number(l: Level, p: nat)
    requires
        !l.finite(),
    ensures
        fixed_text(l, p) == (if l.nan() {
            "NaN"@
        } else if l.negative() {
            "-inf"@
        } else {
            "inf"@
        }),
{
}

} // verus!
