//! Decibel and loudness figures.
//!
//! A figure is kept as the bit pattern of an IEEE 754 binary64 number. Every question the
//! library asks of a figure (is it finite, which of two is larger, what is their sum) is
//! then a question about integers, and is answered exactly as the hardware answers it.
use vstd::prelude::*;
use vstd::arithmetic::div_mod::*;
use vstd::arithmetic::mul::*;
use vstd::arithmetic::power2::*;

verus! {

/// The sign bit.
pub const SIGN_BIT: u64 = 0x8000_0000_0000_0000;

/// The bits of positive infinity; larger magnitudes are not numbers.
pub const INFINITY_BITS: u64 = 0x7FF0_0000_0000_0000;

/// The bits of the quiet not-a-number that arithmetic returns.
pub const NAN_BITS: u64 = 0x7FF8_0000_0000_0000;

/// The weight of the exponent field.
pub const EXPONENT_UNIT: u64 = 0x10_0000_0000_0000;

/// A figure, as the bits of a binary64 number.
#[derive(Clone, Copy, Debug, PartialEq, Eq, Structural)]
pub struct Level {
    pub bits: u64,
}

/// How many binary digits `n` has.
pub open spec fn bit_length(n: nat) -> nat
    decreases n,
{
    if n == 0 {
        0
    } else {
        1 + bit_length(n / 2)
    }
}

/// `num / den` rounded to the nearest integer, a tie going to the even one.
pub open spec fn round_half_even(num: nat, den: nat) -> nat {
    let q = num / den;
    let r = num % den;
    if 2 * r > den || (2 * r == den && q % 2 == 1) {
        q + 1
    } else {
        q
    }
}

/// The bits (without the sign) of the binary64 number nearest to `n * 2^-1074`: 53
/// significant binary digits, ties to even, infinity when out of range.
pub open spec fn nearest_bits(n: nat) -> nat {
    let k: nat = if bit_length(n) > 53 {
        (bit_length(n) - 53) as nat
    } else {
        0
    };
    let bits = k * (EXPONENT_UNIT as nat) + round_half_even(n, pow2(k));
    if bits < INFINITY_BITS as nat {
        bits
    } else {
        INFINITY_BITS as nat
    }
}

/// The bits of a signed number: `negative` and the magnitude bits.
pub open spec fn signed_bits(negative: bool, magnitude: nat) -> Level {
    Level { bits: (magnitude + if negative { SIGN_BIT as nat } else { 0 }) as u64 }
}

impl Level {
    /// The sign bit is set.
    pub open spec fn negative(self) -> bool {
        self.bits >= SIGN_BIT
    }

    /// The bits below the sign bit.
    pub open spec fn magnitude(self) -> nat {
        if self.bits >= SIGN_BIT {
            (self.bits - SIGN_BIT) as nat
        } else {
            self.bits as nat
        }
    }

    /// Not a number.
    pub open spec fn nan(self) -> bool {
        self.magnitude() > INFINITY_BITS
    }

    /// Neither infinite nor not-a-number.
    pub open spec fn finite(self) -> bool {
        self.magnitude() < INFINITY_BITS
    }

    /// The significand, as an integer below `2^53`.
    pub open spec fn significand(self) -> nat {
        if self.magnitude() < EXPONENT_UNIT {
            self.magnitude()
        } else {
            (EXPONENT_UNIT as nat) + self.magnitude() % (EXPONENT_UNIT as nat)
        }
    }

    /// The power of two, counted from `2^-1074`, that the significand is multiplied by.
    pub open spec fn exponent(self) -> nat {
        if self.magnitude() < EXPONENT_UNIT {
            0
        } else {
            (self.magnitude() / (EXPONENT_UNIT as nat) - 1) as nat
        }
    }

    /// The absolute value of a finite figure, in units of `2^-1074`.
    pub open spec fn abs_units(self) -> nat {
        self.significand() * pow2(self.exponent())
    }

    /// The value of a finite figure, in units of `2^-1074`.
    pub open spec fn units(self) -> int {
        if self.negative() {
            -(self.abs_units() as int)
        } else {
            self.abs_units() as int
        }
    }

    /// The absolute value of a finite figure is `numerator / denominator`.
    pub open spec fn numerator(self) -> nat {
        if self.exponent() >= 1074 {
            self.significand() * pow2((self.exponent() - 1074) as nat)
        } else {
            self.significand()
        }
    }

    /// See `numerator`.
    pub open spec fn denominator(self) -> nat {
        if self.exponent() >= 1074 {
            1
        } else {
            pow2((1074 - self.exponent()) as nat)
        }
    }

    /// The place of a figure in the order of numbers; both zeros have the same place.
    pub open spec fn place(self) -> int {
        if self.negative() {
            -(self.magnitude() as int)
        } else {
            self.magnitude() as int
        }
    }

    /// `self < other` as numbers: false when either is not a number.
    pub open spec fn below(self, other: Level) -> bool {
        !self.nan() && !other.nan() && self.place() < other.place()
    }

    /// `self <= other` as numbers: false when either is not a number.
    pub open spec fn at_most(self, other: Level) -> bool {
        !self.nan() && !other.nan() && self.place() <= other.place()
    }

    /// The figure with the opposite sign.
    pub open spec fn negated(self) -> Level {
        signed_bits(!self.negative(), self.magnitude())
    }

    /// The figure without its sign.
    pub open spec fn absolute(self) -> Level {
        signed_bits(false, self.magnitude())
    }

    /// The sum of two figures, rounded to the nearest figure.
    pub open spec fn sum(self, other: Level) -> Level {
        if self.nan() || other.nan() {
            Level { bits: NAN_BITS }
        } else if !self.finite() && !other.finite() {
            if self.negative() == other.negative() {
                self
            } else {
                Level { bits: NAN_BITS }
            }
        } else if !self.finite() {
            self
        } else if !other.finite() {
            other
        } else {
            let n = self.units() + other.units();
            if n == 0 {
                signed_bits(self.negative() && other.negative(), 0)
            } else if n > 0 {
                signed_bits(false, nearest_bits(n as nat))
            } else {
                signed_bits(true, nearest_bits((-n) as nat))
            }
        }
    }

    /// The difference of two figures, rounded to the nearest figure.
    pub open spec fn difference(self, other: Level) -> Level {
        self.sum(other.negated())
    }

    /// The lesser of two figures; a figure that is not a number loses.
    pub open spec fn lesser(self, other: Level) -> Level {
        if self.nan() {
            other
        } else if other.below(self) {
            other
        } else {
            self
        }
    }

    /// The larger of two figures; a figure that is not a number loses.
    pub open spec fn larger(self, other: Level) -> Level {
        if self.nan() {
            other
        } else if self.below(other) {
            other
        } else {
            self
        }
    }

    /// A finite figure rounded to the nearest integer, a tie going away from zero.
    pub open spec fn rounded_away(self) -> int {
        let r = ((2 * self.numerator() + self.denominator()) / (2 * self.denominator())) as int;
        if self.negative() {
            -r
        } else {
            r
        }
    }

    /// The integer between `lo` and `hi` nearest to the figure; not-a-number counts as
    /// zero.
    pub open spec fn snapped(self, lo: int, hi: int) -> int {
        let r = if self.nan() {
            0
        } else if self.finite() {
            self.rounded_away()
        } else if self.negative() {
            lo
        } else {
            hi
        };
        if r < lo {
            lo
        } else if r > hi {
            hi
        } else {
            r
        }
    }

    /// A hundred times a finite figure, rounded to the nearest figure.
    pub open spec fn times_hundred(self) -> Level {
        signed_bits(self.negative(), nearest_bits(100 * self.abs_units()))
    }
}

// ---------------------------------------------------------------------------
// Binary digits and rounding.
// ---------------------------------------------------------------------------

/// `n` lies between the powers of two that its bit length says.
pub proof fn lemma_bit_length(n: nat)
    ensures
        n < pow2(bit_length(n)),
        n > 0 ==> bit_length(n) > 0 && pow2((bit_length(n) - 1) as nat) <= n,
    decreases n,
{
    lemma2_to64();
    if n > 0 {
        lemma_bit_length(n / 2);
        lemma_pow2_unfold(bit_length(n));
        if n > 1 {
            lemma_pow2_unfold((bit_length(n) - 1) as nat);
        }
    }
}

/// The bit length is the only exponent whose powers of two enclose `n`.
pub proof fn lemma_bit_length_unique(n: nat, b: nat)
    requires
        b > 0,
        pow2((b - 1) as nat) <= n < pow2(b),
    ensures
        bit_length(n) == b,
{
    lemma_pow2_pos((b - 1) as nat);
    lemma_bit_length(n);
    let c = bit_length(n);
    if c < b {
        if c < b - 1 {
            lemma_pow2_strictly_increases(c, (b - 1) as nat);
        }
    } else if c > b {
        if b < c - 1 {
            lemma_pow2_strictly_increases(b, (c - 1) as nat);
        }
    }
}

/// Multiplying by a power of two adds to the bit length.
proof fn lemma_bit_length_shift(n: nat, k: nat)
    requires
        n > 0,
    ensures
        bit_length(n * pow2(k)) == bit_length(n) + k,
{
    lemma_bit_length(n);
    let b = bit_length(n);
    lemma_pow2_adds((b - 1) as nat, k);
    lemma_pow2_adds(b, k);
    lemma_pow2_pos(k);
    let lo = pow2((b - 1) as nat);
    let hi = pow2(b);
    let p = pow2(k);
    assert(lo * p <= n * p < hi * p) by (nonlinear_arith)
        requires
            lo <= n < hi,
            p > 0,
    ;
    lemma_bit_length_unique(n * pow2(k), b + k);
}

/// Rounding does not depend on a common factor.
pub proof fn lemma_round_common_factor(num: nat, den: nat, c: nat)
    requires
        den > 0,
        c > 0,
    ensures
        round_half_even(num * c, den * c) == round_half_even(num, den),
{
    let q = num / den;
    let r = num % den;
    lemma_fundamental_div_mod(num as int, den as int);
    assert(num * c == q * (den * c) + r * c) by (nonlinear_arith)
        requires
            num == den * q + r,
    ;
    assert(0 <= r * c < den * c) by (nonlinear_arith)
        requires
            0 <= r < den,
            c > 0,
    ;
    assert(den * c > 0) by (nonlinear_arith)
        requires
            den > 0,
            c > 0,
    ;
    lemma_fundamental_div_mod_converse((num * c) as int, (den * c) as int, q as int, (r * c) as int);
    assert((2 * (r * c) > den * c) == (2 * r > den)) by (nonlinear_arith)
        requires
            c > 0,
    ;
    assert((2 * (r * c) == den * c) == (2 * r == den)) by (nonlinear_arith)
        requires
            c > 0,
    ;
}

/// A quotient and a remainder determine how a fraction rounds.
proof fn lemma_round_by_parts(num: nat, den: nat, q: nat, r: nat)
    requires
        den > 0,
        r < den,
        num == q * den + r,
    ensures
        num / den == q,
        num % den == r,
        round_half_even(num, den) == (if 2 * r > den || (2 * r == den && q % 2 == 1) {
            q + 1
        } else {
            q
        }),
{
    assert(q * den == den * q) by (nonlinear_arith);
    lemma_fundamental_div_mod_converse(num as int, den as int, q as int, r as int);
}

/// The power `2^s` as a machine integer.
pub(crate) fn power_of_two(s: u64) -> (r: u128)
    requires
        s <= 127,
    ensures
        r == pow2(s as nat),
{
    let mut r: u128 = 1;
    let mut i: u64 = 0;
    proof {
        lemma2_to64();
    }
    while i < s
        invariant
            i <= s <= 127,
            r == pow2(i as nat),
        decreases s - i,
    {
        proof {
            lemma_pow2_unfold((i + 1) as nat);
            lemma_pow2_127(i as nat);
        }
        r = r * 2;
        i = i + 1;
    }
    r
}

proof fn lemma_pow2_127(i: nat)
    requires
        i < 127,
    ensures
        pow2(i) * 2 <= 0x8000_0000_0000_0000_0000_0000_0000_0000,
{
    lemma2_to64();
    lemma2_to64_rest();
    lemma_pow2_adds(63, 64);
    lemma_pow2_unfold((i + 1) as nat);
    if i + 1 < 127 {
        lemma_pow2_strictly_increases((i + 1) as nat, 127);
    }
    assert(pow2(127) == 0x8000_0000_0000_0000_0000_0000_0000_0000);
}

/// How many binary digits `x` has.
fn bit_length_of(x: u128) -> (b: u64)
    ensures
        b == bit_length(x as nat),
        b <= 128,
{
    let mut b: u64 = 0;
    let mut rest: u128 = x;
    proof {
        lemma2_to64();
        lemma2_to64_rest();
        lemma_pow2_adds(64, 64);
    }
    while rest > 0
        invariant
            b <= 128,
            bit_length(x as nat) == b + bit_length(rest as nat),
            rest < pow2((128 - b) as nat),
        decreases rest,
    {
        proof {
            if b == 128 {
                lemma2_to64();
            } else {
                lemma_pow2_unfold((128 - b) as nat);
            }
        }
        rest = rest / 2;
        b = b + 1;
    }
    b
}

/// The magnitude bits of the number nearest to `x * 2^k` units.
fn nearest(x: u128, k: u64) -> (r: u64)
    requires
        x < pow2(120),
        k <= 2046,
    ensures
        r == nearest_bits((x as nat) * pow2(k as nat)),
        r <= INFINITY_BITS,
{
    let ghost n = (x as nat) * pow2(k as nat);
    if x == 0 {
        proof {
            lemma2_to64();
            assert(n == 0) by (nonlinear_arith)
                requires
                    n == (x as nat) * pow2(k as nat),
                    x == 0,
            ;
            lemma_round_by_parts(0, 1, 0, 0);
        }
        return 0;
    }
    let b = bit_length_of(x);
    proof {
        lemma_bit_length(x as nat);
        lemma_bit_length_shift(x as nat, k as nat);
        if b > 120 {
            if b - 1 > 120 {
                lemma_pow2_strictly_increases(120, (b - 1) as nat);
            }
        }
        lemma2_to64();
        lemma2_to64_rest();
    }
    let shift: u64 = if b + k > 53 {
        b + k - 53
    } else {
        0
    };
    let q: u128;
    if shift <= k {
        let up = power_of_two(k - shift);
        proof {
            // x * 2^(k - shift) has at most 53 digits.
            let e = (k - shift) as nat;
            lemma_bit_length_shift(x as nat, e);
            lemma_bit_length((x as nat) * pow2(e));
            let w = bit_length((x as nat) * pow2(e));
            if w < 53 {
                lemma_pow2_strictly_increases(w, 53);
            }
            lemma_pow2_adds(e, shift as nat);
            lemma_mul_is_associative(x as int, pow2(e) as int, pow2(shift as nat) as int);
            assert(n == ((x as nat) * pow2(e)) * pow2(shift as nat));
            lemma_pow2_pos(shift as nat);
            lemma_round_by_parts(n, pow2(shift as nat), (x as nat) * pow2(e), 0);
        }
        q = x * up;
    } else {
        let s: u64 = shift - k;
        let den = power_of_two(s);
        proof {
            lemma_pow2_pos(s as nat);
            lemma_pow2_pos(k as nat);
            lemma_pow2_adds(s as nat, k as nat);
            lemma_round_common_factor(x as nat, pow2(s as nat), pow2(k as nat));
            // The quotient has at most 53 digits.
            lemma_pow2_adds(53, s as nat);
            lemma_quotient_bound(x as nat, pow2(s as nat), pow2(53));
        }
        let quotient = x / den;
        let rest = x % den;
        if rest > den / 2 || (rest == den / 2 && quotient % 2 == 1) {
            q = quotient + 1;
        } else {
            q = quotient;
        }
        proof {
            lemma_pow2_unfold(s as nat);
        }
    }
    assert(q <= pow2(53));
    assert(shift as int * EXPONENT_UNIT as int + q as int <= 0xFFFF_FFFF_FFFF_FFFF) by {
        assert(shift <= 2113);
    }
    let bits: u64 = shift * EXPONENT_UNIT + q as u64;
    if bits < INFINITY_BITS {
        bits
    } else {
        INFINITY_BITS
    }
}

proof fn lemma_quotient_bound(x: nat, d: nat, q: nat)
    requires
        d > 0,
        x < q * d,
    ensures
        x / d < q,
{
    lemma_fundamental_div_mod(x as int, d as int);
    assert(x / d < q) by (nonlinear_arith)
        requires
            d > 0,
            x < q * d,
            x == d * (x / d) + x % d,
            x % d >= 0,
    ;
}

/// `v` moved into the range from `lo` to `hi`.
fn clamp_i64(v: i64, lo: i32, hi: i32) -> (r: i32)
    requires
        lo <= hi,
    ensures
        r == (if v < lo {
            lo as int
        } else if v > hi {
            hi as int
        } else {
            v as int
        }),
{
    if v < lo as i64 {
        lo
    } else if v > hi as i64 {
        hi
    } else {
        v as i32
    }
}

/// The encoding of a normal number is recovered from its significand and exponent.
proof fn lemma_encoding(l: Level)
    requires
        l.finite(),
    ensures
        l.significand() < pow2(53),
        l.exponent() <= 2045,
        l.magnitude() == l.exponent() * (EXPONENT_UNIT as nat) + l.significand(),
        l.exponent() > 0 ==> l.significand() >= EXPONENT_UNIT,
{
    lemma2_to64();
    lemma2_to64_rest();
    lemma_fundamental_div_mod(l.magnitude() as int, EXPONENT_UNIT as int);
}

/// Adding or taking away less than a 2048th of the unit of the last place of `l` rounds
/// back to `l`.
proof fn lemma_absorbed(l: Level, t: nat, added: bool)
    requires
        l.finite(),
        l.exponent() >= 11,
        t < pow2((l.exponent() - 11) as nat),
    ensures
        added ==> nearest_bits(l.abs_units() + t) == l.magnitude(),
        !added ==> t < l.abs_units() && nearest_bits((l.abs_units() - t) as nat) == l.magnitude(),
{
    lemma_encoding(l);
    lemma2_to64();
    lemma2_to64_rest();
    let m = l.significand();
    let k = l.exponent();
    let p = pow2(k);
    let small = pow2((k - 11) as nat);
    let unit = EXPONENT_UNIT as nat;
    lemma_pow2_adds((k - 11) as nat, 11);
    assert(p == small * 2048);
    lemma_pow2_adds(52, k);
    lemma_pow2_adds(53, k);
    lemma_pow2_pos((k - 11) as nat);
    assert(unit * p <= m * p) by (nonlinear_arith)
        requires
            unit <= m,
            p > 0,
    ;
    assert(m * p + p <= 0x20_0000_0000_0000 * p) by (nonlinear_arith)
        requires
            m < 0x20_0000_0000_0000,
            p > 0,
    ;
    let n0 = m * p;
    if added {
        let n = n0 + t;
        lemma_bit_length_unique(n, 53 + k);
        lemma_round_by_parts(n, p, m, t);
    } else {
        let n = (n0 - t) as nat;
        if t == 0 {
            lemma_bit_length_unique(n, 53 + k);
            lemma_round_by_parts(n, p, m, 0);
        } else if m > unit {
            assert(unit * p + p <= m * p) by (nonlinear_arith)
                requires
                    unit + 1 <= m,
                    p > 0,
            ;
            lemma_bit_length_unique(n, 53 + k);
            assert(n == (m - 1) * p + (p - t)) by (nonlinear_arith)
                requires
                    n == m * p - t,
            ;
            lemma_round_by_parts(n, p, (m - 1) as nat, (p - t) as nat);
        } else {
            let h = pow2((k - 1) as nat);
            lemma_pow2_unfold(k);
            lemma_pow2_adds(51, k);
            lemma_pow2_adds(52, (k - 1) as nat);
            lemma_pow2_adds(53, (k - 1) as nat);
            lemma_pow2_adds(51, (k - 1) as nat);
            assert(n == unit * (2 * h) - t) by (nonlinear_arith)
                requires
                    n == m * p - t,
                    m == unit,
                    p == 2 * h,
            ;
            assert(n >= pow2((51 + k) as nat)) by (nonlinear_arith)
                requires
                    n == unit * (2 * h) - t,
                    t < h,
                    unit == 0x10_0000_0000_0000,
                    pow2((51 + k) as nat) == 0x8_0000_0000_0000 * (2 * h),
                    h > 0,
            ;
            lemma_bit_length_unique(n, 52 + k);
            assert(n == (0x20_0000_0000_0000 - 1) * h + (h - t)) by (nonlinear_arith)
                requires
                    n == unit * (2 * h) - t,
                    unit == 0x10_0000_0000_0000,
            ;
            lemma_round_by_parts(n, h, (0x20_0000_0000_0000 - 1) as nat, (h - t) as nat);
        }
    }
}

impl Level {
    /// A finite figure has at most 53 significant binary digits, and all of them unless it
    /// is among the smallest.
    pub proof fn lemma_parts_bounded(self)
        requires
            self.finite(),
        ensures
            self.significand() < pow2(53),
            self.exponent() <= 2045,
            self.exponent() > 0 ==> self.significand() >= EXPONENT_UNIT,
    {
        lemma_encoding(self);
    }

    /// Whether the sign bit is set.
    pub fn is_negative(self) -> (r: bool)
        ensures
            r == self.negative(),
    {
        self.bits >= SIGN_BIT
    }

    /// The bits below the sign bit.
    pub fn magnitude_bits(self) -> (r: u64)
        ensures
            r == self.magnitude(),
    {
        if self.bits >= SIGN_BIT {
            self.bits - SIGN_BIT
        } else {
            self.bits
        }
    }

    /// Whether the figure is not a number.
    pub fn is_nan(self) -> (r: bool)
        ensures
            r == self.nan(),
    {
        self.magnitude_bits() > INFINITY_BITS
    }

    /// Whether the figure is neither infinite nor not-a-number.
    pub fn is_finite(self) -> (r: bool)
        ensures
            r == self.finite(),
    {
        self.magnitude_bits() < INFINITY_BITS
    }

    /// `self < other` as numbers.
    pub fn is_below(self, other: Level) -> (r: bool)
        ensures
            r == self.below(other),
    {
        if self.is_nan() || other.is_nan() {
            return false;
        }
        let a = self.magnitude_bits();
        let b = other.magnitude_bits();
        if self.is_negative() {
            if other.is_negative() {
                a > b
            } else {
                a > 0 || b > 0
            }
        } else if other.is_negative() {
            false
        } else {
            a < b
        }
    }

    /// `self <= other` as numbers.
    pub fn is_at_most(self, other: Level) -> (r: bool)
        ensures
            r == self.at_most(other),
    {
        !self.is_nan() && !other.is_nan() && !other.is_below(self)
    }

    /// The figure with the opposite sign.
    pub fn negate(self) -> (r: Level)
        ensures
            r == self.negated(),
    {
        if self.bits >= SIGN_BIT {
            Level { bits: self.bits - SIGN_BIT }
        } else {
            Level { bits: self.bits + SIGN_BIT }
        }
    }

    /// The figure without its sign.
    pub fn abs(self) -> (r: Level)
        ensures
            r == self.absolute(),
    {
        Level { bits: self.magnitude_bits() }
    }

    /// The significand and the exponent of a finite figure.
    pub(crate) fn parts(self) -> (r: (u64, u64))
        requires
            self.finite(),
        ensures
            r.0 == self.significand(),
            r.1 == self.exponent(),
    {
        let mag = self.magnitude_bits();
        if mag < EXPONENT_UNIT {
            (mag, 0)
        } else {
            (EXPONENT_UNIT + mag % EXPONENT_UNIT, mag / EXPONENT_UNIT - 1)
        }
    }

    /// The sum of two finite figures, the first with the larger exponent.
    fn plus_finite(self, other: Level) -> (r: Level)
        requires
            self.finite(),
            other.finite(),
            self.exponent() >= other.exponent(),
        ensures
            r == self.sum(other),
    {
        let (ma, ka) = self.parts();
        let (mb, kb) = other.parts();
        let d: u64 = ka - kb;
        proof {
            lemma_encoding(self);
            lemma_encoding(other);
            lemma2_to64();
            lemma2_to64_rest();
            lemma_pow2_pos(ka as nat);
            lemma_pow2_pos(kb as nat);
        }
        if d > 64 {
            proof {
                // The second figure is too small to move the first.
                let t = other.abs_units();
                lemma_pow2_adds(53, kb as nat);
                let p = pow2(kb as nat);
                assert(t < 0x20_0000_0000_0000 * p) by (nonlinear_arith)
                    requires
                        t == mb as nat * p,
                        mb < 0x20_0000_0000_0000,
                        p > 0,
                ;
                if 53 + kb < ka - 11 {
                    lemma_pow2_strictly_increases((53 + kb) as nat, (ka - 11) as nat);
                }
                lemma_absorbed(self, t, true);
                lemma_absorbed(self, t, false);
                let u = self.abs_units();
                assert(u > 0) by (nonlinear_arith)
                    requires
                        u == ma as nat * pow2(ka as nat),
                        ma > 0,
                        pow2(ka as nat) > 0,
                ;
            }
            return self;
        }
        let up = power_of_two(d);
        proof {
            lemma_pow2_adds(d as nat, kb as nat);
            if d < 64 {
                lemma_pow2_strictly_increases(d as nat, 64);
            }
            lemma_pow2_adds(53, 64);
            lemma_pow2_adds(117, 3);
            lemma_pow2_adds(64, 64);
            let u = up as nat;
            assert(ma as nat * u <= 0x20_0000_0000_0000 * 0x1_0000_0000_0000_0000) by (nonlinear_arith)
                requires
                    ma < 0x20_0000_0000_0000,
                    u <= 0x1_0000_0000_0000_0000,
            ;
            lemma_mul_is_associative(ma as int, u as int, pow2(kb as nat) as int);
            assert(self.abs_units() == (ma as nat * u) * pow2(kb as nat));
        }
        let x: u128 = (ma as u128) * up;
        let y: u128 = mb as u128;
        let ghost p = pow2(kb as nat);
        if self.is_negative() == other.is_negative() {
            let total: u128 = x + y;
            let bits = nearest(total, kb);
            proof {
                assert(total as nat * p == self.abs_units() + other.abs_units()) by (nonlinear_arith)
                    requires
                        total == x + y,
                        self.abs_units() == x as nat * p,
                        other.abs_units() == y as nat * p,
                ;
                if total == 0 {
                    assert(total as nat * p == 0) by (nonlinear_arith)
                        requires
                            total == 0,
                    ;
                    assert(nearest_bits(0) == 0) by {
                        lemma_round_by_parts(0, 1, 0, 0);
                    }
                }
            }
            if self.is_negative() {
                Level { bits: SIGN_BIT + bits }
            } else {
                Level { bits }
            }
        } else if x == y {
            proof {
                assert(self.units() + other.units() == 0);
            }
            Level { bits: 0 }
        } else if x > y {
            let total: u128 = x - y;
            let bits = nearest(total, kb);
            proof {
                assert(total as nat * p == self.abs_units() - other.abs_units()) by (nonlinear_arith)
                    requires
                        total == x - y,
                        self.abs_units() == x as nat * p,
                        other.abs_units() == y as nat * p,
                ;
                assert(total as nat * p > 0) by (nonlinear_arith)
                    requires
                        total > 0,
                        p > 0,
                ;
            }
            if self.is_negative() {
                Level { bits: SIGN_BIT + bits }
            } else {
                Level { bits }
            }
        } else {
            let total: u128 = y - x;
            let bits = nearest(total, kb);
            proof {
                assert(total as nat * p == other.abs_units() - self.abs_units()) by (nonlinear_arith)
                    requires
                        total == y - x,
                        self.abs_units() == x as nat * p,
                        other.abs_units() == y as nat * p,
                ;
                assert(total as nat * p > 0) by (nonlinear_arith)
                    requires
                        total > 0,
                        p > 0,
                ;
            }
            if other.is_negative() {
                Level { bits: SIGN_BIT + bits }
            } else {
                Level { bits }
            }
        }
    }

    /// The sum of two figures.
    pub fn plus(self, other: Level) -> (r: Level)
        ensures
            r == self.sum(other),
    {
        if self.is_nan() || other.is_nan() {
            Level { bits: NAN_BITS }
        } else if !self.is_finite() {
            if !other.is_finite() && self.is_negative() != other.is_negative() {
                Level { bits: NAN_BITS }
            } else {
                self
            }
        } else if !other.is_finite() {
            other
        } else {
            let (_, ka) = self.parts();
            let (_, kb) = other.parts();
            if ka >= kb {
                self.plus_finite(other)
            } else {
                other.plus_finite(self)
            }
        }
    }

    /// The difference of two figures.
    pub fn minus(self, other: Level) -> (r: Level)
        ensures
            r == self.difference(other),
    {
        self.plus(other.negate())
    }

    /// A hundred times a finite figure.
    pub fn hundredfold(self) -> (r: Level)
        requires
            self.finite(),
        ensures
            r == self.times_hundred(),
    {
        let (m, k) = self.parts();
        proof {
            lemma_encoding(self);
            lemma2_to64();
            lemma2_to64_rest();
            lemma_pow2_strictly_increases(60, 120);
            lemma_mul_is_associative(100, m as int, pow2(k as nat) as int);
        }
        let bits = nearest(100 * (m as u128), k);
        if self.is_negative() {
            Level { bits: SIGN_BIT + bits }
        } else {
            Level { bits }
        }
    }

    /// The integer between `lo` and `hi` nearest to the figure.
    pub fn snap(self, lo: i32, hi: i32) -> (r: i32)
        requires
            lo <= hi,
        ensures
            r == self.snapped(lo as int, hi as int),
    {
        if self.is_nan() {
            return clamp_i64(0, lo, hi);
        }
        if !self.is_finite() {
            return if self.is_negative() {
                lo
            } else {
                hi
            };
        }
        let (m, k) = self.parts();
        proof {
            lemma_encoding(self);
            lemma2_to64();
            lemma2_to64_rest();
        }
        let size: u64;
        if k >= 1074 {
            proof {
                let p = pow2((k - 1074) as nat);
                lemma_pow2_pos((k - 1074) as nat);
                assert(m as nat * p >= EXPONENT_UNIT) by (nonlinear_arith)
                    requires
                        m >= EXPONENT_UNIT,
                        p >= 1,
                ;
                assert(self.numerator() == m as nat * p);
                assert((2 * self.numerator() + 1) / 2 == self.numerator());
            }
            size = EXPONENT_UNIT;
        } else if 1074 - k >= 64 {
            proof {
                let d = pow2((1074 - k) as nat);
                if 1074 - k > 64 {
                    lemma_pow2_strictly_increases(64, (1074 - k) as nat);
                }
                assert((2 * m + d) / (2 * d as int) == 0) by (nonlinear_arith)
                    requires
                        0 <= m < 0x20_0000_0000_0000,
                        d >= 0x1_0000_0000_0000_0000,
                ;
            }
            size = 0;
        } else {
            let d = power_of_two(1074 - k);
            proof {
                lemma_pow2_pos((1074 - k) as nat);
                if 1074 - k < 63 {
                    lemma_pow2_strictly_increases((1074 - k) as nat, 63);
                }
                let q = (2 * m + d) / (2 * d as int);
                assert(q <= 0x20_0000_0000_0000) by (nonlinear_arith)
                    requires
                        q == (2 * m + d) / (2 * d as int),
                        0 <= m < 0x20_0000_0000_0000,
                        d >= 1,
                ;
            }
            size = ((2 * (m as u128) + d) / (2 * d)) as u64;
        }
        let signed: i64 = if self.is_negative() {
            -(size as i64)
        } else {
            size as i64
        };
        clamp_i64(signed, lo, hi)
    }

    /// The lesser of two figures.
    pub fn min(self, other: Level) -> (r: Level)
        ensures
            r == self.lesser(other),
    {
        if self.is_nan() || other.is_below(self) {
            other
        } else {
            self
        }
    }

    /// The larger of two figures.
    pub fn max(self, other: Level) -> (r: Level)
        ensures
            r == self.larger(other),
    {
        if self.is_nan() || self.is_below(other) {
            other
        } else {
            self
        }
    }
}

/// A figure with the larger magnitude bits has the larger absolute value.
proof fn lemma_magnitude_order(a: Level, b: Level)
    requires
        a.finite(),
        b.finite(),
        a.magnitude() < b.magnitude(),
    ensures
        a.abs_units() < b.abs_units(),
{
    lemma_encoding(a);
    lemma_encoding(b);
    lemma2_to64();
    lemma2_to64_rest();
    let unit = EXPONENT_UNIT as nat;
    let ma = a.significand();
    let mb = b.significand();
    let pa = pow2(a.exponent());
    let pb = pow2(b.exponent());
    lemma_pow2_pos(a.exponent());
    if a.exponent() == b.exponent() {
        assert(ma * pa < mb * pa) by (nonlinear_arith)
            requires
                ma < mb,
                pa > 0,
        ;
    } else if a.exponent() < b.exponent() {
        lemma_pow2_unfold(a.exponent() + 1);
        if a.exponent() + 1 < b.exponent() {
            lemma_pow2_strictly_increases(a.exponent() + 1, b.exponent());
        }
        assert(ma * pa < mb * pb) by (nonlinear_arith)
            requires
                ma < 2 * unit,
                unit <= mb,
                2 * pa <= pb,
                pa > 0,
        ;
    } else {
        let ka = a.exponent();
        let kb = b.exponent();
        assert(ka * unit + ma >= kb * unit + mb) by (nonlinear_arith)
            requires
                ka >= kb + 1,
                ma >= unit,
                mb < 2 * unit,
        ;
    }
}

/// The order of figures is the order of their values: of two finite figures the lower is
/// the one with the lower value, and both zeros are the same value.
pub proof fn law_order_is_the_order_of_values(a: Level, b: Level)
    requires
        a.finite(),
        b.finite(),
    ensures
        a.below(b) <==> a.units() < b.units(),
        a.at_most(b) <==> a.units() <= b.units(),
{
    let zero = Level { bits: 0 };
    assert(zero.abs_units() == 0) by {
        lemma2_to64();
    }
    if a.magnitude() < b.magnitude() {
        lemma_magnitude_order(a, b);
    }
    if b.magnitude() < a.magnitude() {
        lemma_magnitude_order(b, a);
    }
    if a.magnitude() > 0 {
        lemma_magnitude_order(zero, a);
    }
    if b.magnitude() > 0 {
        lemma_magnitude_order(zero, b);
    }
}

/// The fraction that a finite figure is written as and its value in units agree.
pub proof fn law_fraction_is_the_value(l: Level)
    requires
        l.finite(),
    ensures
        l.denominator() > 0,
        l.numerator() * pow2(1074) == l.abs_units() * l.denominator(),
{
    let m = l.significand();
    let k = l.exponent();
    if k >= 1074 {
        lemma_pow2_adds((k - 1074) as nat, 1074);
        lemma_mul_is_associative(m as int, pow2((k - 1074) as nat) as int, pow2(1074) as int);
    } else {
        lemma_pow2_pos((1074 - k) as nat);
        lemma_pow2_adds(k, (1074 - k) as nat);
        lemma_mul_is_associative(m as int, pow2(k) as int, pow2((1074 - k) as nat) as int);
    }
}

/// Addition does not depend on the order of the figures.
pub proof fn law_sum_commutes(a: Level, b: Level)
    ensures
        !a.nan() && !b.nan() ==> a.sum(b) == b.sum(a),
        a.nan() || b.nan() ==> a.sum(b).nan(),
{
}

/// What the bits nearest to `n` units stand for.
#[verifier::spinoff_prover]
#[verifier::rlimit(30)]
proof fn lemma_nearest(n: nat)
    requires
        nearest_bits(n) < INFINITY_BITS,
    ensures
        ({
            let near = signed_bits(false, nearest_bits(n)).abs_units() as int;
            -(n as int) <= pow2(53) * (near - n) <= n
        }),
{
    lemma2_to64();
    lemma2_to64_rest();
    lemma_bit_length(n);
    let unit = EXPONENT_UNIT as nat;
    let k: nat = if bit_length(n) > 53 {
        (bit_length(n) - 53) as nat
    } else {
        0
    };
    let p = pow2(k);
    let q = round_half_even(n, p);
    lemma_pow2_pos(k);
    lemma_fundamental_div_mod(n as int, p as int);
    let l = signed_bits(false, nearest_bits(n));
    assert(l.magnitude() == k * unit + q);
    if k == 0 {
        if bit_length(n) < 53 {
            lemma_pow2_strictly_increases(bit_length(n), 53);
        }
        lemma_round_by_parts(n, 1, n, 0);
        assert(q == n);
        assert(l.significand() == n && l.exponent() == 0);
        assert(pow2(l.exponent()) == 1);
        assert(l.abs_units() == n * 1);
        assert(pow2(53) * (n - n) == 0) by (nonlinear_arith);
    } else {
        lemma_pow2_adds(53, k);
        lemma_pow2_adds(52, k);
        lemma_quotient_bound(n, p, pow2(53));
        assert(n / p >= unit) by (nonlinear_arith)
            requires
                n >= unit * p,
                n == p * (n / p) + n % p,
                n % p < p,
                p > 0,
        ;
        assert(unit <= q <= 2 * unit);
        if q < 2 * unit {
            lemma_fundamental_div_mod_converse(
                l.magnitude() as int,
                unit as int,
                (k + 1) as int,
                q - unit,
            );
            assert(l.significand() == q && l.exponent() == k);
        } else {
            lemma_fundamental_div_mod_converse(l.magnitude() as int, unit as int, (k + 2) as int, 0);
            assert(l.significand() == unit && l.exponent() == k + 1);
            lemma_pow2_unfold(k + 1);
            assert(unit * (2 * p) == (2 * unit) * p) by (nonlinear_arith);
        }
        let near = l.abs_units() as int;
        assert(near == q * p);
        assert(-(p as int) <= 2 * (near - n) <= p) by (nonlinear_arith)
            requires
                near == q * p,
                n == p * (n / p) + n % p,
                0 <= n % p < p,
                (q == n / p && 2 * (n % p) <= p) || (q == n / p + 1 && 2 * (n % p) >= p),
        ;
        assert(-(n as int) <= pow2(53) * (near - n) <= n) by (nonlinear_arith)
            requires
                -(p as int) <= 2 * (near - n) <= p,
                pow2(53) == 2 * unit,
                n >= unit * p,
                unit > 0,
        ;
    }
}

/// A sum is rounded to within half a unit of its last binary digit: it is off the exact sum by
/// at most a part in `2^53`, unless it is too large for a figure.
pub proof fn law_sum_is_nearest(a: Level, b: Level)
    requires
        a.finite(),
        b.finite(),
        a.sum(b).finite(),
    ensures
        ({
            let exact = a.units() + b.units();
            let off = pow2(53) * (a.sum(b).units() - exact);
            &&& exact >= 0 ==> -exact <= off <= exact
            &&& exact < 0 ==> exact <= off <= -exact
        }),
{
    let exact = a.units() + b.units();
    let r = a.sum(b);
    lemma2_to64();
    if exact == 0 {
        assert(r.magnitude() == 0);
        assert(r.significand() * pow2(r.exponent()) == 0) by (nonlinear_arith)
            requires
                r.significand() == 0,
        ;
        assert(pow2(53) * (r.units() - exact) == 0) by (nonlinear_arith)
            requires
                r.units() == exact,
        ;
    } else if exact > 0 {
        lemma_nearest(exact as nat);
    } else {
        let n = (-exact) as nat;
        lemma_nearest(n);
        let near = signed_bits(false, nearest_bits(n)).abs_units() as int;
        assert(r.units() == -near);
        assert(pow2(53) * (r.units() - exact) == -(pow2(53) * (near - n))) by (nonlinear_arith)
            requires
                r.units() == -near,
                exact == -n,
        ;
    }
}

/// A number of units that is not extremely large rounds to a finite figure.
proof fn lemma_moderate_is_finite(n: nat)
    requires
        n <= pow2(2000),
    ensures
        nearest_bits(n) < INFINITY_BITS,
{
    lemma2_to64();
    lemma2_to64_rest();
    lemma_bit_length(n);
    let k: nat = if bit_length(n) > 53 {
        (bit_length(n) - 53) as nat
    } else {
        0
    };
    if bit_length(n) > 2001 {
        lemma_pow2_strictly_increases(2000, (bit_length(n) - 1) as nat);
    }
    let p = pow2(k);
    lemma_pow2_pos(k);
    lemma_pow2_adds(53, k);
    if bit_length(n) < 53 {
        lemma_pow2_strictly_increases(bit_length(n), 53);
    }
    lemma_quotient_bound(n, p, pow2(53));
    assert(k <= 1948);
}

/// A sum that is not extremely large is finite.
pub proof fn lemma_total_is_finite(a: Level, b: Level)
    requires
        a.finite(),
        b.finite(),
        -(pow2(2000) as int) <= a.units() + b.units() <= pow2(2000),
    ensures
        a.sum(b).finite(),
{
    let exact = a.units() + b.units();
    lemma_moderate_is_finite(
        if exact >= 0 {
            exact as nat
        } else {
            (-exact) as nat
        },
    );
}

/// A sum of figures that are not extremely large is finite.
pub proof fn lemma_sum_is_finite(a: Level, b: Level)
    requires
        a.finite(),
        b.finite(),
        a.abs_units() <= pow2(1999),
        b.abs_units() <= pow2(1999),
    ensures
        a.sum(b).finite(),
{
    lemma_pow2_unfold(2000);
    lemma_total_is_finite(a, b);
}

/// Rounding a finite figure goes to the nearest integer.
proof fn lemma_rounded_away(l: Level)
    requires
        l.finite(),
    ensures
        (2 * l.rounded_away() - 1) * pow2(1074) <= 2 * l.units() <= (2 * l.rounded_away() + 1) * pow2(
            1074,
        ),
{
    law_fraction_is_the_value(l);
    let n = l.numerator() as int;
    let d = l.denominator() as int;
    let a = l.abs_units() as int;
    let p = pow2(1074) as int;
    let r = (2 * n + d) / (2 * d);
    lemma_fundamental_div_mod(2 * n + d, 2 * d);
    let rest = (2 * n + d) % (2 * d);
    assert(0 <= rest < 2 * d) by {
        vstd::arithmetic::div_mod::lemma_mod_bound(2 * n + d, 2 * d);
    }
    lemma_pow2_pos(1074);
    assert(2 * d * r <= 2 * n + d < 2 * d * r + 2 * d);
    assert((2 * r - 1) * p <= 2 * a <= (2 * r + 1) * p) by (nonlinear_arith)
        requires
            n * p == a * d,
            2 * d * r <= 2 * n + d,
            2 * n + d < 2 * d * r + 2 * d,
            d > 0,
            p > 0,
    ;
    if l.negative() {
        assert((2 * (-r) - 1) * p == -((2 * r + 1) * p)) by (nonlinear_arith);
        assert((2 * (-r) + 1) * p == -((2 * r - 1) * p)) by (nonlinear_arith);
    }
}

/// Snapping goes to the nearest integer of the range: the figure is no further than half a step
/// above the result, unless the range ends there, and no further than half a step below it,
/// unless the range starts there. What is not a number snaps to the integer nearest to zero,
/// and an infinite figure to the end of the range on its side.
pub proof fn law_snapping_goes_to_the_nearest(l: Level, lo: int, hi: int)
    requires
        lo <= hi,
    ensures
        lo <= l.snapped(lo, hi) <= hi,
        l.finite() && l.snapped(lo, hi) < hi ==> 2 * l.units() <= (2 * l.snapped(lo, hi) + 1) * pow2(
            1074,
        ),
        l.finite() && l.snapped(lo, hi) > lo ==> (2 * l.snapped(lo, hi) - 1) * pow2(1074) <= 2
            * l.units(),
        l.nan() && lo <= 0 <= hi ==> l.snapped(lo, hi) == 0,
        !l.nan() && !l.finite() ==> l.snapped(lo, hi) == (if l.negative() {
            lo
        } else {
            hi
        }),
{
    if l.finite() {
        lemma_rounded_away(l);
        let p = pow2(1074) as int;
        lemma_pow2_pos(1074);
        let r = l.rounded_away();
        if r < lo {
            assert((2 * r + 1) * p <= (2 * lo + 1) * p) by (nonlinear_arith)
                requires
                    r < lo,
                    p > 0,
            ;
        }
        if r > hi {
            assert((2 * hi - 1) * p <= (2 * r - 1) * p) by (nonlinear_arith)
                requires
                    r > hi,
                    p > 0,
            ;
        }
    }
}

/// A difference is rounded to within half a unit of its last binary digit, as a sum is.
pub proof fn law_difference_is_nearest(a: Level, b: Level)
    requires
        a.finite(),
        b.finite(),
        a.difference(b).finite(),
    ensures
        ({
            let exact = a.units() - b.units();
            let off = a.difference(b).units() - exact;
            let size = if exact < 0 {
                -exact
            } else {
                exact
            };
            -size <= pow2(53) * off <= size
        }),
{
    assert(b.negated().units() == -b.units());
    law_sum_is_nearest(a, b.negated());
}

/// A hundred times a figure is off the exact value by at most a part in `2^53`.
pub proof fn lemma_hundredfold(l: Level)
    requires
        l.finite(),
        100 * l.abs_units() <= pow2(1098),
    ensures
        l.times_hundred().finite(),
        ({
            let off = pow2(53) * (l.times_hundred().units() - 100 * l.units());
            -(pow2(1098) as int) <= off <= pow2(1098)
        }),
{
    let n = (100 * l.abs_units()) as nat;
    lemma_pow2_strictly_increases(1098, 2000);
    lemma_moderate_is_finite(n);
    lemma_nearest(n);
    let h = l.times_hundred();
    let near = signed_bits(false, nearest_bits(n));
    assert(h.magnitude() == near.magnitude());
    assert(h.abs_units() == near.abs_units());
    let x = near.abs_units() as int;
    let one = pow2(53) as int;
    if l.negative() {
        assert(one * (-x + n) == -(one * (x - n))) by (nonlinear_arith);
    }
}

/// A pattern is a finite figure, one of the two infinities, or not a number.
pub proof fn law_figures_are_finite_infinite_or_no_numbers(l: Level)
    ensures
        l.finite() <==> l.bits < 0x7FF0_0000_0000_0000 || 0x8000_0000_0000_0000 <= l.bits
            < 0xFFF0_0000_0000_0000,
        l.nan() <==> !l.finite() && l.bits != 0x7FF0_0000_0000_0000 && l.bits
            != 0xFFF0_0000_0000_0000,
{
}

/// The lesser of two numbers is one of them and not above the other, the larger one of them and
/// not below the other. What is not a number gives way.
pub proof fn law_lesser_and_larger(a: Level, b: Level)
    ensures
        a.lesser(b) == a || a.lesser(b) == b,
        a.larger(b) == a || a.larger(b) == b,
        !a.nan() && !b.nan() ==> a.lesser(b).at_most(a) && a.lesser(b).at_most(b),
        !a.nan() && !b.nan() ==> a.at_most(a.larger(b)) && b.at_most(a.larger(b)),
        a.nan() ==> a.lesser(b) == b && a.larger(b) == b,
        !a.nan() && b.nan() ==> a.lesser(b) == a && a.larger(b) == a,
{
}

} // verus!
