//! IEEE 754 binary64 numbers, kept by their bit pattern.
//!
//! Every finite binary64 number is a whole multiple of the smallest positive
//! one, so its exact value is an integer in that unit. Order, rounding,
//! addition and the conversions from and to `i64` are stated over those
//! integers.
use vstd::arithmetic::div_mod::*;
use vstd::arithmetic::mul::*;
use vstd::arithmetic::power2::*;
use vstd::prelude::*;

verus! {

/// The weight of the lowest exponent bit in a pattern.
pub const STEP: u64 = 0x10_0000_0000_0000;

/// The pattern of positive infinity.
pub const INFINITE: u64 = 0x7ff0_0000_0000_0000;

/// The sign bit.
pub const SIGN: u64 = 0x8000_0000_0000_0000;

/// The pattern that stands for "not a number".
pub const NOT_A_NUMBER: u64 = 0x7ff8_0000_0000_0000;

/// A binary64 number.
#[derive(Debug, Clone, Copy)]
pub struct Float64 {
    pub bits: u64,
}

/// The magnitude of the pattern `low` (sign bit clear), in units of the
/// smallest positive number. Infinity counts as the next power of two after
/// the largest finite magnitude.
pub open spec fn magnitude_of(low: nat) -> nat {
    let e = low / STEP as nat;
    let f = low % STEP as nat;
    if e == 0 {
        f
    } else {
        (STEP + f) as nat * pow2((e - 1) as nat)
    }
}

impl Float64 {
    pub open spec fn negative(self) -> bool {
        self.bits >= SIGN
    }

    /// The pattern without the sign bit.
    pub open spec fn low(self) -> nat {
        if self.negative() {
            (self.bits - SIGN) as nat
        } else {
            self.bits as nat
        }
    }

    pub open spec fn nan(self) -> bool {
        self.low() > INFINITE
    }

    pub open spec fn finite(self) -> bool {
        self.low() < INFINITE
    }

    pub open spec fn magnitude(self) -> nat {
        magnitude_of(self.low())
    }

    /// The exact value, in units of the smallest positive number.
    pub open spec fn value(self) -> int {
        if self.negative() {
            -(self.magnitude() as int)
        } else {
            self.magnitude() as int
        }
    }

    /// `self < other`: false where either is not a number.
    pub open spec fn below(self, other: Float64) -> bool {
        !self.nan() && !other.nan() && self.value() < other.value()
    }

    /// `self <= other`: false where either is not a number.
    pub open spec fn up_to(self, other: Float64) -> bool {
        !self.nan() && !other.nan() && self.value() <= other.value()
    }

    /// The position in the total order of all patterns: negative
    /// not-a-numbers, negative numbers, `-0`, `+0`, positive numbers, positive
    /// not-a-numbers.
    pub open spec fn rank(self) -> u64 {
        if self.negative() {
            (u64::MAX - self.bits) as u64
        } else {
            (SIGN + self.bits) as u64
        }
    }
}

/// By how many binary places the significand of a number is shifted.
pub open spec fn shift_of(a: Float64) -> nat {
    let e = a.low() / STEP as nat;
    if e == 0 {
        0
    } else {
        (e - 1) as nat
    }
}

/// How many binary places a magnitude has beyond those that fit.
pub open spec fn excess(n: nat) -> nat
    decreases n,
{
    if n < 2 * STEP {
        0
    } else {
        1 + excess(n / 2)
    }
}

/// The pattern of the representable magnitude nearest to `n`; of two that are
/// equally near, the one with the even pattern. Beyond the largest finite
/// magnitude that is infinity.
pub open spec fn nearest(n: nat) -> nat {
    let k = excess(n);
    let unit = pow2(k);
    let q = n / unit;
    let r = n % unit;
    let up: nat = if 2 * r > unit || (2 * r == unit && q % 2 == 1) {
        1
    } else {
        0
    };
    let low = k * STEP as nat + q + up;
    if low < INFINITE {
        low
    } else {
        INFINITE as nat
    }
}

/// The position of an integer in ascending order, so that zero stands where the
/// number zero does.
pub open spec fn int_rank(i: i64) -> u64 {
    (i + SIGN) as u64
}

/// The number nearest to `x` units, with the sign of `x`.
pub open spec fn rounded(x: int) -> Float64 {
    if x < 0 {
        Float64 { bits: (SIGN + nearest((-x) as nat)) as u64 }
    } else {
        Float64 { bits: nearest(x as nat) as u64 }
    }
}

/// The sum: the number nearest to the exact sum.
pub open spec fn sum(a: Float64, b: Float64) -> Float64 {
    if a.nan() || b.nan() {
        Float64 { bits: NOT_A_NUMBER }
    } else if !a.finite() && !b.finite() && a.negative() != b.negative() {
        Float64 { bits: NOT_A_NUMBER }
    } else if !a.finite() {
        a
    } else if !b.finite() {
        b
    } else if a.value() + b.value() == 0 {
        Float64 {
            bits: if a.negative() && b.negative() {
                SIGN
            } else {
                0
            },
        }
    } else {
        rounded(a.value() + b.value())
    }
}

/// One, in units of the smallest positive number.
pub open spec fn one() -> nat {
    pow2(1074)
}

/// The number nearest to the integer `i`.
pub open spec fn of_int(i: i64) -> Float64 {
    rounded(i * one())
}

/// The integer part of a number, kept within `i64`; zero for not-a-numbers.
pub open spec fn int_part(a: Float64) -> i64 {
    let t = a.magnitude() / one();
    if a.nan() {
        0
    } else if a.negative() {
        if t > 0x8000_0000_0000_0000 {
            i64::MIN
        } else {
            -(t as int) as i64
        }
    } else if t > i64::MAX {
        i64::MAX
    } else {
        t as i64
    }
}

/// Whether a number is finite and has no fractional part.
pub open spec fn integral(a: Float64) -> bool {
    a.finite() && a.magnitude() % one() == 0
}

/// A magnitude grows with its pattern.
pub proof fn lemma_magnitude_grows(a: nat, b: nat)
    requires
        a < b,
    ensures
        magnitude_of(a) < magnitude_of(b),
{
    let s = STEP as nat;
    let ea = a / s;
    let eb = b / s;
    let fa = a % s;
    let fb = b % s;
    lemma_fundamental_div_mod(a as int, s as int);
    lemma_fundamental_div_mod(b as int, s as int);
    assert(ea <= eb) by {
        lemma_div_is_ordered(a as int, b as int, s as int);
    }
    if ea == eb {
        assert(fa < fb);
        if ea > 0 {
            let p = pow2((ea - 1) as nat);
            lemma_pow2_pos((ea - 1) as nat);
            lemma_mul_strict_inequality((s + fa) as int, (s + fb) as int, p as int);
        }
    } else {
        let p = pow2((eb - 1) as nat);
        lemma_pow2_pos((eb - 1) as nat);
        assert(s * p <= (s + fb) * p) by {
            lemma_mul_inequality(s as int, (s + fb) as int, p as int);
        }
        if ea == 0 {
            assert(s <= s * p) by (nonlinear_arith)
                requires
                    p >= 1,
            ;
        } else {
            let pa = pow2((ea - 1) as nat);
            lemma_pow2_pos((ea - 1) as nat);
            lemma_pow2_unfold(ea);
            assert((s + fa) * pa < 2 * s * pa) by (nonlinear_arith)
                requires
                    fa < s,
                    pa >= 1,
            ;
            if ea < eb - 1 {
                lemma_pow2_strictly_increases(ea, (eb - 1) as nat);
            }
            assert(2 * s * pa == s * pow2(ea)) by (nonlinear_arith)
                requires
                    pow2(ea) == 2 * pa,
            ;
            assert(s * pow2(ea) <= s * p) by (nonlinear_arith)
                requires
                    pow2(ea) <= p,
            ;
        }
    }
}

/// Two magnitudes compare as their patterns do.
pub proof fn lemma_magnitude_order(a: nat, b: nat)
    ensures
        a < b <==> magnitude_of(a) < magnitude_of(b),
        a == b <==> magnitude_of(a) == magnitude_of(b),
{
    if a < b {
        lemma_magnitude_grows(a, b);
    } else if b < a {
        lemma_magnitude_grows(b, a);
    }
}

/// `excess` is the one shift that leaves as many places as fit.
pub proof fn lemma_excess(n: nat, k: nat)
    requires
        n < 2 * STEP * pow2(k),
        k == 0 || STEP * pow2(k) <= n,
    ensures
        excess(n) == k,
    decreases k,
{
    if k == 0 {
        assert(pow2(0) == 1) by {
            lemma2_to64();
        }
    } else {
        lemma_pow2_unfold(k);
        lemma_pow2_pos((k - 1) as nat);
        let p = pow2((k - 1) as nat);
        assert(STEP * pow2(k) == 2 * (STEP * p)) by (nonlinear_arith)
            requires
                pow2(k) == 2 * p,
        ;
        assert(STEP * p >= STEP) by (nonlinear_arith)
            requires
                p >= 1,
        ;
        assert(2 * STEP * pow2(k) == 2 * (2 * STEP * p)) by (nonlinear_arith)
            requires
                pow2(k) == 2 * p,
        ;
        lemma_excess(n / 2, (k - 1) as nat);
    }
}

/// What `nearest` gives once the shift, the quotient and the remainder are known.
proof fn lemma_nearest(n: nat, k: nat, q: nat, r: nat)
    requires
        n == q * pow2(k) + r,
        r < pow2(k),
        q < 2 * STEP,
        k == 0 || STEP <= q,
    ensures
        ({
            let up: nat = if 2 * r > pow2(k) || (2 * r == pow2(k) && q % 2 == 1) {
                1
            } else {
                0
            };
            let low = k * STEP as nat + q + up;
            nearest(n) == if low < INFINITE {
                low
            } else {
                INFINITE as nat
            }
        }),
{
    let p = pow2(k);
    assert(n < 2 * STEP * p) by (nonlinear_arith)
        requires
            n == q * p + r,
            r < p,
            q + 1 <= 2 * STEP,
    ;
    if k > 0 {
        assert(STEP * p <= n) by (nonlinear_arith)
            requires
                n == q * p + r,
                STEP <= q,
        ;
    }
    lemma_excess(n, k);
    lemma_fundamental_div_mod_converse(n as int, p as int, q as int, r as int);
}

/// A magnitude that is representable is its own nearest.
pub proof fn lemma_nearest_exact(low: nat)
    requires
        low < INFINITE,
    ensures
        nearest(magnitude_of(low)) == low,
{
    let s = STEP as nat;
    let e = low / s;
    let f = low % s;
    lemma_fundamental_div_mod(low as int, s as int);
    if e == 0 {
        assert(pow2(0) == 1) by {
            lemma2_to64();
        }
        lemma_nearest(f, 0, f, 0);
    } else {
        lemma_pow2_pos((e - 1) as nat);
        lemma_nearest(magnitude_of(low), (e - 1) as nat, (s + f) as nat, 0);
    }
}

/// The nearest pattern is never beyond infinity's.
pub proof fn lemma_nearest_bound(n: nat)
    ensures
        nearest(n) <= INFINITE,
{
}

/// `2^k` as a machine integer.
pub(crate) fn power_of_two(k: u32) -> (p: u128)
    requires
        k <= 64,
    ensures
        p == pow2(k as nat),
        p <= 0x1_0000_0000_0000_0000,
{
    let mut p: u128 = 1;
    let mut i: u32 = 0;
    proof {
        lemma2_to64();
    }
    while i < k
        invariant
            i <= k <= 64,
            p == pow2(i as nat),
            pow2(64) == 0x1_0000_0000_0000_0000,
        decreases k - i,
    {
        proof {
            lemma_pow2_unfold((i + 1) as nat);
            if i + 1 < 64 {
                lemma_pow2_strictly_increases((i + 1) as nat, 64);
            }
        }
        p = p * 2;
        i += 1;
    }
    proof {
        if k < 64 {
            lemma_pow2_strictly_increases(k as nat, 64);
        }
    }
    p
}

/// The pattern nearest to `n * 2^s` units.
fn round_scaled(n: u128, s: u32) -> (low: u64)
    requires
        n > 0,
        n < 0x8000_0000_0000_0000_0000_0000_0000_0000,
        s <= 2046,
    ensures
        low == nearest(n as nat * pow2(s as nat)),
        low <= INFINITE,
{
    let ghost total = n as nat * pow2(s as nat);
    let mut n: u128 = n;
    let mut s: u32 = s;
    while n < STEP as u128 && s > 0
        invariant
            n > 0,
            n < 0x8000_0000_0000_0000_0000_0000_0000_0000,
            s <= 2046,
            total == n as nat * pow2(s as nat),
        decreases s,
    {
        proof {
            lemma_pow2_unfold(s as nat);
            let p = pow2((s - 1) as nat);
            assert((n * 2) * p == n * (2 * p)) by (nonlinear_arith);
        }
        n = n * 2;
        s = s - 1;
    }
    let mut m: u128 = n;
    let mut unit: u128 = 1;
    let mut t: u32 = 0;
    proof {
        lemma2_to64();
        assert(n as int / 1 == n);
    }
    while m >= 2 * STEP as u128
        invariant
            n < 0x8000_0000_0000_0000_0000_0000_0000_0000,
            m == n / unit,
            unit > 0,
            unit == pow2(t as nat),
            unit * m <= n,
            t + 52 <= 127,
            t > 0 ==> m >= STEP,
        decreases m,
    {
        proof {
            lemma_div_denominator(n as int, unit as int, 2);
            lemma_pow2_unfold((t + 1) as nat);
            assert(unit * (2 * STEP) <= n) by (nonlinear_arith)
                requires
                    unit * m <= n,
                    m >= 2 * STEP,
            ;
            assert((unit * 2) * (m / 2) <= unit * m) by (nonlinear_arith)
                requires
                    2 * (m / 2) <= m,
                    unit > 0,
            ;
            if t + 53 > 127 {
                lemma_pow2_adds(52, t as nat);
                lemma_pow2_adds(64, 63);
                lemma2_to64_rest();
                assert(pow2(127) == 0x8000_0000_0000_0000_0000_0000_0000_0000);
                assert(t + 52 == 127);
                assert(unit * STEP == pow2(127));
                assert(false);
            }
        }
        m = m / 2;
        unit = unit * 2;
        t += 1;
    }
    let r: u128 = n % unit;
    let up: u64 = if r > unit - r || (r == unit - r && m % 2 == 1) {
        1
    } else {
        0
    };
    let low: u64 = (s as u64 + t as u64) * STEP + m as u64 + up;
    proof {
        lemma_fundamental_div_mod(n as int, unit as int);
        let p = pow2(s as nat);
        let k = (s + t) as nat;
        lemma_pow2_adds(s as nat, t as nat);
        lemma_pow2_pos(s as nat);
        let big = pow2(k);
        assert(big == p * unit);
        let rr = (r * p) as nat;
        assert(total == m * big + rr) by (nonlinear_arith)
            requires
                total == n * p,
                n == unit * m + r,
                big == p * unit,
                rr == r * p,
        ;
        assert(rr < big) by (nonlinear_arith)
            requires
                r < unit,
                big == p * unit,
                rr == r * p,
                p > 0,
        ;
        assert((2 * r > unit ==> 2 * rr > big) && (2 * r == unit ==> 2 * rr == big) && (2 * r < unit ==> 2 * rr < big))
            by (nonlinear_arith)
            requires
                big == p * unit,
                rr == r * p,
                p > 0,
        ;
        lemma_nearest(total, k, m as nat, rr);
    }
    if low < INFINITE {
        low
    } else {
        INFINITE
    }
}

impl Float64 {
    pub fn is_negative(self) -> (r: bool)
        ensures
            r == self.negative(),
    {
        self.bits >= SIGN
    }

    /// The pattern without the sign bit.
    fn low_bits(self) -> (r: u64)
        ensures
            r == self.low(),
    {
        if self.bits >= SIGN {
            self.bits - SIGN
        } else {
            self.bits
        }
    }

    pub fn is_nan(self) -> (r: bool)
        ensures
            r == self.nan(),
    {
        self.low_bits() > INFINITE
    }

    pub fn is_finite(self) -> (r: bool)
        ensures
            r == self.finite(),
    {
        self.low_bits() < INFINITE
    }

    /// `self < other`
    pub fn less(self, other: Float64) -> (r: bool)
        ensures
            r == self.below(other),
    {
        let a: u64 = self.low_bits();
        let b: u64 = other.low_bits();
        proof {
            lemma_magnitude_order(a as nat, b as nat);
            lemma_magnitude_order(0, a as nat);
            lemma_magnitude_order(0, b as nat);
        }
        if a > INFINITE || b > INFINITE {
            false
        } else if self.is_negative() {
            if other.is_negative() {
                b < a
            } else {
                a != 0 || b != 0
            }
        } else {
            !other.is_negative() && a < b
        }
    }

    /// `self <= other`
    pub fn at_most(self, other: Float64) -> (r: bool)
        ensures
            r == self.up_to(other),
    {
        !self.is_nan() && !other.is_nan() && !other.less(self)
    }

    /// The position in the total order of all patterns.
    pub fn order(self) -> (r: u64)
        ensures
            r == self.rank(),
    {
        if self.bits >= SIGN {
            u64::MAX - self.bits
        } else {
            SIGN + self.bits
        }
    }

    /// The position of an integer in ascending order.
    pub fn int_order(i: i64) -> (r: u64)
        ensures
            r == int_rank(i),
    {
        (i as i128 + SIGN as i128) as u64
    }

    /// Significand and shift: the magnitude is the one times two to the other.
    fn parts(self) -> (r: (u64, u32))
        requires
            !self.nan(),
        ensures
            self.magnitude() == r.0 as nat * pow2(r.1 as nat),
            r.1 == shift_of(self),
            r.0 < 2 * STEP,
            r.1 <= 2046,
            self.finite() ==> r.1 <= 2045,
            r.1 > 0 ==> r.0 >= STEP,
            r.0 >= STEP ==> self.low() == r.1 * STEP + r.0,
    {
        let low: u64 = self.low_bits();
        let e: u64 = low / STEP;
        let f: u64 = low % STEP;
        proof {
            lemma2_to64();
            lemma_fundamental_div_mod(low as int, STEP as int);
        }
        if e == 0 {
            assert(f * pow2(0) == f);
            (f, 0)
        } else {
            (STEP + f, (e - 1) as u32)
        }
    }

    /// `self + other`
    pub fn plus(self, other: Float64) -> (r: Float64)
        ensures
            r == sum(self, other),
    {
        if self.is_nan() || other.is_nan() {
            return Float64 { bits: NOT_A_NUMBER };
        }
        if !self.is_finite() {
            if !other.is_finite() && self.is_negative() != other.is_negative() {
                return Float64 { bits: NOT_A_NUMBER };
            }
            return self;
        }
        if !other.is_finite() {
            return other;
        }
        let (_, s1) = self.parts();
        let (_, s2) = other.parts();
        if s1 >= s2 {
            add_finite(self, other)
        } else {
            add_finite(other, self)
        }
    }

    /// The number nearest to an integer.
    pub fn from_int(i: i64) -> (r: Float64)
        ensures
            r == of_int(i),
    {
        proof {
            lemma_pow2_pos(1074);
            lemma_nearest_bound((i * one()) as nat);
            lemma_nearest_bound((-(i * one())) as nat);
        }
        if i == 0 {
            proof {
                lemma2_to64();
                lemma_nearest(0, 0, 0, 0);
            }
            Float64 { bits: 0 }
        } else if i > 0 {
            proof {
                assert(i * one() > 0) by (nonlinear_arith)
                    requires
                        i > 0,
                        one() > 0,
                ;
            }
            Float64 { bits: round_scaled(i as u128, 1074) }
        } else {
            let m: u128 = (-(i as i128)) as u128;
            proof {
                assert(i * one() < 0) by (nonlinear_arith)
                    requires
                        i < 0,
                        one() > 0,
                ;
                assert(m * one() == -(i * one())) by (nonlinear_arith)
                    requires
                        m == -i,
                ;
            }
            Float64 { bits: SIGN + round_scaled(m, 1074) }
        }
    }

    /// Whether the number is finite and has no fractional part.
    pub fn is_integral(self) -> (r: bool)
        ensures
            r == integral(self),
    {
        if !self.is_finite() {
            return false;
        }
        let (m, s) = self.parts();
        proof {
            lemma_pow2_pos(1074);
        }
        if s >= 1074 {
            proof {
                let d = (s - 1074) as nat;
                lemma_pow2_adds(d, 1074);
                assert(m * pow2(s as nat) == (m * pow2(d)) * one()) by (nonlinear_arith)
                    requires
                        pow2(s as nat) == pow2(d) * one(),
                ;
                lemma_mod_multiples_basic((m * pow2(d)) as int, one() as int);
            }
            return true;
        }
        let k: u32 = 1074 - s;
        proof {
            lemma_whole_units(m as nat, s as nat, k as nat);
            lemma2_to64_rest();
            if k > 53 {
                lemma_pow2_strictly_increases(53, k as nat);
            }
            if k >= 53 {
                lemma_small_mod(m as nat, pow2(k as nat));
            }
        }
        if k >= 53 {
            m == 0
        } else {
            m as u128 % power_of_two(k) == 0
        }
    }

    /// The integer part, kept within `i64`; zero for not-a-numbers.
    pub fn to_int(self) -> (r: i64)
        ensures
            r == int_part(self),
    {
        if self.is_nan() {
            return 0;
        }
        let (m, s) = self.parts();
        proof {
            lemma_pow2_pos(1074);
        }
        let t: u128 = if s >= 1074 {
            let d: u32 = s - 1074;
            proof {
                lemma_pow2_adds(d as nat, 1074);
                assert(m * pow2(s as nat) == one() * (m * pow2(d as nat))) by (nonlinear_arith)
                    requires
                        pow2(s as nat) == pow2(d as nat) * one(),
                ;
                lemma_div_multiples_vanish((m * pow2(d as nat)) as int, one() as int);
            }
            if d >= 12 {
                proof {
                    lemma2_to64();
                    if d > 12 {
                        lemma_pow2_strictly_increases(12, d as nat);
                    }
                    assert(m * pow2(d as nat) >= 0x1_0000_0000_0000_0000) by (nonlinear_arith)
                        requires
                            m >= STEP,
                            pow2(d as nat) >= 0x1000,
                    ;
                }
                0x1_0000_0000_0000_0000
            } else {
                let p: u128 = power_of_two(d);
                proof {
                    lemma2_to64();
                    lemma_pow2_strictly_increases(d as nat, 12);
                    assert(m * p <= 0x2000_0000_0000_0000_0000) by (nonlinear_arith)
                        requires
                            m < 2 * STEP,
                            p <= 0x1000,
                    ;
                }
                m as u128 * p
            }
        } else {
            let k: u32 = 1074 - s;
            proof {
                lemma_whole_units(m as nat, s as nat, k as nat);
                lemma2_to64_rest();
                if k > 53 {
                    lemma_pow2_strictly_increases(53, k as nat);
                }
            }
            if k >= 53 {
                proof {
                    lemma_basic_div(m as int, pow2(k as nat) as int);
                }
                0
            } else {
                let p: u128 = power_of_two(k);
                m as u128 / p
            }
        };
        if self.is_negative() {
            if t > 0x8000_0000_0000_0000 {
                i64::MIN
            } else {
                (-(t as i128)) as i64
            }
        } else if t > 0x7fff_ffff_ffff_ffff {
            i64::MAX
        } else {
            t as i64
        }
    }
}

/// A magnitude below one unit of the integers: its whole part and whether it
/// has a fractional one.
proof fn lemma_whole_units(m: nat, s: nat, k: nat)
    requires
        s + k == 1074,
    ensures
        (m * pow2(s)) / one() == m / pow2(k),
        ((m * pow2(s)) % one() == 0) <==> (m % pow2(k) == 0),
        pow2(k) > 0,
{
    lemma_pow2_adds(s, k);
    lemma_pow2_pos(s);
    lemma_pow2_pos(k);
    let p = pow2(s);
    let u = pow2(k);
    lemma_div_multiples_vanish_quotient(p as int, m as int, u as int);
    assert(m * p == p * m) by (nonlinear_arith);
    let q = m / u;
    let r = m % u;
    lemma_fundamental_div_mod(m as int, u as int);
    lemma_fundamental_div_mod((p * m) as int, (p * u) as int);
    assert(p * m == (p * u) * q + p * r) by (nonlinear_arith)
        requires
            m == u * q + r,
    ;
    assert((p * m) % (p * u) == p * r);
    assert(p * r == 0 <==> r == 0) by (nonlinear_arith)
        requires
            p > 0,
    ;
}

/// Adding a magnitude much below one unit in the last place changes nothing.
proof fn lemma_absorb(ma: nat, sa: nat, x: nat)
    requires
        STEP <= ma < 2 * STEP,
        0 < sa <= 2045,
        4 * x < pow2(sa),
    ensures
        nearest((ma * pow2(sa) + x) as nat) == sa * STEP + ma,
        ma * pow2(sa) > x,
        nearest((ma * pow2(sa) - x) as nat) == sa * STEP + ma,
{
    let p = pow2(sa);
    lemma_nearest((ma * p + x) as nat, sa, ma, x);
    assert(ma * p >= STEP * p) by (nonlinear_arith)
        requires
            ma >= STEP,
    ;
    let n = (ma * p - x) as nat;
    if x == 0 {
        lemma_nearest(n, sa, ma, 0);
    } else if ma > STEP {
        assert((ma - 1) * p == ma * p - p) by (nonlinear_arith);
        lemma_nearest(n, sa, (ma - 1) as nat, (p - x) as nat);
    } else {
        lemma_pow2_unfold(sa);
        let h = pow2((sa - 1) as nat);
        assert((2 * STEP - 1) * h == STEP * p - h) by (nonlinear_arith)
            requires
                p == 2 * h,
        ;
        lemma_nearest(n, (sa - 1) as nat, (2 * STEP - 1) as nat, (h - x) as nat);
    }
}

/// The sum of two finite numbers, the first of which has the larger shift.
fn add_finite(a: Float64, b: Float64) -> (r: Float64)
    requires
        a.finite(),
        b.finite(),
        shift_of(a) >= shift_of(b),
    ensures
        r == sum(a, b),
        r == sum(b, a),
{
    let (ma, sa) = a.parts();
    let (mb, sb) = b.parts();
    proof {
        lemma_nearest_bound((a.value() + b.value()) as nat);
        lemma_nearest_bound((-(a.value() + b.value())) as nat);
    }
    let d: u32 = sa - sb;
    if d > 64 {
        proof {
            let x = b.magnitude();
            let p = pow2(sa as nat);
            lemma2_to64_rest();
            lemma_pow2_adds((55 + sb) as nat, (d - 55) as nat);
            lemma_pow2_adds(55, sb as nat);
            lemma_pow2_pos(sb as nat);
            lemma_pow2_pos((d - 55) as nat);
            assert(4 * x < pow2((55 + sb) as nat)) by (nonlinear_arith)
                requires
                    x == mb * pow2(sb as nat),
                    mb < 2 * STEP,
                    pow2((55 + sb) as nat) == 4 * (2 * STEP) * pow2(sb as nat),
                    pow2(sb as nat) > 0,
            ;
            assert(pow2((55 + sb) as nat) <= p) by (nonlinear_arith)
                requires
                    p == pow2((55 + sb) as nat) * pow2((d - 55) as nat),
                    pow2((d - 55) as nat) > 0,
            ;
            lemma_absorb(ma as nat, sa as nat, x);
        }
        return a;
    }
    let p: u128 = power_of_two(d);
    proof {
        lemma_pow2_adds(d as nat, sb as nat);
        let u = pow2(sb as nat);
        assert(ma * pow2(sa as nat) == (ma * p) * u) by (nonlinear_arith)
            requires
                pow2(sa as nat) == p * u,
        ;
        assert(ma * p < 2 * STEP * 0x1_0000_0000_0000_0001) by (nonlinear_arith)
            requires
                ma < 2 * STEP,
                p <= 0x1_0000_0000_0000_0000,
        ;
    }
    let high: u128 = ma as u128 * p;
    let low: u128 = mb as u128;
    let ghost u = pow2(sb as nat);
    proof {
        lemma_pow2_pos(sb as nat);
        assert((high + low) * u == high * u + low * u) by (nonlinear_arith);
        assert((high - low) * u == high * u - low * u) by (nonlinear_arith);
        assert((low - high) * u == low * u - high * u) by (nonlinear_arith);
        assert((high + low) * u > 0 <==> high + low > 0) by (nonlinear_arith)
            requires
                u > 0,
        ;
        assert((high - low) * u > 0 <==> high - low > 0) by (nonlinear_arith)
            requires
                u > 0,
        ;
        assert((high - low) * u < 0 <==> high - low < 0) by (nonlinear_arith)
            requires
                u > 0,
        ;
    }
    let neg_a: bool = a.is_negative();
    let neg_b: bool = b.is_negative();
    if neg_a == neg_b {
        let n: u128 = high + low;
        if n == 0 {
            if neg_a {
                Float64 { bits: SIGN }
            } else {
                Float64 { bits: 0 }
            }
        } else {
            let bits: u64 = round_scaled(n, sb);
            if neg_a {
                Float64 { bits: SIGN + bits }
            } else {
                Float64 { bits }
            }
        }
    } else if high == low {
        Float64 { bits: 0 }
    } else if high > low {
        let bits: u64 = round_scaled(high - low, sb);
        if neg_a {
            Float64 { bits: SIGN + bits }
        } else {
            Float64 { bits }
        }
    } else {
        let bits: u64 = round_scaled(low - high, sb);
        if neg_b {
            Float64 { bits: SIGN + bits }
        } else {
            Float64 { bits }
        }
    }
}

/// No representable magnitude is nearer to `n` than the one that `nearest`
/// picks, wherever that one is finite.
pub proof fn law_nearest_is_nearest(n: nat, low: nat)
    requires
        nearest(n) < INFINITE,
    ensures
        magnitude_of(nearest(n)) <= n ==> (magnitude_of(low) <= magnitude_of(nearest(n))
            || magnitude_of(low) - n >= n - magnitude_of(nearest(n))),
        magnitude_of(nearest(n)) >= n ==> (magnitude_of(low) >= magnitude_of(nearest(n))
            || n - magnitude_of(low) >= magnitude_of(nearest(n)) - n),
{
    let k = excess(n);
    let p = pow2(k);
    lemma_pow2_pos(k);
    lemma_excess_fits(n);
    let q = n / p;
    let r = n % p;
    lemma_fundamental_div_mod(n as int, p as int);
    assert(q < 2 * STEP && (k == 0 || STEP <= q)) by {
        assert(q < 2 * STEP) by (nonlinear_arith)
            requires
                n < 2 * STEP * p,
                n == p * q + r,
                r >= 0,
                p > 0,
        ;
        if k > 0 {
            assert(STEP <= q) by (nonlinear_arith)
                requires
                    STEP * p <= n,
                    n == p * q + r,
                    r < p,
                    p > 0,
            ;
        }
    }
    let at = k * STEP as nat + q;
    lemma_magnitude_at(k, q);
    lemma_magnitude_at(k, q + 1);
    assert(p * q == q * p) by (nonlinear_arith);
    assert((q + 1) * p == q * p + p) by (nonlinear_arith);
    lemma_magnitude_order(low, at);
    lemma_magnitude_order(low, at + 1);
}

/// `excess` leaves as many places as fit, and no more.
pub proof fn lemma_excess_fits(n: nat)
    ensures
        n < 2 * STEP * pow2(excess(n)),
        excess(n) == 0 || STEP * pow2(excess(n)) <= n,
    decreases n,
{
    if n < 2 * STEP {
        lemma2_to64();
    } else {
        lemma_excess_fits(n / 2);
        let k = excess(n / 2);
        lemma_pow2_unfold(k + 1);
        lemma2_to64();
        let p = pow2(k);
        assert(2 * STEP * pow2(k + 1) == 2 * (2 * STEP * p)) by (nonlinear_arith)
            requires
                pow2(k + 1) == 2 * p,
        ;
        assert(STEP * pow2(k + 1) == 2 * (STEP * p)) by (nonlinear_arith)
            requires
                pow2(k + 1) == 2 * p,
        ;
    }
}

/// The magnitude of the pattern with shift `k` and significand `q`.
pub proof fn lemma_magnitude_at(k: nat, q: nat)
    requires
        q <= 2 * STEP,
        k == 0 || STEP <= q,
    ensures
        magnitude_of(k * STEP as nat + q) == q * pow2(k),
{
    let s = STEP as nat;
    let low = k * s + q;
    lemma2_to64();
    if q < s {
        lemma_fundamental_div_mod_converse(low as int, s as int, 0, q as int);
    } else if q < 2 * s {
        assert((k + 1) * s == k * s + s) by (nonlinear_arith);
        lemma_fundamental_div_mod_converse(low as int, s as int, (k + 1) as int, (q - s) as int);
    } else {
        assert((k + 2) * s == k * s + 2 * s) by (nonlinear_arith);
        lemma_fundamental_div_mod_converse(low as int, s as int, (k + 2) as int, 0);
        lemma_pow2_unfold(k + 1);
        let p = pow2(k);
        assert(s * pow2(k + 1) == (2 * s) * p) by (nonlinear_arith)
            requires
                pow2(k + 1) == 2 * p,
        ;
    }
}

/// Addition does not depend on the order of the two numbers.
pub proof fn law_sum_commutes(a: Float64, b: Float64)
    ensures
        sum(a, b) == sum(b, a),
{
}

/// Adding zero to a number gives the number back (`-0` becomes `+0`).
pub proof fn law_sum_with_zero(a: Float64)
    requires
        !a.nan(),
        a.bits != SIGN,
    ensures
        sum(Float64 { bits: 0 }, a) == a,
{
    let z = Float64 { bits: 0 };
    lemma_magnitude_order(0, a.low());
    assert(z.value() == 0);
    if a.finite() {
        lemma_nearest_exact(a.low());
    }
}

/// An integer of at most 53 binary places becomes exactly itself.
pub proof fn law_small_integers_are_exact(i: i64)
    requires
        -2 * STEP <= i <= 2 * STEP,
    ensures
        of_int(i).finite(),
        of_int(i).value() == i * one(),
        int_part(of_int(i)) == i,
        integral(of_int(i)),
{
    lemma_pow2_pos(1074);
    let m: nat = if i < 0 {
        (-i) as nat
    } else {
        i as nat
    };
    lemma_small_exact(m, 1074);
    let n = m * one();
    let low = nearest(n);
    assert(i < 0 ==> -(i * one()) == n) by (nonlinear_arith)
        requires
            i < 0 ==> m == -i,
            n == m * one(),
    ;
    assert(i < 0 ==> i * one() < 0) by (nonlinear_arith)
        requires
            one() > 0,
    ;
    assert(i >= 0 ==> i * one() == n);
    lemma_div_multiples_vanish(m as int, one() as int);
    lemma_mod_multiples_basic(m as int, one() as int);
    assert(one() * m == m * one()) by (nonlinear_arith);
}

/// A significand that fits is kept whole under any shift that leaves the
/// number finite.
proof fn lemma_small_exact(m: nat, s: nat)
    requires
        m <= 2 * STEP,
        s <= 2000,
    ensures
        nearest(m * pow2(s)) < INFINITE,
        magnitude_of(nearest(m * pow2(s))) == m * pow2(s),
    decreases s, 2 * STEP - m,
{
    lemma_pow2_pos(s);
    lemma2_to64();
    if m == 2 * STEP {
        lemma_pow2_unfold(s + 1);
        assert(m * pow2(s) == STEP * pow2(s + 1)) by (nonlinear_arith)
            requires
                m == 2 * STEP,
                pow2(s + 1) == 2 * pow2(s),
        ;
        lemma_nearest(m * pow2(s), s + 1, STEP as nat, 0);
        lemma_magnitude_at(s + 1, STEP as nat);
    } else if s == 0 || m >= STEP {
        lemma_nearest(m * pow2(s), s, m, 0);
        lemma_magnitude_at(s, m);
    } else {
        lemma_pow2_unfold(s);
        let p = pow2((s - 1) as nat);
        assert(m * pow2(s) == (2 * m) * p) by (nonlinear_arith)
            requires
                pow2(s) == 2 * p,
        ;
        lemma_small_exact(2 * m, (s - 1) as nat);
    }
}

/// More places are in excess of a larger magnitude.
proof fn lemma_excess_grows(m: nat, n: nat)
    requires
        m <= n,
    ensures
        excess(m) <= excess(n),
    decreases n,
{
    if m >= 2 * STEP {
        lemma_excess_grows(m / 2, n / 2);
    }
}

/// A larger magnitude is rounded to no smaller one.
proof fn lemma_nearest_grows(m: nat, n: nat)
    requires
        m <= n,
    ensures
        nearest(m) <= nearest(n),
{
    let k = excess(m);
    let l = excess(n);
    let p = pow2(k);
    let u = pow2(l);
    lemma_excess_grows(m, n);
    lemma_excess_fits(m);
    lemma_excess_fits(n);
    lemma_pow2_pos(k);
    lemma_pow2_pos(l);
    lemma_fundamental_div_mod(m as int, p as int);
    lemma_fundamental_div_mod(n as int, u as int);
    let a = m / p;
    let b = n / u;
    let r = m % p;
    let s = n % u;
    if k == l {
        lemma_div_is_ordered(m as int, n as int, p as int);
        if a == b {
            assert(r <= s);
        }
    } else {
        assert(a < 2 * STEP) by (nonlinear_arith)
            requires
                m < 2 * STEP * p,
                m == p * a + r,
                r >= 0,
                p > 0,
        ;
        assert(STEP <= b) by (nonlinear_arith)
            requires
                STEP * u <= n,
                n == u * b + s,
                s < u,
                u > 0,
        ;
        assert(k * STEP + STEP <= l * STEP) by (nonlinear_arith)
            requires
                k + 1 <= l,
        ;
    }
}

/// Integers keep their order when they are turned into numbers, though some that
/// differ turn into the same number.
pub proof fn law_integers_keep_their_order(i: i64, j: i64)
    requires
        i <= j,
    ensures
        of_int(i).rank() <= of_int(j).rank(),
{
    let one = one();
    lemma_pow2_pos(1074);
    assert(i * one <= j * one) by (nonlinear_arith)
        requires
            i <= j,
            one > 0,
    ;
    let x = i * one;
    let y = j * one;
    if x < 0 {
        lemma_nearest_bound((-x) as nat);
    } else {
        lemma_nearest_bound(x as nat);
    }
    if y < 0 {
        lemma_nearest_bound((-y) as nat);
        lemma_nearest_grows((-y) as nat, (-x) as nat);
    } else {
        lemma_nearest_bound(y as nat);
        if x >= 0 {
            lemma_nearest_grows(x as nat, y as nat);
        }
    }
}

/// The total order of patterns never contradicts the numeric one.
pub proof fn law_rank_agrees_with_order(a: Float64, b: Float64)
    requires
        !a.nan(),
        !b.nan(),
    ensures
        a.rank() <= b.rank() ==> a.up_to(b),
        a.below(b) ==> a.rank() < b.rank(),
{
    lemma_magnitude_order(a.low(), b.low());
    lemma_magnitude_order(b.low(), a.low());
    lemma_magnitude_order(0, a.low());
    lemma_magnitude_order(0, b.low());
}

/// How far apart two values are.
pub open spec fn apart(x: int, y: int) -> int {
    if x < y {
        y - x
    } else {
        x - y
    }
}

/// No number is nearer to `x` units than the one that `x` is rounded to, wherever
/// that one is finite.
pub proof fn law_rounding_gives_the_nearest(x: int, y: Float64)
    requires
        rounded(x).finite(),
        !y.nan(),
    ensures
        apart(rounded(x).value(), x) <= apart(y.value(), x),
{
    let n: nat = if x < 0 {
        (-x) as nat
    } else {
        x as nat
    };
    lemma_nearest_bound(n);
    law_nearest_is_nearest(n, y.low());
    law_nearest_is_nearest(n, 0);
}

/// Of two numbers that are equally near, the one with the even pattern is taken.
pub proof fn law_ties_go_to_the_even_pattern(n: nat, low: nat)
    requires
        nearest(n) < INFINITE,
        low != nearest(n),
        apart(magnitude_of(low) as int, n as int) == apart(
            magnitude_of(nearest(n)) as int,
            n as int,
        ),
    ensures
        nearest(n) % 2 == 0,
{
    let k = excess(n);
    let p = pow2(k);
    lemma_pow2_pos(k);
    lemma_excess_fits(n);
    let q = n / p;
    let r = n % p;
    lemma_fundamental_div_mod(n as int, p as int);
    assert(q < 2 * STEP && (k == 0 || STEP <= q)) by {
        assert(q < 2 * STEP) by (nonlinear_arith)
            requires
                n < 2 * STEP * p,
                n == p * q + r,
                r >= 0,
                p > 0,
        ;
        if k > 0 {
            assert(STEP <= q) by (nonlinear_arith)
                requires
                    STEP * p <= n,
                    n == p * q + r,
                    r < p,
                    p > 0,
            ;
        }
    }
    let at = k * STEP as nat + q;
    lemma_magnitude_at(k, q);
    lemma_magnitude_at(k, q + 1);
    assert(p * q == q * p) by (nonlinear_arith);
    assert((q + 1) * p == q * p + p) by (nonlinear_arith);
    lemma_magnitude_order(low, at);
    lemma_magnitude_order(at, low);
    lemma_magnitude_order(low, at + 1);
    lemma_magnitude_order(at + 1, low);
    assert((k * STEP) % 2 == 0) by (nonlinear_arith)
        requires
            STEP == 0x10_0000_0000_0000,
    ;
}

/// A magnitude rounds to infinity only from the middle on between the largest
/// finite one and the next power of two.
pub proof fn law_only_what_is_too_large_overflows(n: nat)
    requires
        nearest(n) >= INFINITE,
    ensures
        2 * n >= magnitude_of((INFINITE - 1) as nat) + magnitude_of(INFINITE as nat),
{
    let top = (INFINITE - 1) as nat;
    let m = magnitude_of(top);
    lemma_nearest_exact(top);
    lemma_magnitude_order(top, INFINITE as nat);
    if n < m {
        lemma_nearest_grows(n, m);
        assert(false);
    }
    let k = 2045nat;
    let p = pow2(k);
    lemma_pow2_pos(k);
    let q = (2 * STEP - 1) as nat;
    lemma_magnitude_at(k, q);
    lemma_magnitude_at(k, q + 1);
    assert(k * STEP + q == top);
    assert((q + 1) * p == q * p + p) by (nonlinear_arith);
    let r = n - m;
    if r < p {
        lemma_nearest(n, k, q, r as nat);
    }
}

/// An integer becomes the number nearest to it.
pub proof fn law_integer_becomes_the_nearest(i: i64, y: Float64)
    requires
        !y.nan(),
    ensures
        of_int(i).finite(),
        apart(of_int(i).value(), i * one()) <= apart(y.value(), i * one()),
{
    let one = one();
    lemma_pow2_pos(1074);
    lemma2_to64();
    lemma_small_exact(2 * STEP as nat, 1084);
    lemma_pow2_adds(10, 1074);
    let x = i * one;
    let n: nat = if x < 0 {
        (-x) as nat
    } else {
        x as nat
    };
    let most = 2 * STEP as nat * pow2(1084);
    assert(n <= most) by (nonlinear_arith)
        requires
            x == i * one,
            n == x || n == -x,
            -0x8000_0000_0000_0000 <= i <= 0x8000_0000_0000_0000,
            most == 2 * STEP * pow2(1084),
            pow2(1084) == 0x400 * one,
            STEP == 0x10_0000_0000_0000,
            one > 0,
    ;
    lemma_nearest_grows(n, most);
    law_rounding_gives_the_nearest(x, y);
}

/// The sum of two finite numbers is the number nearest to the exact sum, wherever
/// that one is finite.
pub proof fn law_sum_is_the_nearest(a: Float64, b: Float64, y: Float64)
    requires
        a.finite(),
        b.finite(),
        sum(a, b).finite(),
        !y.nan(),
    ensures
        apart(sum(a, b).value(), a.value() + b.value()) <= apart(
            y.value(),
            a.value() + b.value(),
        ),
{
    if a.value() + b.value() != 0 {
        law_rounding_gives_the_nearest(a.value() + b.value(), y);
    }
}

/// A sum is a number unless one of the two is none, or they are infinities of
/// opposite sign; an infinity swallows what is finite; and a sum of finite numbers
/// overflows to the side of the exact sum, only from where it is too large.
pub proof fn law_sums_beyond_the_finite(a: Float64, b: Float64)
    ensures
        sum(a, b).nan() <==> a.nan() || b.nan() || (!a.finite() && !b.finite() && a.negative()
            != b.negative()),
        !a.nan() && !a.finite() && b.finite() ==> sum(a, b) == a && sum(b, a) == a,
        !a.nan() && !a.finite() && a == b ==> sum(a, b) == a,
        a.finite() && b.finite() && !sum(a, b).finite() ==> {
            let x = a.value() + b.value();
            &&& 2 * apart(x, 0) >= magnitude_of((INFINITE - 1) as nat) + magnitude_of(
                INFINITE as nat,
            )
            &&& sum(a, b).negative() <==> x < 0
        },
{
    let x = a.value() + b.value();
    let n: nat = if x < 0 {
        (-x) as nat
    } else {
        x as nat
    };
    lemma_nearest_bound(n);
    if nearest(n) >= INFINITE {
        law_only_what_is_too_large_overflows(n);
    }
}

/// A multiple of a power of two is its own nearest number, as long as the factor
/// has at most 53 binary places.
proof fn lemma_multiple_exact(x: int, m: int, k: nat)
    requires
        k <= 2000,
        x == m * pow2(k),
        -2 * STEP <= m <= 2 * STEP,
    ensures
        rounded(x).finite(),
        rounded(x).value() == x,
{
    lemma_pow2_pos(k);
    let p = pow2(k);
    let n: nat = if m < 0 {
        (-m) as nat
    } else {
        m as nat
    };
    lemma_small_exact(n, k);
    assert(n * p == if x < 0 {
        -x
    } else {
        x
    }) by (nonlinear_arith)
        requires
            x == m * p,
            n == m || n == -m,
            n >= 0,
            p > 0,
    ;
}

/// Numbers that are multiples of one power of two add up exactly, as long as their
/// sum has at most 53 binary places in it.
pub proof fn law_multiples_add_exactly(a: Float64, b: Float64, x: int, y: int, k: nat)
    requires
        k <= 2000,
        a.finite(),
        b.finite(),
        a.value() == x * pow2(k),
        b.value() == y * pow2(k),
        -2 * STEP <= x + y <= 2 * STEP,
    ensures
        sum(a, b).finite(),
        sum(a, b).value() == a.value() + b.value(),
{
    let p = pow2(k);
    assert((x + y) * p == x * p + y * p) by (nonlinear_arith);
    lemma_multiple_exact(a.value() + b.value(), x + y, k);
    lemma2_to64();
    assert(magnitude_of(0) == 0);
}

/// The integer part leaves less than one behind, on the side of zero, wherever
/// 64 bits hold it; beyond it is the outermost integer of its side.
pub proof fn law_integer_part_cuts_towards_zero(a: Float64)
    requires
        !a.nan(),
    ensures
        i64::MIN * one() < a.value() < (i64::MAX + 1) * one() ==> {
            let i = int_part(a);
            &&& a.value() >= 0 ==> 0 <= i && i * one() <= a.value() < (i + 1) * one()
            &&& a.value() <= 0 ==> i <= 0 && (i - 1) * one() < a.value() <= i * one()
        },
        a.value() >= (i64::MAX + 1) * one() ==> int_part(a) == i64::MAX,
        a.value() <= i64::MIN * one() ==> int_part(a) == i64::MIN,
{
    let one = one();
    lemma_pow2_pos(1074);
    let m = a.magnitude();
    let t = m / one;
    let r = m % one;
    lemma_fundamental_div_mod(m as int, one as int);
    assert(m == t * one + r && 0 <= r < one) by (nonlinear_arith)
        requires
            m == one * t + r,
            0 <= r < one,
    ;
    assert((t + 1) * one == t * one + one && (-t) * one == -(t * one) && (-t - 1) * one == -(t
        * one) - one) by (nonlinear_arith);
    let b = 0x8000_0000_0000_0000int;
    assert((t >= b ==> t * one >= b * one) && (t + 1 <= b ==> (t + 1) * one <= b * one)
        && (-b) * one == -(b * one)) by (nonlinear_arith)
        requires
            one > 0,
    ;
    assert(t > b ==> t * one >= (b + 1) * one && (b + 1) * one == b * one + one) by (nonlinear_arith)
        requires
            one > 0,
    ;
}

/// A number has no fractional part exactly if it is a whole multiple of one.
pub proof fn law_integral_means_whole(a: Float64, i: int)
    ensures
        a.finite() && a.value() == i * one() ==> integral(a),
        integral(a) ==> a.finite() && exists|j: int| a.value() == #[trigger] (j * one()),
{
    let one = one();
    lemma_pow2_pos(1074);
    let m = a.magnitude();
    if a.finite() && a.value() == i * one {
        let j = if a.negative() {
            -i
        } else {
            i
        };
        assert(m == j * one) by (nonlinear_arith)
            requires
                m == i * one && j == i || m == -(i * one) && j == -i,
        ;
        lemma_mod_multiples_basic(j, one as int);
    }
    if integral(a) {
        let t = m as int / one as int;
        lemma_fundamental_div_mod(m as int, one as int);
        assert(m == t * one && -m == (-t) * one) by (nonlinear_arith)
            requires
                m == one * t,
        ;
        if a.negative() {
            assert(a.value() == (-t) * one);
        } else {
            assert(a.value() == t * one);
        }
    }
}

/// A sum that is exactly zero is `+0`, unless both are negative.
pub proof fn law_zero_sums(a: Float64, b: Float64)
    requires
        a.finite(),
        b.finite(),
        a.value() + b.value() == 0,
    ensures
        sum(a, b).magnitude() == 0,
        sum(a, b).negative() <==> a.negative() && b.negative(),
{
    lemma2_to64();
    assert(magnitude_of(0) == 0);
}

} // verus!
