//! Numbers written down in decimal, as binary64 numbers.
use vstd::arithmetic::div_mod::*;
use vstd::arithmetic::power2::*;
use vstd::prelude::*;

use crate::float64;
use crate::float64::{Float64, INFINITE, NOT_A_NUMBER, SIGN, STEP};
use crate::natural::Natural;
use crate::text;

verus! {

/// How many digits a text starts with.
pub open spec fn digit_run(s: Seq<char>) -> nat
    decreases s.len(),
{
    if s.len() > 0 && text::is_digit(s.first()) {
        1 + digit_run(s.drop_first())
    } else {
        0
    }
}

/// The power of ten that the end of a numeral gives: `e`, an optional sign and
/// digits, or nothing.
pub open spec fn exponent_of(s: Seq<char>) -> Option<int> {
    if s.len() == 0 {
        Some(0)
    } else if s.first() == 'e' || s.first() == 'E' {
        text::integer_of(s.drop_first())
    } else {
        None
    }
}

/// The digits of a numeral as one integer, and the power of ten that it is to
/// be multiplied with. A numeral has at least one digit before or after its
/// point.
pub open spec fn numeral_of(s: Seq<char>) -> Option<(nat, int)> {
    let i = digit_run(s) as int;
    let rest = s.skip(i);
    if rest.len() > 0 && rest.first() == '.' {
        let after = rest.drop_first();
        let j = digit_run(after) as int;
        match exponent_of(after.skip(j)) {
            Some(e) => if i + j > 0 {
                Some((text::natural(s.take(i) + after.take(j)), e - j))
            } else {
                None
            },
            None => None,
        }
    } else if i > 0 {
        match exponent_of(rest) {
            Some(e) => Some((text::natural(s.take(i)), e)),
            None => None,
        }
    } else {
        None
    }
}

/// The pattern of the representable magnitude nearest to `num / den` units; of
/// two that are equally near, the one with the even pattern.
pub open spec fn nearest_ratio(num: nat, den: nat) -> nat {
    let k = float64::excess(num / den);
    let unit = den * pow2(k);
    let q = num / unit;
    let r = num % unit;
    let up: nat = if 2 * r > unit || (2 * r == unit && q % 2 == 1) {
        1
    } else {
        0
    };
    let low = k * STEP as nat + q + up;
    if low < INFINITE {
        low
    } else {
        INFINITE as nat
    }
}

/// `10^e`.
pub open spec fn ten(e: nat) -> nat
    decreases e,
{
    if e == 0 {
        1
    } else {
        10 * ten((e - 1) as nat)
    }
}

/// The pattern nearest to `d * 10^e`.
pub open spec fn nearest_decimal(d: nat, e: int) -> nat {
    if e >= 0 {
        nearest_ratio(d * ten(e as nat) * float64::one(), 1)
    } else {
        nearest_ratio(d * float64::one(), ten((-e) as nat))
    }
}

/// The pattern that a word stands for: `inf`, `infinity` or `nan`, letters in
/// either case.
pub open spec fn word_pattern(body: Seq<char>) -> Option<nat> {
    let word = text::lowered(body);
    if word == "inf"@ || word == "infinity"@ {
        Some(INFINITE as nat)
    } else if word == "nan"@ {
        Some(NOT_A_NUMBER as nat)
    } else {
        None
    }
}

/// The number that a text writes down: an optional sign, then a decimal
/// numeral, `inf`, `infinity` or `nan`, letters in either case.
pub open spec fn number_of(s: Seq<char>) -> Option<Float64> {
    let (neg, body) = text::signed(s);
    let low: Option<nat> = match word_pattern(body) {
        Some(l) => Some(l),
        None => match numeral_of(body) {
            Some((d, e)) => Some(nearest_decimal(d, e)),
            None => None,
        },
    };
    match low {
        Some(l) => Some(
            Float64 {
                bits: if neg {
                    (SIGN + l) as u64
                } else {
                    l as u64
                },
            },
        ),
        None => None,
    }
}

/// How `num / den` rounds, told from its highest binary places.
///
/// `n` are the places of `num / den * p / q` before the point, `rem` stands for
/// those behind it, and `p / q` is a power of two. Of the places of `n`, the last
/// `m` are behind the last that is kept.
proof fn lemma_rounds(
    num: nat,
    den: nat,
    p: nat,
    q: nat,
    n: nat,
    rem: nat,
    m: nat,
    k: nat,
)
    requires
        den > 0,
        num * p == (den * q) * n + rem,
        rem < den * q,
        p > 0,
        q > 0,
        pow2(k) * p == pow2(m) * q,
        m >= 1,
        n / pow2(m) < 2 * STEP,
        k == 0 || STEP <= n / pow2(m),
    ensures
        ({
            let kept = n / pow2(m);
            let rest = n % pow2(m);
            let half = pow2((m - 1) as nat);
            let up: nat = if rest > half || (rest == half && (rem > 0 || kept % 2 == 1)) {
                1
            } else {
                0
            };
            let low = k * STEP as nat + kept + up;
            nearest_ratio(num, den) == if low < INFINITE {
                low
            } else {
                INFINITE as nat
            }
        }),
{
    let big = pow2(m);
    let half = pow2((m - 1) as nat);
    let kept = n / big;
    let rest = n % big;
    let unit = den * pow2(k);
    let v = den * q;
    let w = v * big;
    lemma_pow2_pos(m);
    lemma_pow2_pos(k);
    lemma_pow2_pos((m - 1) as nat);
    lemma_pow2_unfold(m);
    assert(big == 2 * half);
    lemma_fundamental_div_mod(n as int, big as int);
    assert(unit > 0) by (nonlinear_arith)
        requires
            den > 0,
            pow2(k) > 0,
            unit == den * pow2(k),
    ;
    assert(unit * p == w) by (nonlinear_arith)
        requires
            unit == den * pow2(k),
            pow2(k) * p == big * q,
            w == (den * q) * big,
    ;
    assert(v > 0) by (nonlinear_arith)
        requires
            v == den * q,
            den > 0,
            q > 0,
    ;
    let tail = v * rest + rem;
    assert(num * p == w * kept + tail) by (nonlinear_arith)
        requires
            num * p == v * n + rem,
            n == big * kept + rest,
            w == v * big,
            tail == v * rest + rem,
    ;
    assert(0 <= tail && tail < w) by (nonlinear_arith)
        requires
            tail == v * rest + rem,
            0 <= rest,
            rest + 1 <= big,
            0 <= rem,
            rem < v,
            w == v * big,
    ;
    let q2 = num / unit;
    let r2 = num % unit;
    lemma_fundamental_div_mod(num as int, unit as int);
    assert(num * p == w * q2 + r2 * p) by (nonlinear_arith)
        requires
            num == unit * q2 + r2,
            unit * p == w,
    ;
    assert(0 <= r2 * p && r2 * p < w) by (nonlinear_arith)
        requires
            0 <= r2,
            r2 < unit,
            0 < p,
            unit * p == w,
    ;
    lemma_fundamental_div_mod_converse((num * p) as int, w as int, kept as int, tail as int);
    lemma_fundamental_div_mod_converse((num * p) as int, w as int, q2 as int, (r2 * p) as int);
    assert(q2 == kept);
    assert(r2 * p == tail);
    let x = num / den;
    lemma_div_denominator(num as int, den as int, pow2(k) as int);
    assert(x / pow2(k) == kept);
    lemma_fundamental_div_mod(x as int, pow2(k) as int);
    assert(x < 2 * STEP * pow2(k) && (k == 0 || STEP * pow2(k) <= x)) by (nonlinear_arith)
        requires
            x == pow2(k) * kept + x % pow2(k),
            0 <= x % pow2(k),
            x % pow2(k) < pow2(k),
            kept < 2 * STEP,
            k == 0 || STEP <= kept,
            pow2(k) > 0,
    ;
    float64::lemma_excess(x, k);
    assert((2 * r2 > unit) == (2 * tail > w)) by (nonlinear_arith)
        requires
            r2 * p == tail,
            unit * p == w,
            p > 0,
    ;
    assert((2 * r2 == unit) == (2 * tail == w)) by (nonlinear_arith)
        requires
            r2 * p == tail,
            unit * p == w,
            p > 0,
    ;
    assert(w == 2 * (v * half)) by (nonlinear_arith)
        requires
            w == v * big,
            big == 2 * half,
    ;
    assert(rest > half ==> tail > v * half) by (nonlinear_arith)
        requires
            tail == v * rest + rem,
            v > 0,
            rem >= 0,
    ;
    assert(rest < half ==> tail < v * half) by (nonlinear_arith)
        requires
            tail == v * rest + rem,
            v > 0,
            rem < v,
    ;
}

/// The pattern nearest to `num / den`, told from its highest 64 binary places,
/// whether anything stands behind them, and where the point is.
fn round_places(
    n: u64,
    sticky: bool,
    t: i128,
    num: Ghost<nat>,
    den: Ghost<nat>,
    p: Ghost<nat>,
    q: Ghost<nat>,
    rem: Ghost<nat>,
) -> (low: u64)
    requires
        n >= 0x8000_0000_0000_0000,
        den@ > 0,
        num@ * pow2(p@) == (den@ * pow2(q@)) * n + rem@,
        rem@ < den@ * pow2(q@),
        sticky == (rem@ > 0),
        t == p@ - q@,
        -0x1_0000_0000_0000_0000_0000_0000 < t < 0x1_0000_0000_0000_0000_0000_0000,
    ensures
        low == nearest_ratio(num@, den@),
{
    proof {
        lemma2_to64();
        lemma_pow2_pos(p@);
        lemma_pow2_pos(q@);
        assert(pow2(11) == 0x800);
    }
    if t > 64 {
        proof {
            let m = t as nat;
            lemma_pow2_adds(0, p@);
            lemma_pow2_adds(m, q@);
            lemma_pow2_strictly_increases(64, m);
            if m > 65 {
                lemma_pow2_strictly_increases(64, (m - 1) as nat);
            }
            lemma_small_mod(n as nat, pow2(m));
            lemma_basic_div(n as int, pow2(m) as int);
            lemma_rounds(num@, den@, pow2(p@), pow2(q@), n as nat, rem@, m, 0);
        }
        return 0;
    }
    let m: u32 = if t > 11 {
        t as u32
    } else {
        11
    };
    let k: i128 = m as i128 - t;
    let big: u128 = float64::power_of_two(m);
    let half: u128 = float64::power_of_two(m - 1);
    proof {
        lemma_pow2_pos(m as nat);
    }
    let kept: u64 = (n as u128 / big) as u64;
    let rest: u128 = n as u128 % big;
    proof {
        lemma_pow2_adds(k as nat, p@);
        lemma_pow2_adds(m as nat, q@);
        assert(big >= 0x800) by {
            if m > 11 {
                lemma_pow2_strictly_increases(11, m as nat);
            }
        }
        assert(n as u128 / big < 2 * STEP) by (nonlinear_arith)
            requires
                big >= 0x800,
                n <= 0xffff_ffff_ffff_ffff,
                STEP == 0x10_0000_0000_0000,
        ;
        assert(k > 0 ==> n as u128 / big >= STEP) by {
            if k > 0 {
                assert(big == 0x800);
                assert(n as u128 / 0x800 >= 0x10_0000_0000_0000) by (nonlinear_arith)
                    requires
                        n >= 0x8000_0000_0000_0000,
                ;
            }
        }
        lemma_rounds(num@, den@, pow2(p@), pow2(q@), n as nat, rem@, m as nat, k as nat);
    }
    if k >= 2046 {
        assert(k * STEP + kept >= INFINITE) by (nonlinear_arith)
            requires
                k >= 2046,
                kept >= STEP,
                STEP == 0x10_0000_0000_0000,
                INFINITE == 0x7ff0_0000_0000_0000,
        ;
        return INFINITE;
    }
    let up: u64 = if rest > half || (rest == half && (sticky || kept % 2 == 1)) {
        1
    } else {
        0
    };
    assert(k * STEP <= 2046 * 0x10_0000_0000_0000) by (nonlinear_arith)
        requires
            0 <= k < 2046,
            STEP == 0x10_0000_0000_0000,
    ;
    let low: u64 = k as u64 * STEP + kept + up;
    if low < INFINITE {
        low
    } else {
        INFINITE
    }
}

/// The highest 64 binary places of a number, and where they stand.
struct Places {
    n: u64,
    /// How far the number was shifted up.
    up: u32,
    /// How far it was shifted down.
    down: u32,
    /// Whether anything was shifted out.
    lost: bool,
    rem: Ghost<nat>,
}

/// The highest 64 binary places of a number.
fn highest(w: u128) -> (r: Places)
    requires
        w > 0,
    ensures
        r.n >= 0x8000_0000_0000_0000,
        w * pow2(r.up as nat) == r.n * pow2(r.down as nat) + r.rem@,
        r.rem@ < pow2(r.down as nat),
        r.lost == (r.rem@ > 0),
        r.up <= 63,
        r.down <= 64,
        r.up == 0 || r.down == 0,
        w < 0x1_0000_0000_0000_0000 ==> r.down == 0 && !r.lost,
        w >= 0x8000_0000_0000_0000 ==> r.up == 0,
{
    proof {
        lemma2_to64();
        lemma2_to64_rest();
    }
    if w < 0x1_0000_0000_0000_0000 {
        let mut n: u64 = w as u64;
        let mut up: u32 = 0;
        while n < 0x8000_0000_0000_0000
            invariant
                0 < n,
                0 < w,
                n == w * pow2(up as nat),
                up <= 63,
                pow2(63) == 0x8000_0000_0000_0000,
                w >= 0x8000_0000_0000_0000 ==> up == 0,
            decreases 63 - up,
        {
            proof {
                lemma_pow2_unfold((up + 1) as nat);
                lemma_pow2_pos(up as nat);
                let a = pow2(up as nat);
                assert(w * (2 * a) == 2 * (w * a)) by (nonlinear_arith);
                assert(w * a >= a && w * a >= w) by (nonlinear_arith)
                    requires
                        w >= 1,
                        a >= 1,
                ;
            }
            n = 2 * n;
            up += 1;
        }
        assert(n * 1 == n) by (nonlinear_arith);
        return Places { n, up, down: 0, lost: false, rem: Ghost(0) };
    }
    let mut q: u128 = w;
    let mut down: u32 = 0;
    let mut lost: bool = false;
    let ghost mut rem: nat = 0;
    assert(q * 1 == q) by (nonlinear_arith);
    while q >= 0x1_0000_0000_0000_0000
        invariant
            q >= 0x8000_0000_0000_0000,
            w == q * pow2(down as nat) + rem,
            rem < pow2(down as nat),
            lost == (rem > 0),
            down <= 64,
            pow2(64) == 0x1_0000_0000_0000_0000,
        decreases q,
    {
        proof {
            let a = pow2(down as nat);
            lemma_pow2_unfold((down + 1) as nat);
            lemma_pow2_pos(down as nat);
            let b: nat = (q % 2) as nat;
            let h = q / 2;
            assert(q * a == h * (2 * a) + b * a) by (nonlinear_arith)
                requires
                    q == 2 * h + b,
            ;
            assert(b * a + rem < 2 * a && (b * a + rem > 0) == (b == 1 || rem > 0))
                by (nonlinear_arith)
                requires
                    b == 0 || b == 1,
                    rem < a,
                    a > 0,
            ;
            if down >= 64 {
                assert(q * a >= 0x1_0000_0000_0000_0000 * 0x1_0000_0000_0000_0000)
                    by (nonlinear_arith)
                    requires
                        q >= 0x1_0000_0000_0000_0000,
                        a >= 0x1_0000_0000_0000_0000,
                ;
            }
            rem = b * a + rem;
        }
        lost = lost || q % 2 == 1;
        q = q / 2;
        down += 1;
    }
    assert(w * 1 == w) by (nonlinear_arith);
    Places { n: q as u64, up: 0, down, lost, rem: Ghost(rem) }
}

/// `10^e` as a machine integer.
fn small_ten(e: u32) -> (r: u128)
    requires
        e <= 19,
    ensures
        r == ten(e as nat),
        0 < r < 0x1_0000_0000_0000_0000,
{
    let mut r: u64 = 1;
    let mut i: u32 = 0;
    proof {
        reveal_with_fuel(ten, 20);
        assert(ten(19) == 10_000_000_000_000_000_000);
    }
    while i < e
        invariant
            i <= e <= 19,
            r == ten(i as nat),
            r > 0,
            ten(19) == 10_000_000_000_000_000_000,
        decreases e - i,
    {
        proof {
            lemma_ten_grows((i + 1) as nat, 19);
        }
        r = r * 10;
        i += 1;
    }
    proof {
        lemma_ten_grows(e as nat, 19);
    }
    r as u128
}

proof fn lemma_ten_grows(a: nat, b: nat)
    requires
        a <= b,
    ensures
        0 < ten(a) <= ten(b),
    decreases b,
{
    if a < b {
        lemma_ten_grows(a, (b - 1) as nat);
    } else if b > 0 {
        lemma_ten_grows((b - 1) as nat, (b - 1) as nat);
    }
}

/// The pattern nearest to `d * 10^e`, for few digits and a small power.
fn round_small(d: u64, e: i32) -> (low: u64)
    requires
        d > 0,
        -19 <= e <= 19,
    ensures
        low == nearest_decimal(d as nat, e as int),
{
    let ghost one = float64::one();
    proof {
        lemma2_to64();
        lemma_pow2_pos(1074);
    }
    if e >= 0 {
        let f: u128 = small_ten(e as u32);
        assert(0 < d * f && d * f < 0x1_0000_0000_0000_0000 * 0x1_0000_0000_0000_0000)
            by (nonlinear_arith)
            requires
                0 < d < 0x1_0000_0000_0000_0000,
                0 < f < 0x1_0000_0000_0000_0000,
        ;
        let w: u128 = d as u128 * f;
        let h: Places = highest(w);
        let ghost num = d as nat * ten(e as nat) * one;
        let ghost q: nat = (h.down + 1074) as nat;
        let ghost rem = h.rem@ * one;
        proof {
            lemma_pow2_adds(h.down as nat, 1074);
            let up = pow2(h.up as nat);
            let dn = pow2(h.down as nat);
            let r0 = h.rem@;
            let n = h.n;
            assert(num * up == (1 * (dn * one)) * n + rem) by (nonlinear_arith)
                requires
                    num == w * one,
                    w * up == n * dn + r0,
                    rem == r0 * one,
            ;
            assert(rem < 1 * (dn * one) && (rem > 0) == (r0 > 0)) by (nonlinear_arith)
                requires
                    rem == r0 * one,
                    0 <= r0 < dn,
                    one > 0,
            ;
        }
        round_places(
            h.n,
            h.lost,
            h.up as i128 - h.down as i128 - 1074,
            Ghost(num),
            Ghost(1),
            Ghost(h.up as nat),
            Ghost(q),
            Ghost(rem),
        )
    } else {
        let f: u128 = small_ten((-e) as u32);
        let a: Places = highest(d as u128);
        let wide: u128 = a.n as u128 * 0x1_0000_0000_0000_0000;
        let quotient: u128 = wide / f;
        let left: u128 = wide % f;
        proof {
            lemma_fundamental_div_mod(wide as int, f as int);
            assert(quotient >= 0x8000_0000_0000_0000) by (nonlinear_arith)
                requires
                    quotient == wide as int / f as int,
                    wide >= 0x8000_0000_0000_0000 * 0x1_0000_0000_0000_0000,
                    0 < f < 0x1_0000_0000_0000_0000,
            ;
        }
        let h: Places = highest(quotient);
        let ghost num = d as nat * one;
        let ghost den = ten((-e) as nat);
        let ghost p: nat = (a.up + 64) as nat;
        let ghost q: nat = (h.down + 1074) as nat;
        let ghost tail = den * h.rem@ + left as nat;
        let ghost rem = tail * one;
        proof {
            lemma_pow2_adds(a.up as nat, 64);
            lemma_pow2_adds(h.down as nat, 1074);
            let au = pow2(a.up as nat);
            let dn = pow2(h.down as nat);
            let r0 = h.rem@;
            let n = h.n;
            let b = 0x1_0000_0000_0000_0000int;
            assert(a.n * 1 == a.n && quotient * 1 == quotient) by (nonlinear_arith);
            assert(d * au == a.n);
            assert(quotient == n * dn + r0);
            assert(d * (au * b) == den * dn * n + tail) by (nonlinear_arith)
                requires
                    d * au == a.n,
                    wide == a.n * b,
                    wide == den * quotient + left,
                    quotient == n * dn + r0,
                    tail == den * r0 + left,
            ;
            assert(num * (au * b) == (den * (dn * one)) * n + rem) by (nonlinear_arith)
                requires
                    num == d * one,
                    d * (au * b) == den * dn * n + tail,
                    rem == tail * one,
            ;
            assert(tail < den * dn) by (nonlinear_arith)
                requires
                    tail == den * r0 + left,
                    r0 + 1 <= dn,
                    left < den,
                    den > 0,
            ;
            assert(rem < den * (dn * one) && (rem > 0) == (tail > 0)) by (nonlinear_arith)
                requires
                    rem == tail * one,
                    0 <= tail < den * dn,
                    one > 0,
            ;
            assert((tail > 0) == (r0 > 0 || left > 0)) by (nonlinear_arith)
                requires
                    tail == den * r0 + left,
                    den > 0,
                    r0 >= 0,
                    left >= 0,
            ;
        }
        round_places(
            h.n,
            h.lost || left > 0,
            a.up as i128 + 64 - h.down as i128 - 1074,
            Ghost(num),
            Ghost(den),
            Ghost(p),
            Ghost(q),
            Ghost(rem),
        )
    }
}

/// A number times `10^e`.
fn times_ten(a: Natural, e: u128) -> (r: Natural)
    ensures
        r@ == a@ * ten(e as nat),
{
    let ghost base = a@;
    let mut r: Natural = a;
    let mut i: u128 = 0;
    assert(base * 1 == base) by (nonlinear_arith);
    while i < e
        invariant
            i <= e,
            r@ == base * ten(i as nat),
        decreases e - i,
    {
        proof {
            let t = ten(i as nat);
            assert(base * (10 * t) == (base * t) * 10) by (nonlinear_arith);
        }
        r = r.scaled(10, 0);
        i += 1;
    }
    r
}

/// The pattern nearest to a ratio of numbers of any size.
fn round_ratio(num: Natural, den: Natural) -> (low: u64)
    requires
        num@ > 0,
        den@ > 0,
    ensures
        low == nearest_ratio(num@ * float64::one(), den@),
{
    let ghost num0 = num@;
    let ghost den0 = den@;
    let ghost one = float64::one();
    let mut above: Natural = num;
    let mut below: Natural = den;
    let mut down: i128 = 0;
    proof {
        lemma2_to64();
        lemma2_to64_rest();
        lemma_pow2_pos(1074);
        assert(den0 * 1 == den0 && num0 * 1 == num0) by (nonlinear_arith);
    }
    // Make the ratio less than one.
    while above.at_least(&below)
        invariant
            num0 > 0,
            den0 > 0,
            above@ == num0,
            0 <= down <= 32 * usize::MAX,
            below@ == den0 * pow2(down as nat),
        decreases 2 * above@ - below@,
    {
        proof {
            above.lemma_places();
            let a = pow2(down as nat);
            lemma_pow2_pos(down as nat);
            lemma_pow2_unfold((down + 1) as nat);
            assert(den0 * (2 * a) == (den0 * a) * 2 && den0 * a >= a) by (nonlinear_arith)
                requires
                    den0 >= 1,
                    a >= 1,
            ;
            lemma_places_reach(down as nat, above.places());
        }
        below = below.scaled(2, 0);
        down += 1;
    }
    // Make it at least one half.
    let mut up: i128 = 0;
    loop
        invariant
            num0 > 0,
            den0 > 0,
            0 <= down <= 32 * usize::MAX,
            0 <= up <= 32 * usize::MAX,
            above@ == num0 * pow2(up as nat),
            below@ == den0 * pow2(down as nat),
            above@ < below@,
        ensures
            above@ < below@ <= 2 * above@,
        decreases below@ - above@,
    {
        let twice: Natural = above.scaled(2, 0);
        if twice.at_least(&below) {
            break;
        }
        proof {
            below.lemma_places();
            let a = pow2(up as nat);
            lemma_pow2_pos(up as nat);
            lemma_pow2_unfold((up + 1) as nat);
            assert(num0 * (2 * a) == (num0 * a) * 2 && num0 * a >= a) by (nonlinear_arith)
                requires
                    num0 >= 1,
                    a >= 1,
            ;
            lemma_places_reach(up as nat, below.places());
        }
        above = twice;
        up += 1;
    }
    // Divide, place by place.
    let ghost whole = above@;
    let ghost c = below@;
    let mut n: u64 = 0;
    let mut i: u32 = 0;
    assert(whole * 1 == whole && c * 0 == 0) by (nonlinear_arith);
    while i < 64
        invariant
            i <= 64,
            below@ == c,
            whole < c,
            above@ < c,
            whole * pow2(i as nat) == c * n + above@,
            n < pow2(i as nat),
            pow2(64) == 0x1_0000_0000_0000_0000,
        decreases 64 - i,
    {
        let ghost left = above@;
        let ghost a = pow2(i as nat);
        proof {
            lemma_pow2_unfold((i + 1) as nat);
            if i + 1 < 64 {
                lemma_pow2_strictly_increases((i + 1) as nat, 64);
            }
        }
        above = above.scaled(2, 0);
        let bit: u64 = if above.at_least(&below) {
            above = above.minus(&below);
            1
        } else {
            0
        };
        proof {
            let n2 = 2 * n + bit;
            let now = above@;
            assert(whole * (2 * a) == c * n2 + now) by (nonlinear_arith)
                requires
                    whole * a == c * n + left,
                    2 * left == c * bit + now,
                    n2 == 2 * n + bit,
            ;
        }
        n = 2 * n + bit;
        i += 1;
    }
    let sticky: bool = !above.is_zero();
    let ghost rem0 = above@;
    let ghost rem = rem0 * one;
    let ghost p: nat = (up + 64) as nat;
    let ghost q: nat = (down + 1074) as nat;
    proof {
        assert(n >= 0x8000_0000_0000_0000) by (nonlinear_arith)
            requires
                whole * 0x1_0000_0000_0000_0000 == c * n + rem0,
                rem0 < c,
                c <= 2 * whole,
                c > 0,
        ;
        lemma_pow2_adds(up as nat, 64);
        lemma_pow2_adds(down as nat, 1074);
        let a = pow2(up as nat);
        let d = pow2(down as nat);
        let b = 0x1_0000_0000_0000_0000int;
        let scaled = num0 * one;
        assert(scaled * (a * b) == (den0 * (d * one)) * n + rem) by {
            assert((num0 * one) * (a * b) == ((num0 * a) * b) * one) by (nonlinear_arith);
            assert((c * n + rem0) * one == (c * n) * one + rem0 * one) by (nonlinear_arith);
            assert(((den0 * d) * n) * one == (den0 * (d * one)) * n) by (nonlinear_arith);
            assert(whole * b == c * n + rem0);
        }
        assert(rem < den0 * (d * one) && (rem > 0) == (rem0 > 0)) by (nonlinear_arith)
            requires
                rem == rem0 * one,
                0 <= rem0 < c,
                c == den0 * d,
                one > 0,
        ;
    }
    round_places(
        n,
        sticky,
        up + 64 - down - 1074,
        Ghost(num0 * one),
        Ghost(den0),
        Ghost(p),
        Ghost(q),
        Ghost(rem),
    )
}

/// A power of two that fits into some places is not beyond them.
proof fn lemma_places_reach(k: nat, places: nat)
    requires
        pow2(k) < pow2(places),
    ensures
        k < places,
{
    if k >= places {
        if k > places {
            lemma_pow2_strictly_increases(places, k);
        }
    }
}

/// `10^n` is at least `2^(3 n)`.
proof fn lemma_ten_and_two(n: nat)
    ensures
        ten(n) >= pow2(3 * n),
        ten(n) > 0,
    decreases n,
{
    lemma2_to64();
    if n > 0 {
        lemma_ten_and_two((n - 1) as nat);
        lemma_pow2_adds(3, (3 * (n - 1)) as nat);
        let t = ten((n - 1) as nat);
        let p = pow2((3 * (n - 1)) as nat);
        assert(10 * t >= 8 * p) by (nonlinear_arith)
            requires
                t >= p,
        ;
    }
}

proof fn lemma_ten_adds(a: nat, b: nat)
    ensures
        ten(a + b) == ten(a) * ten(b),
    decreases a,
{
    let tb = ten(b);
    if a == 0 {
        assert(1 * tb == tb) by (nonlinear_arith);
    } else {
        lemma_ten_adds((a - 1) as nat, b);
        let ta = ten((a - 1) as nat);
        assert(10 * (ta * tb) == (10 * ta) * tb) by (nonlinear_arith);
    }
}

/// No digits but zeros make zero, whatever the power.
proof fn lemma_zero_decimal(e: int)
    ensures
        nearest_decimal(0, e) == 0,
{
    lemma2_to64();
    let one = float64::one();
    if e >= 0 {
        let t = ten(e as nat);
        assert(0 * t * one == 0) by (nonlinear_arith);
    } else {
        let t = ten((-e) as nat);
        lemma_ten_and_two((-e) as nat);
        assert(0 * one == 0) by (nonlinear_arith);
        lemma_div_basics(t as int);
        lemma_small_mod(0, t);
        assert(t * 1 == t) by (nonlinear_arith);
    }
}

/// A number that is far too large rounds to infinity.
proof fn lemma_huge_decimal(d: nat, e: int)
    requires
        d > 0,
        e > 400,
    ensures
        nearest_decimal(d, e) == INFINITE,
{
    let one = float64::one();
    let t = ten(e as nat);
    let num = d * t * one;
    lemma_ten_and_two(e as nat);
    lemma_pow2_pos(1074);
    lemma_pow2_adds(3 * e as nat, 1074);
    assert(num >= t * one) by (nonlinear_arith)
        requires
            num == d * t * one,
            d >= 1,
            t >= 0,
            one >= 0,
    ;
    let r = (3 * e + 1074) as nat;
    assert(num >= pow2(r)) by (nonlinear_arith)
        requires
            num >= t * one,
            t >= pow2((3 * e) as nat),
            one > 0,
            pow2(r) == pow2((3 * e) as nat) * one,
    ;
    let k = float64::excess(num);
    float64::lemma_excess_fits(num);
    lemma2_to64();
    lemma2_to64_rest();
    assert(k >= 2046) by {
        if k < 2046 {
            lemma_pow2_adds(53, k);
            assert(2 * STEP * pow2(k) == pow2(53 + k));
            if 53 + k < r {
                lemma_pow2_strictly_increases(53 + k, r);
            }
        }
    }
    assert(num / 1 == num);
    let unit = 1 * pow2(k);
    let q = num / unit;
    lemma_pow2_pos(k);
    lemma_fundamental_div_mod(num as int, unit as int);
    assert(q >= STEP) by (nonlinear_arith)
        requires
            num == unit * q + num % unit,
            num % unit < unit,
            STEP * unit <= num,
            unit > 0,
    ;
    assert(k * STEP + q >= INFINITE) by (nonlinear_arith)
        requires
            k >= 2046,
            q >= STEP,
            STEP == 0x10_0000_0000_0000,
            INFINITE == 0x7ff0_0000_0000_0000,
    ;
}

/// A number that is far too small rounds to zero.
proof fn lemma_tiny_decimal(d: nat, l: nat, e: int)
    requires
        d < ten(l),
        e + l < -400,
    ensures
        nearest_decimal(d, e) == 0,
{
    let one = float64::one();
    let den = ten((-e) as nat);
    let s = (-e - l) as nat;
    lemma_ten_adds(l, s);
    lemma_ten_and_two(s);
    lemma2_to64();
    lemma_pow2_pos(1074);
    lemma_pow2_unfold(1075);
    lemma_pow2_strictly_increases(1075, 3 * s);
    let num = d * one;
    let ts = ten(s);
    let tl = ten(l);
    assert(2 * num < den) by (nonlinear_arith)
        requires
            num == d * one,
            den == tl * ts,
            0 <= d < tl,
            ts > 2 * one,
            one > 0,
    ;
    lemma_basic_div(num as int, den as int);
    lemma_small_mod(num, den);
    assert(den * 1 == den) by (nonlinear_arith);
}

/// Beyond this, a power of ten is not told from a larger one.
const MOST_POWER: i128 = 1_000_000_000_000_000_000_000_000_000_000;

/// A power that is beyond reach either way.
const FAR_POWER: i128 = 10_000_000_000_000_000_000_000_000;

/// Whether `power` is `exact`, or both are beyond reach on the same side.
spec fn stands_for(power: i128, exact: int) -> bool {
    ||| power == exact
    ||| power > FAR_POWER && exact > FAR_POWER
    ||| power < -FAR_POWER && exact < -FAR_POWER
}

/// The number that a digit stands for.
fn digit_value(c: char) -> (d: u32)
    requires
        text::is_digit(c),
    ensures
        d == c as int - '0' as int,
        d < 10,
{
    (c as u8 - 48) as u32
}

/// The number that digits make, if 64 bits hold it.
fn small_value(digits: &Vec<char>) -> (r: Option<u64>)
    requires
        text::all_digits(digits@),
    ensures
        match r {
            Some(v) => v == text::natural(digits@),
            None => text::natural(digits@) > u64::MAX,
        },
{
    let mut v: u64 = 0;
    let mut i: usize = 0;
    assert(digits@.take(0) =~= Seq::empty());
    while i < digits.len()
        invariant
            text::all_digits(digits@),
            i <= digits@.len(),
            v == text::natural(digits@.take(i as int)),
        decreases digits@.len() - i,
    {
        assert(text::is_digit(digits@[i as int]));
        assert(digits@.take(i + 1).drop_last() =~= digits@.take(i as int));
        let d: u64 = digit_value(digits[i]) as u64;
        if v > (u64::MAX - d) / 10 {
            proof {
                lemma_natural_grows(digits@, i + 1);
            }
            return None;
        }
        v = 10 * v + d;
        i += 1;
    }
    assert(digits@.take(i as int) =~= digits@);
    Some(v)
}

/// More digits make no smaller number.
proof fn lemma_natural_grows(s: Seq<char>, k: int)
    requires
        0 <= k <= s.len(),
    ensures
        text::natural(s.take(k)) <= text::natural(s),
    decreases s.len(),
{
    if k < s.len() {
        lemma_natural_grows(s.drop_last(), k);
        assert(s.drop_last().take(k) =~= s.take(k));
    } else {
        assert(s.take(k) =~= s);
    }
}

/// The number that digits make.
fn big_value(digits: &Vec<char>) -> (r: Natural)
    requires
        text::all_digits(digits@),
    ensures
        r@ == text::natural(digits@),
{
    let mut r: Natural = Natural::zero();
    let mut i: usize = 0;
    assert(digits@.take(0) =~= Seq::empty());
    while i < digits.len()
        invariant
            text::all_digits(digits@),
            i <= digits@.len(),
            r@ == text::natural(digits@.take(i as int)),
        decreases digits@.len() - i,
    {
        assert(text::is_digit(digits@[i as int]));
        assert(digits@.take(i + 1).drop_last() =~= digits@.take(i as int));
        r = r.scaled(10, digit_value(digits[i]));
        i += 1;
    }
    assert(digits@.take(i as int) =~= digits@);
    r
}

/// Digits make less than one digit beyond them counts.
proof fn lemma_natural_bound(s: Seq<char>)
    requires
        text::all_digits(s),
    ensures
        text::natural(s) < ten(s.len()),
    decreases s.len(),
{
    if s.len() > 0 {
        let t = s.drop_last();
        assert forall|i: int| 0 <= i < t.len() implies text::is_digit(#[trigger] t[i]) by {
            assert(t[i] == s[i]);
        }
        lemma_natural_bound(t);
        assert(text::is_digit(s[s.len() - 1]));
    }
}

/// The pattern nearest to the number that digits make, times a power of ten.
fn round_decimal(digits: &Vec<char>, power: i128, exact: Ghost<int>) -> (low: u64)
    requires
        text::all_digits(digits@),
        stands_for(power, exact@),
        -0x1_0000_0000_0000_0000_0000_0000_0000 < power < 0x1_0000_0000_0000_0000_0000_0000_0000,
    ensures
        low == nearest_decimal(text::natural(digits@), exact@),
{
    let ghost d = text::natural(digits@);
    proof {
        lemma_natural_bound(digits@);
    }
    if let Some(v) = small_value(digits) {
        if v == 0 {
            proof {
                lemma_zero_decimal(exact@);
            }
            return 0;
        }
        if -19 <= power && power <= 19 {
            return round_small(v, power as i32);
        }
    }
    let big: Natural = big_value(digits);
    if power > 400 {
        proof {
            lemma_huge_decimal(d, exact@);
        }
        return INFINITE;
    }
    if power + (digits.len() as i128) < -400 {
        proof {
            lemma_tiny_decimal(d, digits@.len(), exact@);
        }
        return 0;
    }
    if power >= 0 {
        let num: Natural = times_ten(big, power as u128);
        let den: Natural = Natural::zero().scaled(0, 1);
        proof {
            lemma_ten_and_two(power as nat);
            let t = ten(power as nat);
            assert(d * t > 0) by (nonlinear_arith)
                requires
                    d > 0,
                    t > 0,
            ;
        }
        round_ratio(num, den)
    } else {
        let unit: Natural = Natural::zero().scaled(0, 1);
        let den: Natural = times_ten(unit, (-power) as u128);
        proof {
            lemma_ten_and_two((-power) as nat);
            let t = ten((-power) as nat);
            assert(1 * t == t) by (nonlinear_arith);
        }
        round_ratio(big, den)
    }
}

/// A run of digits ends where the first other character stands.
proof fn lemma_digit_run(s: Seq<char>, k: int)
    requires
        0 <= k <= s.len(),
        forall|i: int| 0 <= i < k ==> text::is_digit(#[trigger] s[i]),
        k == s.len() || !text::is_digit(s[k]),
    ensures
        digit_run(s) == k,
    decreases s.len(),
{
    if k > 0 {
        lemma_digit_run(s.drop_first(), k - 1);
    }
}

/// Where the digits that start at a position end.
fn scan_digits(chars: &Vec<char>, from: usize) -> (to: usize)
    requires
        from <= chars@.len(),
    ensures
        from <= to <= chars@.len(),
        to - from == digit_run(chars@.skip(from as int)),
        forall|i: int| from <= i < to ==> text::is_digit(#[trigger] chars@[i]),
        to == chars@.len() || !text::is_digit(chars@[to as int]),
{
    let mut to: usize = from;
    while to < chars.len() && '0' <= chars[to] && chars[to] <= '9'
        invariant
            from <= to <= chars@.len(),
            forall|i: int| from <= i < to ==> text::is_digit(#[trigger] chars@[i]),
        decreases chars@.len() - to,
    {
        to += 1;
    }
    proof {
        lemma_digit_run(chars@.skip(from as int), to - from);
    }
    to
}

/// A power within reach, or the outermost on its side.
spec fn within_reach(e: int) -> int {
    if e > MOST_POWER {
        MOST_POWER as int
    } else if e < -MOST_POWER {
        -MOST_POWER
    } else {
        e
    }
}

/// The power of ten at the end of a numeral.
fn read_exponent(chars: &Vec<char>, from: usize) -> (r: Option<i128>)
    requires
        from <= chars@.len(),
    ensures
        match exponent_of(chars@.skip(from as int)) {
            None => r is None,
            Some(e) => r == Some(within_reach(e) as i128),
        },
{
    let ghost s = chars@.skip(from as int);
    if from == chars.len() {
        return Some(0);
    }
    if chars[from] != 'e' && chars[from] != 'E' {
        return None;
    }
    let ghost rest = s.drop_first();
    assert(rest =~= chars@.skip(from + 1));
    let mut at: usize = from + 1;
    let mut negative: bool = false;
    if at < chars.len() && (chars[at] == '-' || chars[at] == '+') {
        negative = chars[at] == '-';
        at += 1;
    }
    let ghost digits = text::signed(rest).1;
    assert(digits =~= chars@.skip(at as int));
    let end: usize = scan_digits(chars, at);
    if at == chars.len() || end != chars.len() {
        proof {
            if end != chars.len() {
                assert(!text::is_digit(digits[end - at]));
            }
        }
        return None;
    }
    assert forall|i: int| 0 <= i < digits.len() implies text::is_digit(#[trigger] digits[i]) by {
        assert(digits[i] == chars@[at + i]);
    }
    let mut v: i128 = 0;
    let mut i: usize = at;
    assert(digits.take(0) =~= Seq::empty());
    while i < chars.len()
        invariant
            at <= i <= chars@.len(),
            digits == chars@.skip(at as int),
            text::all_digits(digits),
            0 <= v <= MOST_POWER,
            v == within_reach(text::natural(digits.take(i - at)) as int),
        decreases chars@.len() - i,
    {
        assert(digits.take(i + 1 - at).drop_last() =~= digits.take(i - at));
        assert(digits.take(i + 1 - at).last() == chars@[i as int]);
        assert(text::is_digit(digits[i - at]));
        let next: i128 = 10 * v + digit_value(chars[i]) as i128;
        v = if next > MOST_POWER {
            MOST_POWER
        } else {
            next
        };
        i += 1;
    }
    assert(digits.take(i - at) =~= digits);
    if negative {
        Some(-v)
    } else {
        Some(v)
    }
}

/// A numeral that was read.
struct Numeral {
    digits: Vec<char>,
    power: i128,
    exact: Ghost<int>,
}

/// Appends some characters.
fn copy_chars(out: &mut Vec<char>, chars: &Vec<char>, from: usize, to: usize)
    requires
        from <= to <= chars@.len(),
    ensures
        final(out)@ == old(out)@ + chars@.subrange(from as int, to as int),
{
    let ghost before = out@;
    let mut i: usize = from;
    assert(out@ =~= before + chars@.subrange(from as int, from as int));
    while i < to
        invariant
            from <= i <= to <= chars@.len(),
            out@ == before + chars@.subrange(from as int, i as int),
        decreases to - i,
    {
        out.push(chars[i]);
        i += 1;
        assert(out@ =~= before + chars@.subrange(from as int, i as int));
    }
}

/// Digits between two positions are digits.
proof fn lemma_digits_between(s: Seq<char>, a: int, b: int)
    requires
        0 <= a <= b <= s.len(),
        forall|i: int| a <= i < b ==> text::is_digit(#[trigger] s[i]),
    ensures
        text::all_digits(s.subrange(a, b)),
{
    let t = s.subrange(a, b);
    assert forall|i: int| 0 <= i < t.len() implies text::is_digit(#[trigger] t[i]) by {
        assert(t[i] == s[a + i]);
    }
}

/// Digits after digits are digits.
proof fn lemma_digits_joined(a: Seq<char>, b: Seq<char>)
    requires
        text::all_digits(a),
        text::all_digits(b),
    ensures
        text::all_digits(a + b),
{
    let t = a + b;
    assert forall|i: int| 0 <= i < t.len() implies text::is_digit(#[trigger] t[i]) by {
        if i < a.len() {
            assert(t[i] == a[i]);
        } else {
            assert(t[i] == b[i - a.len()]);
        }
    }
}

/// Reads a numeral.
#[verifier::spinoff_prover]
#[verifier::rlimit(30)]
fn read_numeral(chars: &Vec<char>, from: usize) -> (r: Option<Numeral>)
    requires
        from <= chars@.len(),
    ensures
        match numeral_of(chars@.skip(from as int)) {
            None => r is None,
            Some((d, e)) => r matches Some(x) && {
                &&& text::all_digits(x.digits@)
                &&& text::natural(x.digits@) == d
                &&& x.exact@ == e
                &&& stands_for(x.power, e)
                &&& -0x1_0000_0000_0000_0000_0000_0000_0000 < x.power
                    < 0x1_0000_0000_0000_0000_0000_0000_0000
            },
        },
{
    let ghost s = chars@.skip(from as int);
    let point: usize = scan_digits(chars, from);
    let ghost i = digit_run(s) as int;
    let ghost rest = s.skip(i);
    assert(rest =~= chars@.skip(point as int));
    let mut digits: Vec<char> = Vec::new();
    copy_chars(&mut digits, chars, from, point);
    proof {
        assert(s.take(i) =~= chars@.subrange(from as int, point as int));
        assert(digits@ =~= s.take(i));
        lemma_digits_between(chars@, from as int, point as int);
    }
    if point < chars.len() && chars[point] == '.' {
        let end: usize = scan_digits(chars, point + 1);
        let ghost after = rest.drop_first();
        assert(after =~= chars@.skip(point + 1));
        let ghost j = digit_run(after) as int;
        assert(after.skip(j) =~= chars@.skip(end as int));
        copy_chars(&mut digits, chars, point + 1, end);
        proof {
            assert(after.take(j) =~= chars@.subrange(point + 1, end as int));
            lemma_digits_between(chars@, point + 1, end as int);
            lemma_digits_joined(s.take(i), after.take(j));
        }
        match read_exponent(chars, end) {
            None => None,
            Some(e) => if digits.len() == 0 {
                None
            } else {
                let ghost exact = exponent_of(after.skip(j))->0 - j;
                Some(
                    Numeral { digits, power: e - (end - point - 1) as i128, exact: Ghost(exact) },
                )
            },
        }
    } else if point > from {
        match read_exponent(chars, point) {
            None => None,
            Some(e) => {
                let ghost exact = exponent_of(rest)->0;
                Some(Numeral { digits, power: e, exact: Ghost(exact) })
            },
        }
    } else {
        None
    }
}

/// What starts with a digit or a point is no word.
proof fn lemma_no_word(body: Seq<char>)
    requires
        body.len() == 0 || body[0] == '.' || text::is_digit(body[0]),
    ensures
        word_pattern(body) is None,
{
    reveal_strlit("inf");
    reveal_strlit("infinity");
    reveal_strlit("nan");
    let w = text::lowered(body);
    assert(w.len() == body.len());
    if body.len() > 0 {
        assert(w[0] == text::lower(body[0]));
    }
    assert("inf"@[0] == 'i' && "infinity"@[0] == 'i' && "nan"@[0] == 'n');
}

/// The pattern that a word stands for.
fn read_word(chars: &Vec<char>, from: usize) -> (r: Option<u64>)
    requires
        from <= chars@.len(),
    ensures
        match word_pattern(chars@.skip(from as int)) {
            Some(l) => r == Some(l as u64),
            None => r is None,
        },
{
    let ghost body = chars@.skip(from as int);
    if from == chars.len() || chars[from] == '.' || ('0' <= chars[from] && chars[from] <= '9') {
        proof {
            lemma_no_word(body);
        }
        return None;
    }
    let mut letters: Vec<char> = Vec::new();
    copy_chars(&mut letters, chars, from, chars.len());
    assert(letters@ =~= body);
    let word: String = text::to_lower(text::text_of(letters.as_slice()).as_str());
    if text::same_text(word.as_str(), "inf") || text::same_text(word.as_str(), "infinity") {
        Some(INFINITE)
    } else if text::same_text(word.as_str(), "nan") {
        Some(NOT_A_NUMBER)
    } else {
        None
    }
}

/// Reads a number: an optional sign, then a decimal numeral, `inf`, `infinity` or
/// `nan`, letters in either case. The result is the nearest number there is.
pub fn read_number(s: &str) -> (r: Option<Float64>)
    ensures
        r == number_of(s@),
{
    let chars: Vec<char> = text::chars_of(s);
    let mut from: usize = 0;
    let mut negative: bool = false;
    if chars.len() > 0 && (chars[0] == '-' || chars[0] == '+') {
        negative = chars[0] == '-';
        from = 1;
    }
    assert(text::signed(s@).1 =~= chars@.skip(from as int));
    let low: u64 = match read_word(&chars, from) {
        Some(l) => l,
        None => match read_numeral(&chars, from) {
            None => return None,
            Some(x) => round_decimal(&x.digits, x.power, x.exact),
        },
    };
    if negative {
        Some(Float64 { bits: SIGN + low })
    } else {
        Some(Float64 { bits: low })
    }
}

/// No representable magnitude is nearer to a ratio than the one that
/// `nearest_ratio` picks, wherever that one is finite.
pub proof fn law_nearest_ratio_is_nearest(num: nat, den: nat, low: nat)
    requires
        den > 0,
        nearest_ratio(num, den) < INFINITE,
    ensures
        ({
            let picked = float64::magnitude_of(nearest_ratio(num, den));
            let other = float64::magnitude_of(low);
            &&& picked * den <= num ==> other <= picked || other * den - num >= num - picked * den
            &&& picked * den >= num ==> other >= picked || num - other * den >= picked * den - num
        }),
{
    let x = num / den;
    let k = float64::excess(x);
    let p = pow2(k);
    let unit = den * p;
    lemma_pow2_pos(k);
    float64::lemma_excess_fits(x);
    assert(unit > 0) by (nonlinear_arith)
        requires
            unit == den * p,
            den > 0,
            p > 0,
    ;
    let q = num / unit;
    let r = num % unit;
    lemma_fundamental_div_mod(num as int, unit as int);
    lemma_div_denominator(num as int, den as int, p as int);
    assert(x / p == q);
    lemma_fundamental_div_mod(x as int, p as int);
    assert(q < 2 * STEP && (k == 0 || STEP <= q)) by {
        let s = x % p;
        assert(q < 2 * STEP) by (nonlinear_arith)
            requires
                x < 2 * STEP * p,
                x == p * q + s,
                s >= 0,
                p > 0,
        ;
        if k > 0 {
            assert(STEP <= q) by (nonlinear_arith)
                requires
                    STEP * p <= x,
                    x == p * q + s,
                    s < p,
                    p > 0,
            ;
        }
    }
    let at = k * STEP as nat + q;
    float64::lemma_magnitude_at(k, q);
    float64::lemma_magnitude_at(k, q + 1);
    float64::lemma_magnitude_order(low, at);
    float64::lemma_magnitude_order(low, at + 1);
    let other = float64::magnitude_of(low);
    assert((q * p) * den == unit * q && ((q + 1) * p) * den == unit * q + unit) by (nonlinear_arith)
        requires
            unit == den * p,
    ;
    assert(other <= q * p ==> other * den <= (q * p) * den) by (nonlinear_arith)
        requires
            den > 0,
    ;
    assert(other >= (q + 1) * p ==> other * den >= ((q + 1) * p) * den) by (nonlinear_arith)
        requires
            den > 0,
    ;
}

/// A text that writes down an integer is read as the number nearest to it: the
/// same as the integer itself would be turned into. The text `-0` is excluded: it
/// reads as the negative zero, which no integer turns into.
pub proof fn law_integers_are_read_as_numbers(s: Seq<char>, v: i64)
    requires
        text::integer_of(s) == Some(v as int),
        v != 0 || !text::signed(s).0,
    ensures
        number_of(s) == Some(float64::of_int(v)),
{
    let (neg, digits) = text::signed(s);
    let n = digits.len() as int;
    assert(text::is_digit(digits[0]));
    lemma_no_word(digits);
    lemma_digit_run(digits, n);
    assert(digits.take(n) =~= digits);
    assert(digits.skip(n).len() == 0);
    let d = text::natural(digits);
    let one = float64::one();
    assert(numeral_of(digits) == Some((d, 0int)));
    assert(d * 1 * one == d * one) by (nonlinear_arith);
    let num = d * one;
    assert(nearest_decimal(d, 0) == nearest_ratio(num, 1));
    assert(num / 1 == num);
    let k = float64::excess(num);
    assert(1 * pow2(k) == pow2(k)) by (nonlinear_arith);
    assert(nearest_ratio(num, 1) == float64::nearest(num));
    let x = v * one;
    assert(neg ==> x == -num) by (nonlinear_arith)
        requires
            neg ==> v == -d,
            x == v * one,
            num == d * one,
    ;
    assert(!neg ==> x == num);
    lemma_pow2_pos(1074);
    if neg {
        assert(x < 0) by (nonlinear_arith)
            requires
                v < 0,
                one > 0,
                x == v * one,
        ;
    }
}

/// What is nearest to `d * 10^e`: no other finite magnitude is nearer, wherever the
/// one that is picked is finite.
pub proof fn law_nearest_decimal_is_nearest(d: nat, e: int, low: nat)
    requires
        nearest_decimal(d, e) < INFINITE,
    ensures
        ({
            let picked = float64::magnitude_of(nearest_decimal(d, e)) as int;
            let other = float64::magnitude_of(low) as int;
            let one = float64::one() as int;
            &&& e >= 0 ==> float64::apart(picked, d * ten(e as nat) * one) <= float64::apart(
                other,
                d * ten(e as nat) * one,
            )
            &&& e < 0 ==> float64::apart(picked * ten((-e) as nat), d * one) <= float64::apart(
                other * ten((-e) as nat),
                d * one,
            )
        }),
{
    let one = float64::one();
    let picked = float64::magnitude_of(nearest_decimal(d, e)) as int;
    let other = float64::magnitude_of(low) as int;
    if e >= 0 {
        let num = d * ten(e as nat) * one;
        law_nearest_ratio_is_nearest(num, 1, low);
    } else {
        let den = ten((-e) as nat) as int;
        lemma_ten_and_two((-e) as nat);
        law_nearest_ratio_is_nearest(d * one, den as nat, low);
        assert((other <= picked ==> other * den <= picked * den) && (other >= picked ==> other * den
            >= picked * den)) by (nonlinear_arith)
            requires
                den > 0,
        ;
    }
}

/// A numeral with digits before and behind its point, either of which may be missing,
/// an optional sign in front and an optional power of ten at the end, is read as the
/// number nearest to what it writes down.
pub proof fn law_numerals_are_read(
    sign: Seq<char>,
    whole: Seq<char>,
    fraction: Seq<char>,
    tail: Seq<char>,
    power: int,
)
    requires
        sign == Seq::<char>::empty() || sign == seq!['+'] || sign == seq!['-'],
        text::all_digits(whole),
        text::all_digits(fraction),
        whole.len() + fraction.len() > 0,
        (tail.len() == 0 && power == 0) || (tail.len() > 0 && (tail[0] == 'e' || tail[0] == 'E')
            && text::integer_of(tail.drop_first()) == Some(power)),
    ensures
        number_of(sign + whole + seq!['.'] + fraction + tail) matches Some(f) && {
            &&& f.low() == nearest_decimal(
                text::natural(whole + fraction),
                power - fraction.len(),
            )
            &&& f.negative() <==> sign == seq!['-']
        },
        whole.len() > 0 ==> (number_of(sign + whole + tail) matches Some(f) && {
            &&& f.low() == nearest_decimal(text::natural(whole), power)
            &&& f.negative() <==> sign == seq!['-']
        }),
{
    let body = whole + seq!['.'] + fraction + tail;
    assert(sign + whole + seq!['.'] + fraction + tail =~= sign + body);
    lemma_numeral_with_point(whole, fraction, tail, power);
    lemma_no_word(body);
    lemma_sign_off(sign, body);
    lemma_decimal_bound(text::natural(whole + fraction), power - fraction.len());
    if whole.len() > 0 {
        let plain = whole + tail;
        assert(sign + whole + tail =~= sign + plain);
        lemma_numeral_without_point(whole, tail, power);
        lemma_no_word(plain);
        lemma_sign_off(sign, plain);
        lemma_decimal_bound(text::natural(whole), power);
    }
}

/// Whether the end of a numeral gives a power of ten.
spec fn gives_power(tail: Seq<char>, power: int) -> bool {
    (tail.len() == 0 && power == 0) || (tail.len() > 0 && (tail[0] == 'e' || tail[0] == 'E')
        && text::integer_of(tail.drop_first()) == Some(power))
}

proof fn lemma_numeral_with_point(
    whole: Seq<char>,
    fraction: Seq<char>,
    tail: Seq<char>,
    power: int,
)
    requires
        text::all_digits(whole),
        text::all_digits(fraction),
        whole.len() + fraction.len() > 0,
        gives_power(tail, power),
    ensures
        ({
            let body = whole + seq!['.'] + fraction + tail;
            &&& numeral_of(body) == Some((text::natural(whole + fraction), power - fraction.len()))
            &&& body[0] == '.' || text::is_digit(body[0])
        }),
{
    let body = whole + seq!['.'] + fraction + tail;
    let i = whole.len() as int;
    let j = fraction.len() as int;
    assert forall|k: int| 0 <= k < i implies text::is_digit(#[trigger] body[k]) by {
        assert(body[k] == whole[k]);
        assert(text::is_digit(whole[k]));
    }
    assert(body[i] == '.');
    lemma_digit_run(body, i);
    let after = fraction + tail;
    assert(body.skip(i).drop_first() =~= after);
    assert forall|k: int| 0 <= k < j implies text::is_digit(#[trigger] after[k]) by {
        assert(after[k] == fraction[k]);
        assert(text::is_digit(fraction[k]));
    }
    if tail.len() > 0 {
        assert(after[j] == tail[0]);
    }
    lemma_digit_run(after, j);
    assert(after.skip(j) =~= tail);
    assert(after.take(j) =~= fraction);
    assert(body.take(i) =~= whole);
    assert(exponent_of(tail) == Some(power));
}

proof fn lemma_numeral_without_point(whole: Seq<char>, tail: Seq<char>, power: int)
    requires
        text::all_digits(whole),
        whole.len() > 0,
        gives_power(tail, power),
    ensures
        numeral_of(whole + tail) == Some((text::natural(whole), power)),
        text::is_digit((whole + tail)[0]),
{
    let plain = whole + tail;
    let i = whole.len() as int;
    assert forall|k: int| 0 <= k < i implies text::is_digit(#[trigger] plain[k]) by {
        assert(plain[k] == whole[k]);
        assert(text::is_digit(whole[k]));
    }
    if tail.len() > 0 {
        assert(plain[i] == tail[0]);
    }
    lemma_digit_run(plain, i);
    assert(plain.skip(i) =~= tail);
    assert(plain.take(i) =~= whole);
    assert(exponent_of(tail) == Some(power));
}

/// A sign in front of a numeral is taken off.
proof fn lemma_sign_off(sign: Seq<char>, body: Seq<char>)
    requires
        sign == Seq::<char>::empty() || sign == seq!['+'] || sign == seq!['-'],
        body.len() > 0,
        text::is_digit(body[0]) || body[0] == '.',
    ensures
        text::signed(sign + body) == (sign == seq!['-'], body),
{
    let s = sign + body;
    if sign.len() == 0 {
        assert(s =~= body);
        assert(s[0] == body[0]);
        assert(sign != seq!['-']);
    } else {
        assert(s[0] == sign[0]);
        assert(s.drop_first() =~= body);
        assert(seq!['+'][0] != seq!['-'][0]);
    }
}

proof fn lemma_decimal_bound(d: nat, e: int)
    ensures
        nearest_decimal(d, e) <= INFINITE,
{
}

} // verus!
