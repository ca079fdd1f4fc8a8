//! Natural numbers of any size.
use vstd::arithmetic::power2::*;
use vstd::prelude::*;

verus! {

/// A natural number of any size, in limbs of 32 bits, the lowest first. High
/// limbs may be zero.
pub struct Natural {
    limbs: Vec<u32>,
}

/// What a limb at a position counts.
spec fn weight(i: nat) -> nat {
    pow2(32 * i)
}

spec fn limb(s: Seq<u32>, i: int) -> nat {
    if 0 <= i < s.len() {
        s[i] as nat
    } else {
        0
    }
}

/// The number that the lowest `n` limbs make.
spec fn low_limbs(s: Seq<u32>, n: nat) -> nat
    decreases n,
{
    if n == 0 {
        0
    } else {
        low_limbs(s, (n - 1) as nat) + limb(s, n - 1) * weight((n - 1) as nat)
    }
}

proof fn lemma_weight(i: nat)
    ensures
        weight(0) == 1,
        weight(i) > 0,
        weight(i + 1) == 0x1_0000_0000 * weight(i),
{
    lemma2_to64();
    lemma_pow2_pos(32 * i);
    lemma_pow2_adds(32, 32 * i);
    assert(32 * (i + 1) == 32 + 32 * i);
}

/// The lowest limbs make less than one limb beyond them counts.
proof fn lemma_low_bound(s: Seq<u32>, n: nat)
    ensures
        low_limbs(s, n) < weight(n),
    decreases n,
{
    if n == 0 {
        lemma_weight(0);
    } else {
        let m = (n - 1) as nat;
        lemma_low_bound(s, m);
        lemma_weight(m);
        let l = limb(s, n - 1);
        let w = weight(m);
        assert(l * w + w <= 0x1_0000_0000 * w) by (nonlinear_arith)
            requires
                l + 1 <= 0x1_0000_0000,
        ;
    }
}

/// Beyond its length a number has no limbs.
proof fn lemma_low_all(s: Seq<u32>, n: nat)
    requires
        s.len() <= n,
    ensures
        low_limbs(s, n) == low_limbs(s, s.len()),
    decreases n,
{
    if n > s.len() {
        lemma_low_all(s, (n - 1) as nat);
        let w = weight((n - 1) as nat);
        assert(0 * w == 0) by (nonlinear_arith);
    }
}

/// The lowest limbs do not depend on those above.
proof fn lemma_low_push(s: Seq<u32>, x: u32, n: nat)
    requires
        n <= s.len(),
    ensures
        low_limbs(s.push(x), n) == low_limbs(s, n),
    decreases n,
{
    if n > 0 {
        lemma_low_push(s, x, (n - 1) as nat);
    }
}

impl Natural {
    pub closed spec fn view(&self) -> nat {
        low_limbs(self.limbs@, self.limbs@.len())
    }

    /// How many binary places the number may have.
    pub closed spec fn places(&self) -> nat {
        32 * self.limbs@.len()
    }

    /// The number fits into its places.
    pub proof fn lemma_places(&self)
        ensures
            self@ < pow2(self.places()),
            self.places() <= 32 * usize::MAX,
    {
        lemma_low_bound(self.limbs@, self.limbs@.len());
        assert(self.limbs@.len() <= usize::MAX) by {
            assert(self.limbs.len() == self.limbs@.len());
        }
    }

    pub fn zero() -> (r: Natural)
        ensures
            r@ == 0,
    {
        Natural { limbs: Vec::new() }
    }

    pub fn is_zero(&self) -> (r: bool)
        ensures
            r == (self@ == 0),
    {
        let mut i: usize = 0;
        while i < self.limbs.len()
            invariant
                i <= self.limbs@.len(),
                low_limbs(self.limbs@, i as nat) == 0,
            decreases self.limbs@.len() - i,
        {
            if self.limbs[i] != 0 {
                proof {
                    let s = self.limbs@;
                    let w = weight(i as nat);
                    lemma_weight(i as nat);
                    lemma_low_grows(s, (i + 1) as nat, s.len());
                    let l = limb(s, i as int);
                    assert(l * w > 0) by (nonlinear_arith)
                        requires
                            l > 0,
                            w > 0,
                    ;
                }
                return false;
            }
            proof {
                let w = weight(i as nat);
                assert(0 * w == 0) by (nonlinear_arith);
            }
            i += 1;
        }
        true
    }

    /// The number times `m`, plus `a`.
    pub fn scaled(&self, m: u32, a: u32) -> (r: Natural)
        ensures
            r@ == self@ * m + a,
    {
        let ghost s = self.limbs@;
        let mut out: Vec<u32> = Vec::new();
        let mut carry: u64 = a as u64;
        let mut i: usize = 0;
        proof {
            lemma_weight(0);
            assert(0 * (m as int) == 0) by (nonlinear_arith);
            assert(low_limbs(s, 0) * m == 0);
        }
        while i < self.limbs.len()
            invariant
                s == self.limbs@,
                i <= s.len(),
                out@.len() == i,
                carry < 0x1_0000_0000,
                low_limbs(out@, i as nat) + carry * weight(i as nat) == low_limbs(s, i as nat) * m
                    + a,
            decreases s.len() - i,
        {
            let x: u32 = self.limbs[i];
            assert(x * m <= 0xffff_ffff * 0xffff_ffff) by (nonlinear_arith)
                requires
                    x <= 0xffff_ffff,
                    m <= 0xffff_ffff,
            ;
            let t: u64 = x as u64 * m as u64 + carry;
            let lowest: u32 = (t % 0x1_0000_0000) as u32;
            let above: u64 = t / 0x1_0000_0000;
            let ghost before = out@;
            out.push(lowest);
            proof {
                lemma_weight(i as nat);
                lemma_low_push(before, lowest, i as nat);
                let w = weight(i as nat);
                let b = 0x1_0000_0000int;
                let done = low_limbs(s, i as nat);
                let written = low_limbs(before, i as nat);
                assert((written + lowest * w) + above * (b * w) == (done + x * w) * m + a)
                    by (nonlinear_arith)
                    requires
                        written + carry * w == done * m + a,
                        lowest + above * b == x * m + carry,
                        b == 0x1_0000_0000,
                ;
                assert(limb(out@, i as int) == lowest);
                assert(limb(s, i as int) == x);
            }
            carry = above;
            i += 1;
        }
        let ghost before = out@;
        out.push(carry as u32);
        proof {
            lemma_low_push(before, carry as u32, i as nat);
            assert(limb(out@, i as int) == carry);
        }
        Natural { limbs: out }
    }

    fn limb_at(&self, i: usize) -> (r: u32)
        ensures
            r == limb(self.limbs@, i as int),
    {
        if i < self.limbs.len() {
            self.limbs[i]
        } else {
            0
        }
    }

    /// How many limbs the longer of two numbers has.
    fn longer(&self, other: &Natural) -> (n: usize)
        ensures
            n >= self.limbs@.len(),
            n >= other.limbs@.len(),
            self@ == low_limbs(self.limbs@, n as nat),
            other@ == low_limbs(other.limbs@, n as nat),
    {
        let n: usize = if self.limbs.len() > other.limbs.len() {
            self.limbs.len()
        } else {
            other.limbs.len()
        };
        proof {
            lemma_low_all(self.limbs@, n as nat);
            lemma_low_all(other.limbs@, n as nat);
        }
        n
    }

    /// Whether the number is at least another.
    pub fn at_least(&self, other: &Natural) -> (r: bool)
        ensures
            r == (self@ >= other@),
    {
        let n: usize = self.longer(other);
        let ghost a = self.limbs@;
        let ghost b = other.limbs@;
        let mut i: usize = n;
        while i > 0
            invariant
                a == self.limbs@,
                b == other.limbs@,
                self@ == low_limbs(a, n as nat),
                other@ == low_limbs(b, n as nat),
                i <= n,
                low_limbs(a, n as nat) - low_limbs(a, i as nat) == low_limbs(b, n as nat)
                    - low_limbs(b, i as nat),
            decreases i,
        {
            i -= 1;
            let x: u32 = self.limb_at(i);
            let y: u32 = other.limb_at(i);
            proof {
                lemma_low_bound(a, i as nat);
                lemma_low_bound(b, i as nat);
                let w = weight(i as nat);
                assert(x > y ==> x * w >= y * w + w) by (nonlinear_arith)
                    requires
                        w > 0,
                ;
                assert(x < y ==> y * w >= x * w + w) by (nonlinear_arith)
                    requires
                        w > 0,
                ;
            }
            if x != y {
                return x > y;
            }
        }
        true
    }

    /// The difference to a number that is not larger.
    pub fn minus(&self, other: &Natural) -> (r: Natural)
        requires
            self@ >= other@,
        ensures
            r@ == self@ - other@,
    {
        let n: usize = self.longer(other);
        let ghost a = self.limbs@;
        let ghost b = other.limbs@;
        let mut out: Vec<u32> = Vec::new();
        let mut borrow: u64 = 0;
        let mut i: usize = 0;
        proof {
            lemma_weight(0);
        }
        while i < n
            invariant
                a == self.limbs@,
                b == other.limbs@,
                i <= n,
                out@.len() == i,
                borrow <= 1,
                low_limbs(out@, i as nat) == low_limbs(a, i as nat) - low_limbs(b, i as nat)
                    + borrow * weight(i as nat),
            decreases n - i,
        {
            let x: u64 = self.limb_at(i) as u64;
            let y: u64 = other.limb_at(i) as u64 + borrow;
            let (d, next): (u64, u64) = if x >= y {
                (x - y, 0)
            } else {
                (x + 0x1_0000_0000 - y, 1)
            };
            let ghost before = out@;
            out.push(d as u32);
            proof {
                lemma_weight(i as nat);
                lemma_low_push(before, d as u32, i as nat);
                assert(limb(out@, i as int) == d);
                let w = weight(i as nat);
                let base = 0x1_0000_0000int;
                let la = low_limbs(a, i as nat);
                let lb = low_limbs(b, i as nat);
                let lo = low_limbs(before, i as nat);
                let xa = limb(a, i as int);
                let xb = limb(b, i as int);
                assert(lo + d * w == (la + xa * w) - (lb + xb * w) + next * (base * w))
                    by (nonlinear_arith)
                    requires
                        lo == la - lb + borrow * w,
                        d == xa - (xb + borrow) + next * base,
                        base == 0x1_0000_0000,
                ;
            }
            borrow = next;
            i += 1;
        }
        proof {
            lemma_low_bound(out@, n as nat);
            let w = weight(n as nat);
            assert(borrow == 1 ==> borrow * w == w) by (nonlinear_arith);
            assert(borrow == 0 ==> borrow * w == 0) by (nonlinear_arith);
        }
        Natural { limbs: out }
    }
}

/// More limbs make no less.
proof fn lemma_low_grows(s: Seq<u32>, a: nat, b: nat)
    requires
        a <= b,
    ensures
        low_limbs(s, a) <= low_limbs(s, b),
    decreases b,
{
    if a < b {
        lemma_low_grows(s, a, (b - 1) as nat);
        let l = limb(s, b - 1);
        let w = weight((b - 1) as nat);
        assert(l * w >= 0) by (nonlinear_arith);
    }
}

} // verus!
