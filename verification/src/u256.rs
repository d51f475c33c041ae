//! Exact 256-bit unsigned arithmetic on a pair of 128-bit limbs.
//!
//! The pricing formulas multiply two 128-bit quantities before dividing
//! back down, so every intermediate product must be carried at full
//! precision.  Each operation here is specified against the mathematical
//! integer value of the operands.

use vstd::prelude::*;
use vstd::arithmetic::div_mod::{
    lemma_basic_div, lemma_div_denominator, lemma_fundamental_div_mod,
    lemma_fundamental_div_mod_converse,
};
use vstd::arithmetic::power2::{
    lemma2_to64, lemma2_to64_rest, lemma_pow2_adds, lemma_pow2_pos, lemma_pow2_unfold, pow2,
};

verus! {

/// 2^128 as a specification-level constant.
pub open spec fn pow2_128() -> int {
    0x100000000000000000000000000000000int
}

/// 2^256 as a specification-level constant.
pub open spec fn pow2_256() -> int {
    pow2_128() * pow2_128()
}

/// An unsigned 256-bit integer: `hi * 2^128 + lo`.
#[derive(Debug, Clone, Copy, PartialEq, Eq, Structural)]
pub struct U256 {
    pub hi: u128,
    pub lo: u128,
}

impl U256 {
    /// The mathematical value represented.
    pub open spec fn val(&self) -> int {
        self.hi * pow2_128() + self.lo
    }

    /// The value zero.
    pub fn zero() -> (r: U256)
        ensures
            r.val() == 0,
    {
        U256 { hi: 0, lo: 0 }
    }

    /// Widen a 128-bit value.
    pub fn from_u128(x: u128) -> (r: U256)
        ensures
            r.val() == x,
    {
        U256 { hi: 0, lo: x }
    }

    /// The largest representable value, 2^256 - 1.
    pub fn max_value() -> (r: U256)
        ensures
            r.val() == pow2_256() - 1,
    {
        U256 { hi: u128::MAX, lo: u128::MAX }
    }

    /// Narrow back to 128 bits; `None` when the value does not fit.
    pub fn try_to_u128(self) -> (r: Option<u128>)
        ensures
            match r {
                Some(x) => x == self.val(),
                None => self.val() > u128::MAX,
            },
    {
        if self.hi == 0 {
            Some(self.lo)
        } else {
            assert(self.hi * pow2_128() >= pow2_128()) by (nonlinear_arith)
                requires self.hi >= 1;
            None
        }
    }

    /// Whether the value is zero.
    pub fn is_zero(&self) -> (r: bool)
        ensures
            r == (self.val() == 0),
    {
        self.hi == 0 && self.lo == 0
    }

    /// Strict comparison.
    pub fn lt(&self, other: &U256) -> (r: bool)
        ensures
            r == (self.val() < other.val()),
    {
        proof {
            lemma_limb_order(*self, *other);
        }
        self.hi < other.hi || (self.hi == other.hi && self.lo < other.lo)
    }

    /// Non-strict comparison.
    pub fn le(&self, other: &U256) -> (r: bool)
        ensures
            r == (self.val() <= other.val()),
    {
        proof {
            lemma_limb_order(*self, *other);
        }
        self.hi < other.hi || (self.hi == other.hi && self.lo <= other.lo)
    }

    /// Exact addition.
    pub fn add_exact(self, other: U256) -> (r: U256)
        requires
            self.val() + other.val() < pow2_256(),
        ensures
            r.val() == self.val() + other.val(),
    {
        let (lo, carry): (u128, u128) = if self.lo > u128::MAX - other.lo {
            (self.lo - (u128::MAX - other.lo) - 1, 1)
        } else {
            (self.lo + other.lo, 0)
        };
        assert(lo + carry * pow2_128() == self.lo + other.lo);
        assert((self.hi + other.hi + carry) * pow2_128() + lo < pow2_256()) by (nonlinear_arith)
            requires
                (self.hi * pow2_128() + self.lo) + (other.hi * pow2_128() + other.lo)
                    < pow2_128() * pow2_128(),
                lo + carry * pow2_128() == self.lo + other.lo,
                0 <= lo < pow2_128(),
                carry == 0 || carry == 1;
        let hi = self.hi + other.hi + carry;
        let r = U256 { hi, lo };
        assert(r.val() == self.val() + other.val()) by (nonlinear_arith)
            requires
                r.hi == self.hi + other.hi + carry,
                r.lo == lo,
                lo + carry * pow2_128() == self.lo + other.lo,
                r.val() == r.hi * pow2_128() + r.lo,
                self.val() == self.hi * pow2_128() + self.lo,
                other.val() == other.hi * pow2_128() + other.lo;
        r
    }

    /// Exact subtraction.
    pub fn sub_exact(self, other: U256) -> (r: U256)
        requires
            other.val() <= self.val(),
        ensures
            r.val() == self.val() - other.val(),
    {
        proof {
            lemma_limb_order(self, other);
        }
        let (lo, borrow): (u128, u128) = if self.lo >= other.lo {
            (self.lo - other.lo, 0)
        } else {
            ((u128::MAX - other.lo) + self.lo + 1, 1)
        };
        assert(lo == self.lo - other.lo + borrow * pow2_128());
        assert(other.hi + borrow <= self.hi) by (nonlinear_arith)
            requires
                other.hi * pow2_128() + other.lo <= self.hi * pow2_128() + self.lo,
                0 <= self.lo < pow2_128(),
                0 <= other.lo < pow2_128(),
                borrow == 0 || borrow == 1,
                borrow == 1 ==> self.lo < other.lo;
        let hi = self.hi - other.hi - borrow;
        let r = U256 { hi, lo };
        assert(r.val() == self.val() - other.val()) by (nonlinear_arith)
            requires
                r.hi == self.hi - other.hi - borrow,
                r.lo == lo,
                lo == self.lo - other.lo + borrow * pow2_128(),
                r.val() == r.hi * pow2_128() + r.lo,
                self.val() == self.hi * pow2_128() + self.lo,
                other.val() == other.hi * pow2_128() + other.lo;
        r
    }
}

/// The limb-wise lexicographic order agrees with the value order.
proof fn lemma_limb_order(a: U256, b: U256)
    ensures
        (a.val() < b.val()) == (a.hi < b.hi || (a.hi == b.hi && a.lo < b.lo)),
        (a.val() <= b.val()) == (a.hi < b.hi || (a.hi == b.hi && a.lo <= b.lo)),
{
    assert((a.val() < b.val()) == (a.hi < b.hi || (a.hi == b.hi && a.lo < b.lo))
        && (a.val() <= b.val()) == (a.hi < b.hi || (a.hi == b.hi && a.lo <= b.lo)))
        by (nonlinear_arith)
        requires
            a.val() == a.hi * pow2_128() + a.lo,
            b.val() == b.hi * pow2_128() + b.lo,
            0 <= a.lo < pow2_128(),
            0 <= b.lo < pow2_128(),
            0 <= a.hi,
            0 <= b.hi;
}

/// Full-width product of two 128-bit values.
pub fn mul_u128(a: u128, b: u128) -> (r: U256)
    ensures
        r.val() == a * b,
{
    let base: u128 = 0x10000000000000000;
    let ah = a / base;
    let al = a % base;
    let bh = b / base;
    let bl = b % base;
    proof {
        lemma_fundamental_div_mod(a as int, base as int);
        lemma_fundamental_div_mod(b as int, base as int);
        assert(ah < base && bh < base) by (nonlinear_arith)
            requires
                ah == a / base,
                bh == b / base,
                a <= 0xffffffffffffffffffffffffffffffff,
                b <= 0xffffffffffffffffffffffffffffffff,
                base == 0x10000000000000000;
        assert(ah * bh <= 0xfffffffffffffffe0000000000000001
            && al * bl <= 0xfffffffffffffffe0000000000000001
            && ah * bl <= 0xfffffffffffffffe0000000000000001
            && al * bh <= 0xfffffffffffffffe0000000000000001) by (nonlinear_arith)
            requires
                ah < 0x10000000000000000,
                al < 0x10000000000000000,
                bh < 0x10000000000000000,
                bl < 0x10000000000000000;
    }
    let p0 = al * bl;
    let p1 = al * bh;
    let p2 = ah * bl;
    let p3 = ah * bh;
    let mid = p1 % base + p2 % base + p0 / base;
    proof {
        lemma_fundamental_div_mod(p0 as int, base as int);
        lemma_fundamental_div_mod(mid as int, base as int);
        assert(p0 / base < base && p1 / base < base && p2 / base < base)
            by (nonlinear_arith)
            requires
                p0 <= 0xfffffffffffffffe0000000000000001,
                p1 <= 0xfffffffffffffffe0000000000000001,
                p2 <= 0xfffffffffffffffe0000000000000001,
                p0 / base <= p0 / 0x10000000000000000,
                p1 / base <= p1 / 0x10000000000000000,
                p2 / base <= p2 / 0x10000000000000000,
                base == 0x10000000000000000;
    }
    let lo = p0 % base + (mid % base) * base;
    let hi = p3 + p1 / base + p2 / base + mid / base;
    let r = U256 { hi, lo };
    proof {
        lemma_fundamental_div_mod(p1 as int, base as int);
        lemma_fundamental_div_mod(p2 as int, base as int);
        assert(r.val() == a * b) by (nonlinear_arith)
            requires
                a == ah * base + al,
                b == bh * base + bl,
                p0 == al * bl,
                p1 == al * bh,
                p2 == ah * bl,
                p3 == ah * bh,
                p0 == (p0 / base) * base + p0 % base,
                p1 == (p1 / base) * base + p1 % base,
                p2 == (p2 / base) * base + p2 % base,
                mid == p1 % base + p2 % base + p0 / base,
                mid == (mid / base) * base + mid % base,
                lo == p0 % base + (mid % base) * base,
                hi == p3 + p1 / base + p2 / base + mid / base,
                base == 0x10000000000000000,
                pow2_128() == base * base,
                r.val() == hi * pow2_128() + lo;
    }
    r
}

/// The integer square root: the largest `r` with `r * r <= n`.
pub open spec fn spec_isqrt(n: int) -> int
    decreases n,
{
    if n <= 0 {
        0
    } else {
        let p = spec_isqrt(n - 1);
        if (p + 1) * (p + 1) <= n {
            p + 1
        } else {
            p
        }
    }
}

/// `spec_isqrt` satisfies the square-root characterization.
pub proof fn lemma_isqrt_bounds(n: int)
    requires
        n >= 0,
    ensures
        spec_isqrt(n) >= 0,
        spec_isqrt(n) * spec_isqrt(n) <= n,
        n < (spec_isqrt(n) + 1) * (spec_isqrt(n) + 1),
    decreases n,
{
    if n == 0 {
    } else {
        lemma_isqrt_bounds(n - 1);
        let p = spec_isqrt(n - 1);
        if (p + 1) * (p + 1) <= n {
            assert(n < (p + 2) * (p + 2)) by (nonlinear_arith)
                requires
                    p >= 0,
                    n - 1 < (p + 1) * (p + 1),
                    (p + 1) * (p + 1) <= n;
        }
    }
}

/// Any value satisfying the square-root characterization is the
/// integer square root.
pub proof fn lemma_isqrt_unique(n: int, r: int)
    requires
        n >= 0,
        r >= 0,
        r * r <= n,
        n < (r + 1) * (r + 1),
    ensures
        r == spec_isqrt(n),
{
    lemma_isqrt_bounds(n);
    let s = spec_isqrt(n);
    assert(r == s) by (nonlinear_arith)
        requires
            r >= 0,
            s >= 0,
            r * r <= n,
            n < (r + 1) * (r + 1),
            s * s <= n,
            n < (s + 1) * (s + 1);
}

/// The integer formed by the bits of `v` above position `i`.
pub open spec fn high_bits(v: u128, i: nat) -> int {
    (v as int) / (pow2(i) as int)
}

/// `pow2(128)` equals the limb base.
proof fn lemma_pow2_128_value()
    ensures
        pow2(128) == pow2_128(),
{
    lemma_pow2_adds(64, 64);
    lemma2_to64_rest();
}

/// Extract the 128 bits of `v`, least significant first.
fn extract_bits(v: u128) -> (bits: Vec<bool>)
    ensures
        bits@.len() == 128,
        forall|k: int|
            0 <= k < 128 ==> bits@[k] == (#[trigger] high_bits(v, k as nat) % 2 == 1),
{
    let mut bits: Vec<bool> = Vec::new();
    let mut x = v;
    let mut j: usize = 0;
    proof {
        lemma2_to64();
    }
    while j < 128
        invariant
            0 <= j <= 128,
            bits@.len() == j,
            x as int == high_bits(v, j as nat),
            forall|k: int|
                0 <= k < j ==> bits@[k] == (#[trigger] high_bits(v, k as nat) % 2 == 1),
        decreases 128 - j,
    {
        proof {
            lemma_pow2_pos(j as nat);
            lemma_div_denominator(v as int, pow2(j as nat) as int, 2);
            lemma_pow2_unfold((j + 1) as nat);
        }
        bits.push(x % 2 == 1);
        x = x / 2;
        j += 1;
    }
    bits
}

/// Long division of `r0 * 2^128 + x * v` by `d`, one bit of `v` at a time.
///
/// The quotient is returned together with the remainder.  The callers
/// arrange the preconditions so that the quotient always fits in 128 bits:
/// either `x` is 1 and `r0` is a remainder below `d`, or `r0` is zero and
/// `x` is at most `d`.
fn div_core(x: U256, v: u128, r0: U256, d: U256) -> (res: (u128, U256))
    requires
        d.val() > 0,
        x.val() <= d.val(),
        r0.val() < d.val(),
        r0.val() * pow2_128() + x.val() * (pow2_128() - 1) < d.val() * pow2_128(),
    ensures
        res.0 * d.val() + res.1.val() == r0.val() * pow2_128() + x.val() * v,
        res.1.val() < d.val(),
{
    let bits = extract_bits(v);
    let mut q: u128 = 0;
    let mut r: U256 = r0;
    let mut i: usize = 128;
    proof {
        lemma_pow2_128_value();
        lemma2_to64();
        lemma_basic_div(v as int, pow2(128) as int);
        assert(q * d.val() + r.val() == r0.val() * pow2((128 - i) as nat) + x.val() * high_bits(
            v,
            i as nat,
        )) by (nonlinear_arith)
            requires
                q == 0,
                r == r0,
                i == 128,
                pow2(0) == 1,
                high_bits(v, 128) == 0;
    }
    while i > 0
        invariant
            0 <= i <= 128,
            bits@.len() == 128,
            forall|k: int|
                0 <= k < 128 ==> bits@[k] == (#[trigger] high_bits(v, k as nat) % 2 == 1),
            d.val() > 0,
            x.val() <= d.val(),
            r0.val() < d.val(),
            r0.val() * pow2_128() + x.val() * (pow2_128() - 1) < d.val() * pow2_128(),
            r.val() < d.val(),
            q * d.val() + r.val() == r0.val() * pow2((128 - i) as nat) + x.val() * high_bits(
                v,
                i as nat,
            ),
        decreases i,
    {
        i -= 1;
        let b = bits[i];
        proof {
            // Recurrence for the processed prefix: one more bit shifts it up.
            lemma_pow2_pos(i as nat);
            lemma_div_denominator(v as int, pow2(i as nat) as int, 2);
            lemma_pow2_unfold((i + 1) as nat);
            lemma_fundamental_div_mod(high_bits(v, i as nat), 2);
            lemma_pow2_unfold((128 - i) as nat);
        }
        let ghost p_old = r0.val() * pow2((128 - i - 1) as nat) + x.val() * high_bits(
            v,
            (i + 1) as nat,
        );
        let ghost bx: int = if b { x.val() } else { 0 };
        let ghost p_new = r0.val() * pow2((128 - i) as nat) + x.val() * high_bits(v, i as nat);
        proof {
            assert(p_new == 2 * p_old + bx) by (nonlinear_arith)
                requires
                    p_old == r0.val() * pow2((128 - i - 1) as nat) + x.val() * high_bits(
                        v,
                        (i + 1) as nat,
                    ),
                    p_new == r0.val() * pow2((128 - i) as nat) + x.val() * high_bits(v, i as nat),
                    pow2((128 - i) as nat) == 2 * pow2((128 - i - 1) as nat),
                    high_bits(v, i as nat) == 2 * high_bits(v, (i + 1) as nat) + (
                    if b { 1int } else { 0int }),
                    bx == (if b { x.val() } else { 0int });
            // The whole processed value stays below d * 2^128.
            lemma_pow2_128_value();
            lemma_pow2_pos(i as nat);
            lemma_pow2_adds((128 - i) as nat, i as nat);
            lemma_fundamental_div_mod(v as int, pow2(i as nat) as int);
            assert(p_new * pow2(i as nat) < d.val() * pow2_128()) by (nonlinear_arith)
                requires
                    p_new == r0.val() * pow2((128 - i) as nat) + x.val() * high_bits(v, i as nat),
                    high_bits(v, i as nat) * pow2(i as nat) <= v as int,
                    pow2((128 - i) as nat) * pow2(i as nat) == pow2(128) as int,
                    pow2(128) == pow2_128(),
                    pow2(i as nat) >= 1,
                    x.val() >= 0,
                    r0.val() >= 0,
                    v < pow2_128(),
                    r0.val() * pow2_128() + x.val() * (pow2_128() - 1) < d.val() * pow2_128();
            assert(p_new < d.val() * pow2_128()) by (nonlinear_arith)
                requires
                    p_new * pow2(i as nat) < d.val() * pow2_128(),
                    pow2(i as nat) >= 1,
                    p_new >= 0,
                    d.val() > 0;
        }
        // Double the remainder, reducing by d when it overflows it.
        let dm = d.sub_exact(r);
        let (t1, k1): (U256, u128) = if dm.le(&r) {
            (r.sub_exact(dm), 1)
        } else {
            (r.add_exact(r), 0)
        };
        assert(t1.val() == r.val() + r.val() - k1 * d.val() && t1.val() < d.val());
        // Add the contribution of this bit, reducing again if needed.
        let (t2, k2): (U256, u128) = if b {
            let dt = d.sub_exact(t1);
            if dt.le(&x) {
                (x.sub_exact(dt), 1)
            } else {
                (t1.add_exact(x), 0)
            }
        } else {
            (t1, 0)
        };
        assert(t2.val() == t1.val() + bx - k2 * d.val() && t2.val() < d.val());
        proof {
            // The new quotient 2q + k1 + k2 still fits in 128 bits.
            assert((2 * q + k1 + k2) * d.val() + t2.val() == p_new) by (nonlinear_arith)
                requires
                    q * d.val() + r.val() == p_old,
                    t1.val() == r.val() + r.val() - k1 * d.val(),
                    t2.val() == t1.val() + bx - k2 * d.val(),
                    p_new == 2 * p_old + bx;
            assert(2 * q + k1 + k2 < pow2_128()) by (nonlinear_arith)
                requires
                    (2 * q + k1 + k2) * d.val() + t2.val() == p_new,
                    p_new < d.val() * pow2_128(),
                    t2.val() >= 0,
                    d.val() > 0,
                    q >= 0,
                    k1 >= 0,
                    k2 >= 0;
            assert(pow2_128() - 1 == u128::MAX);
        }
        q = q * 2 + k1 + k2;
        r = t2;
    }
    proof {
        lemma2_to64();
        assert(high_bits(v, 0) == v as int);
        assert(q * d.val() + r.val() == r0.val() * pow2_128() + x.val() * v) by (nonlinear_arith)
            requires
                q * d.val() + r.val() == r0.val() * pow2(128) + x.val() * high_bits(v, 0),
                pow2(128) == pow2_128(),
                high_bits(v, 0) == v as int;
    }
    (q, r)
}

impl U256 {
    /// Euclidean division by a 128-bit divisor: quotient and remainder.
    pub fn div_u128(self, d: u128) -> (res: (U256, u128))
        requires
            d > 0,
        ensures
            res.0.val() == self.val() / d as int,
            res.1 == self.val() % d as int,
    {
        let qh = self.hi / d;
        let rh = self.hi % d;
        proof {
            lemma_fundamental_div_mod(self.hi as int, d as int);
            assert(rh * pow2_128() + (pow2_128() - 1) < d * pow2_128()) by (nonlinear_arith)
                requires
                    rh < d;
        }
        let (ql, rr) = div_core(U256::from_u128(1), self.lo, U256::from_u128(rh), U256::from_u128(d));
        proof {
            assert(rr.hi == 0) by (nonlinear_arith)
                requires
                    rr.val() == rr.hi * pow2_128() + rr.lo,
                    rr.val() < d,
                    d <= 0xffffffffffffffffffffffffffffffff,
                    0 <= rr.lo < pow2_128(),
                    rr.hi >= 0;
        }
        let q = U256 { hi: qh, lo: ql };
        proof {
            assert(self.val() == q.val() * d + rr.lo) by (nonlinear_arith)
                requires
                    self.val() == self.hi * pow2_128() + self.lo,
                    self.hi == qh * d + rh,
                    ql * d + rr.val() == rh * pow2_128() + 1 * self.lo,
                    rr.val() == rr.lo,
                    q.val() == qh * pow2_128() + ql;
            lemma_fundamental_div_mod_converse(self.val(), d as int, q.val(), rr.lo as int);
        }
        (q, rr.lo)
    }

    /// `self * m / d`, exact over the integers, for `self <= d`.
    ///
    /// The bound on `self` keeps the quotient within 128 bits.
    pub fn mul_div_u128(self, m: u128, d: U256) -> (r: u128)
        requires
            d.val() > 0,
            self.val() <= d.val(),
        ensures
            r == self.val() * m / d.val(),
    {
        proof {
            assert(self.val() * (pow2_128() - 1) < d.val() * pow2_128()) by (nonlinear_arith)
                requires
                    0 < d.val(),
                    0 <= self.val() <= d.val();
            assert(self.val() * m >= 0) by (nonlinear_arith)
                requires
                    self.val() >= 0,
                    m >= 0;
        }
        let (q, rr) = div_core(self, m, U256::zero(), d);
        proof {
            lemma_fundamental_div_mod_converse(self.val() * m, d.val(), q as int, rr.val());
        }
        q
    }

    /// Integer square root: the largest `r` with `r * r <= self`.
    pub fn isqrt(self) -> (r: u128)
        ensures
            r * r <= self.val(),
            self.val() < (r + 1) * (r + 1),
    {
        proof {
            assert(self.val() < (u128::MAX + 1) * (u128::MAX + 1)) by (nonlinear_arith)
                requires
                    self.val() == self.hi * pow2_128() + self.lo,
                    self.hi <= 0xffffffffffffffffffffffffffffffff,
                    self.lo <= 0xffffffffffffffffffffffffffffffff;
        }
        let mut lo: u128 = 0;
        let mut hi: u128 = u128::MAX;
        while lo < hi
            invariant
                lo <= hi,
                lo * lo <= self.val(),
                self.val() < (hi + 1) * (hi + 1),
            decreases hi - lo,
        {
            let step = (hi - lo) / 2 + (hi - lo) % 2;
            let mid = lo + step;
            let sq = mul_u128(mid, mid);
            if sq.le(&self) {
                lo = mid;
            } else {
                hi = mid - 1;
            }
        }
        lo
    }
}

} // verus!
