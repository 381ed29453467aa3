//! The two-limb linear day counter.
//!
//! A `HashDay` counts days elapsed since the calendar epoch as a pair of
//! unsigned 128-bit limbs, low limb first, so that the counter survives the
//! low limb eventually running out.  Mathematically a value stands for the
//! integer `day_hi * 2^128 + day_lo`, and addition and subtraction are exact
//! arithmetic modulo 2^256, with carry and borrow crossing the limb boundary.

use vstd::prelude::*;

verus! {

use vstd::arithmetic::div_mod::lemma_fundamental_div_mod_converse;

/// One more than the largest value a single limb can hold: 2^128.
pub open spec fn limb_base() -> int {
    0x100000000000000000000000000000000int
}

/// The modulus of the whole two-limb counter: 2^256.
pub open spec fn day_modulus() -> int {
    limb_base() * limb_base()
}

/// A point on the day timeline, as a two-limb wrap-around counter.
#[derive(Clone, Copy, Debug, PartialEq, Eq, Structural, Hash)]
pub struct HashDay {
    pub day_lo: u128,
    pub day_hi: u128,
}

/// The `HashDay` whose linear value is `n % 2^256`, for `n >= 0`.
pub open spec fn day_from_lin(n: int) -> HashDay {
    HashDay {
        day_lo: (n % limb_base()) as u128,
        day_hi: ((n / limb_base()) % limb_base()) as u128,
    }
}

impl HashDay {
    /// The integer this counter stands for: `day_hi * 2^128 + day_lo`.
    pub open spec fn lin(self) -> int {
        self.day_hi * limb_base() + self.day_lo
    }

    /// Addition modulo 2^256.
    pub open spec fn add_spec(self, rhs: HashDay) -> HashDay {
        day_from_lin((self.lin() + rhs.lin()) % day_modulus())
    }

    /// Subtraction modulo 2^256.
    pub open spec fn sub_spec(self, rhs: HashDay) -> HashDay {
        day_from_lin((self.lin() - rhs.lin()) % day_modulus())
    }

    /// Adds two counters, with the carry crossing the limb boundary.
    pub fn add(self, rhs: HashDay) -> (r: HashDay)
        ensures
            r == self.add_spec(rhs),
    {
        let day_lo = self.day_lo.wrapping_add(rhs.day_lo);
        let carry: u128 = if day_lo < self.day_lo {
            1
        } else {
            0
        };
        let day_hi = self.day_hi.wrapping_add(carry).wrapping_add(rhs.day_hi);
        let r = HashDay { day_lo, day_hi };
        proof {
            let b = limb_base();
            let s = self.lin() + rhs.lin();
            let k1: int = if self.day_hi + carry >= b {
                1
            } else {
                0
            };
            let h1: int = self.day_hi + carry - k1 * b;
            let k2: int = if h1 + rhs.day_hi >= b {
                1
            } else {
                0
            };
            assert(day_lo == self.day_lo + rhs.day_lo - carry * b);
            assert(day_hi == h1 + rhs.day_hi - k2 * b);
            assert(r.lin() == s - (k1 + k2) * day_modulus()) by (nonlinear_arith)
                requires
                    r.lin() == day_hi * b + day_lo,
                    day_lo == self.day_lo + rhs.day_lo - carry * b,
                    day_hi == self.day_hi + carry - k1 * b + rhs.day_hi - k2 * b,
                    s == self.day_hi * b + self.day_lo + rhs.day_hi * b + rhs.day_lo,
                    day_modulus() == b * b,
            {}
            lemma_lin_is_mod(r, s, k1 + k2);
            lemma_day_from_lin_of_lin(r);
        }
        r
    }

    /// Subtracts two counters, with the borrow crossing the limb boundary.
    pub fn sub(self, rhs: HashDay) -> (r: HashDay)
        ensures
            r == self.sub_spec(rhs),
    {
        let borrow: u128 = if rhs.day_lo > self.day_lo {
            1
        } else {
            0
        };
        let day_lo = self.day_lo.wrapping_sub(rhs.day_lo);
        let day_hi = self.day_hi.wrapping_sub(borrow).wrapping_sub(rhs.day_hi);
        let r = HashDay { day_lo, day_hi };
        proof {
            let b = limb_base();
            let s = self.lin() - rhs.lin();
            let m1: int = if self.day_hi - borrow < 0 {
                1
            } else {
                0
            };
            let h1: int = self.day_hi - borrow + m1 * b;
            let m2: int = if h1 - rhs.day_hi < 0 {
                1
            } else {
                0
            };
            assert(day_lo == self.day_lo - rhs.day_lo + borrow * b);
            assert(day_hi == h1 - rhs.day_hi + m2 * b);
            assert(r.lin() == s + (m1 + m2) * day_modulus()) by (nonlinear_arith)
                requires
                    r.lin() == day_hi * b + day_lo,
                    day_lo == self.day_lo - rhs.day_lo + borrow * b,
                    day_hi == self.day_hi - borrow + m1 * b - rhs.day_hi + m2 * b,
                    s == self.day_hi * b + self.day_lo - rhs.day_hi * b - rhs.day_lo,
                    day_modulus() == b * b,
            {}
            lemma_lin_is_mod(r, s, -(m1 + m2));
            lemma_day_from_lin_of_lin(r);
        }
        r
    }

    /// Ordered comparison: high limb first, then low limb, which is exactly
    /// the numeric order of the linear values.
    pub fn is_before(self, rhs: HashDay) -> (r: bool)
        ensures
            r == (self.lin() < rhs.lin()),
    {
        proof {
            lemma_lex_order(self, rhs);
        }
        if self.day_hi != rhs.day_hi {
            self.day_hi < rhs.day_hi
        } else {
            self.day_lo < rhs.day_lo
        }
    }
}

/// Every two-limb value lies in `[0, 2^256)`.
pub proof fn lemma_lin_bounds(d: HashDay)
    ensures
        0 <= d.lin() < day_modulus(),
{
    assert(0 <= d.lin() < day_modulus()) by (nonlinear_arith)
        requires
            d.lin() == d.day_hi * limb_base() + d.day_lo,
            0 <= d.day_hi < limb_base(),
            0 <= d.day_lo < limb_base(),
            day_modulus() == limb_base() * limb_base(),
    {}
}

/// If `d.lin()` differs from `x` by `q` whole turns of the counter, then
/// `x % 2^256` is exactly `d.lin()`.
proof fn lemma_lin_is_mod(d: HashDay, x: int, q: int)
    requires
        x == q * day_modulus() + d.lin(),
    ensures
        x % day_modulus() == d.lin(),
{
    lemma_lin_bounds(d);
    lemma_fundamental_div_mod_converse(x, day_modulus(), q, d.lin());
}

/// Splitting a linear value back into limbs is the identity.
pub proof fn lemma_day_from_lin_of_lin(d: HashDay)
    ensures
        day_from_lin(d.lin()) == d,
{
    lemma_lin_bounds(d);
    lemma_fundamental_div_mod_converse(d.lin(), limb_base(), d.day_hi as int, d.day_lo as int);
    assert(d.lin() % limb_base() == d.day_lo);
    assert(d.lin() / limb_base() == d.day_hi);
    lemma_fundamental_div_mod_converse(d.day_hi as int, limb_base(), 0, d.day_hi as int);
}

/// Rebuilding a day from a value already in `[0, 2^256)` keeps that value.
pub proof fn lemma_lin_of_day_from_lin(n: int)
    requires
        0 <= n < day_modulus(),
    ensures
        day_from_lin(n).lin() == n,
{
    let b = limb_base();
    vstd::arithmetic::div_mod::lemma_fundamental_div_mod(n, b);
    let q = n / b;
    let r = n % b;
    assert(0 <= r < b);
    assert(0 <= q < b) by (nonlinear_arith)
        requires
            n == q * b + r,
            0 <= r < b,
            0 <= n < b * b,
            b > 0,
    {}
    lemma_fundamental_div_mod_converse(q, b, 0, q);
    assert(day_from_lin(n).day_lo == r);
    assert(day_from_lin(n).day_hi == q);
}

/// Lexicographic comparison of `(day_hi, day_lo)` agrees with the numeric
/// order of the linear values.
proof fn lemma_lex_order(a: HashDay, b: HashDay)
    ensures
        (a.lin() < b.lin()) == (a.day_hi < b.day_hi || (a.day_hi == b.day_hi && a.day_lo
            < b.day_lo)),
{
    assert((a.lin() < b.lin()) == (a.day_hi < b.day_hi || (a.day_hi == b.day_hi && a.day_lo
        < b.day_lo))) by (nonlinear_arith)
        requires
            a.lin() == a.day_hi * limb_base() + a.day_lo,
            b.lin() == b.day_hi * limb_base() + b.day_lo,
            0 <= a.day_hi < limb_base(),
            0 <= a.day_lo < limb_base(),
            0 <= b.day_hi < limb_base(),
            0 <= b.day_lo < limb_base(),
    {}
}

/// Adding and then subtracting the same counter is the identity, and so is
/// subtracting and then adding it, including when the low limb carries or
/// borrows into the high one.
pub proof fn lemma_add_sub_inverse(a: HashDay, b: HashDay)
    ensures
        a.add_spec(b).sub_spec(b) == a,
        a.sub_spec(b).add_spec(b) == a,
{
    lemma_lin_bounds(a);
    lemma_lin_bounds(b);
    let m = day_modulus();
    let s = (a.lin() + b.lin()) % m;
    vstd::arithmetic::div_mod::lemma_fundamental_div_mod(a.lin() + b.lin(), m);
    assert(0 <= s < m) by {
        vstd::arithmetic::div_mod::lemma_mod_bound(a.lin() + b.lin(), m);
    }
    lemma_lin_of_day_from_lin(s);
    let q1 = (a.lin() + b.lin()) / m;
    assert(s - b.lin() == (-q1) * m + a.lin()) by (nonlinear_arith)
        requires
            a.lin() + b.lin() == q1 * m + s,
    {}
    lemma_fundamental_div_mod_converse(s - b.lin(), m, -q1, a.lin());
    lemma_day_from_lin_of_lin(a);

    let t = (a.lin() - b.lin()) % m;
    vstd::arithmetic::div_mod::lemma_fundamental_div_mod(a.lin() - b.lin(), m);
    assert(0 <= t < m) by {
        vstd::arithmetic::div_mod::lemma_mod_bound(a.lin() - b.lin(), m);
    }
    lemma_lin_of_day_from_lin(t);
    let q2 = (a.lin() - b.lin()) / m;
    assert(t + b.lin() == (-q2) * m + a.lin()) by (nonlinear_arith)
        requires
            a.lin() - b.lin() == q2 * m + t,
    {}
    lemma_fundamental_div_mod_converse(t + b.lin(), m, -q2, a.lin());
}

} // verus!
