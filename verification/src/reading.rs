//! Measured values.
//!
//! A reading is a floating-point measurement, carried by the bits of its
//! IEEE 754 double. The library orders readings and hands them on; it never
//! computes with them. A reading is never a NaN, so readings are totally
//! ordered, with both zeros equal.

use vstd::arithmetic::power2::*;
use vstd::prelude::*;

use crate::order;

verus! {

/// The bits of the sign.
pub const SIGN_BIT: u64 = 0x8000_0000_0000_0000;

/// The bits of positive infinity: a larger magnitude is a NaN.
pub const INFINITY_BITS: u64 = 0x7ff0_0000_0000_0000;

/// Whether the bits are those of a number: anything but a NaN.
pub open spec fn is_number(bits: u64) -> bool {
    bits % SIGN_BIT <= INFINITY_BITS
}

/// The place of a number in the order of doubles: the magnitude's bits order
/// like the magnitude, and the sign turns that order round.
pub open spec fn rank(bits: u64) -> int {
    if bits >= SIGN_BIT {
        -(bits - SIGN_BIT)
    } else {
        bits as int
    }
}

/// The position of the highest bit that is set.
pub open spec fn top_bit(n: nat) -> nat
    decreases n,
{
    if n <= 1 {
        0
    } else {
        1 + top_bit(n / 2)
    }
}

/// `n` in units of `unit`, rounded to the nearest, a tie to the even one.
pub open spec fn nearest(n: int, unit: int) -> int {
    let q = n / unit;
    let r = n % unit;
    if 2 * r < unit || (2 * r == unit && q % 2 == 0) {
        q
    } else {
        q + 1
    }
}

/// The 53 leading bits of a number that is not zero, as a number from 2^52 up
/// to 2^53: exact below 2^53, else rounded to the nearest, ties to even.
pub open spec fn significand(n: nat) -> int {
    let e = top_bit(n);
    if e <= 52 {
        n as int * pow2((52 - e) as nat)
    } else {
        nearest(n as int, pow2((e - 52) as nat) as int)
    }
}

/// The bits of the double nearest to a count.
pub open spec fn count_bits(n: nat) -> int {
    if n == 0 {
        0
    } else {
        (top_bit(n) + 1022) * 0x10_0000_0000_0000 + significand(n)
    }
}

/// The position of the highest bit is pinned by the powers around it.
pub proof fn lemma_top_bit(n: nat, e: nat)
    requires
        pow2(e) <= n < pow2(e + 1),
    ensures
        top_bit(n) == e,
    decreases e,
{
    lemma_pow2_unfold(e + 1);
    if e == 0 {
        lemma2_to64();
    } else {
        lemma_pow2_unfold(e);
        lemma_pow2_pos((e - 1) as nat);
        lemma_top_bit(n / 2, (e - 1) as nat);
    }
}

/// A count as doubles hold it: rounded to its 53 leading bits.
pub open spec fn rounded(n: nat) -> int {
    if n == 0 || top_bit(n) <= 52 {
        n as int
    } else {
        significand(n) * pow2((top_bit(n) - 52) as nat)
    }
}

/// The highest bit of a count and its leading bits.
struct Leading {
    top: u64,
    /// The weight of the lowest bit of the significand, or one.
    unit: u64,
    significand: u64,
}

fn leading_bits(n: u64) -> (r: Leading)
    requires
        n > 0,
    ensures
        r.top == top_bit(n as nat),
        r.top <= 63,
        r.top <= 52 ==> r.unit == 1,
        r.top > 52 ==> r.unit == pow2((r.top - 52) as nat) && r.unit <= 0x800,
        r.significand == significand(n as nat),
        0x10_0000_0000_0000 <= r.significand <= 0x20_0000_0000_0000,
{
    proof {
        lemma2_to64();
        lemma2_to64_rest();
    }
    let mut e: u64 = 0;
    let mut p: u64 = 1;
    let mut unit: u64 = 1;
    while n / 2 >= p
        invariant
            p == pow2(e as nat),
            1 <= p <= n,
            e <= 63,
            e <= 52 ==> unit == 1,
            e >= 52 ==> unit == pow2((e - 52) as nat),
            pow2(0) == 1,
            pow2(63) == 0x8000_0000_0000_0000,
        decreases n - p,
    {
        proof {
            lemma_pow2_unfold((e + 1) as nat);
            if e >= 52 {
                lemma_pow2_unfold((e - 52 + 1) as nat);
                lemma_pow2_strictly_increases((e - 52) as nat, e as nat);
            }
        }
        p = p * 2;
        if e >= 52 {
            unit = unit * 2;
        }
        e += 1;
    }
    proof {
        lemma_pow2_unfold((e + 1) as nat);
        lemma_top_bit(n as nat, e as nat);
    }
    if e <= 52 {
        let scale: u64 = 0x10_0000_0000_0000 / p;
        proof {
            let s = pow2((52 - e) as nat) as int;
            lemma_pow2_adds(e as nat, (52 - e) as nat);
            lemma_pow2_pos((52 - e) as nat);
            assert(p * s == 0x10_0000_0000_0000);
            assert(0x10_0000_0000_0000int / (p as int) == s) by (nonlinear_arith)
                requires
                    p * s == 0x10_0000_0000_0000,
                    p > 0,
            ;
            assert(n * s < 0x20_0000_0000_0000 && n * s >= 0x10_0000_0000_0000)
                by (nonlinear_arith)
                requires
                    p * s == 0x10_0000_0000_0000,
                    p <= n < 2 * p,
                    s > 0,
            ;
        }
        Leading { top: e, unit, significand: n * scale }
    } else {
        let q: u64 = n / unit;
        let r: u64 = n % unit;
        proof {
            lemma_pow2_adds(52, (e - 52) as nat);
            lemma_pow2_unfold((e - 52) as nat);
            assert(p == 0x10_0000_0000_0000 * unit);
            assert(n < 2 * p);
            vstd::arithmetic::div_mod::lemma_fundamental_div_mod(n as int, unit as int);
            vstd::arithmetic::div_mod::lemma_mod_bound(n as int, unit as int);
            assert(0x10_0000_0000_0000 <= q < 0x20_0000_0000_0000) by (nonlinear_arith)
                requires
                    n == unit * q + r,
                    0 <= r < unit,
                    0x10_0000_0000_0000 * unit <= n,
                    n < 0x20_0000_0000_0000 * unit,
            ;
        }
        let low: bool = r < unit - r || (r == unit - r && q % 2 == 0);
        let significand: u64 = if low {
            q
        } else {
            q + 1
        };
        Leading { top: e, unit, significand }
    }
}

/// A count as doubles hold it: rounded to its 53 leading bits, ties to even.
pub fn round_count(n: u64) -> (r: u128)
    ensures
        r == rounded(n as nat),
        r <= 0x1_0000_0000_0000_0000,
{
    if n == 0 {
        return 0;
    }
    let lead = leading_bits(n);
    if lead.top <= 52 {
        n as u128
    } else {
        proof {
            assert(lead.significand * lead.unit <= 0x20_0000_0000_0000 * 0x800) by (nonlinear_arith)
                requires
                    lead.significand <= 0x20_0000_0000_0000,
                    lead.unit <= 0x800,
            ;
        }
        lead.significand as u128 * lead.unit as u128
    }
}

/// A measured value.
#[derive(Debug, Clone, Copy)]
pub struct Reading {
    bits: u64,
}

impl Reading {
    /// The bits of the double.
    pub closed spec fn bits(&self) -> u64 {
        self.bits
    }

    /// The reading nearest to a count.
    pub closed spec fn count(n: nat) -> Reading {
        Reading { bits: count_bits(n) as u64 }
    }

    /// The place in the order of doubles.
    pub open spec fn rank(&self) -> int {
        rank(self.bits())
    }

    #[verifier::type_invariant]
    spec fn number(self) -> bool {
        is_number(self.bits)
    }

    /// The reading with these bits; `None` for a NaN.
    pub fn from_bits(bits: u64) -> (r: Option<Reading>)
        ensures
            r is Some == is_number(bits),
            r matches Some(x) ==> x.bits() == bits,
    {
        if bits % SIGN_BIT <= INFINITY_BITS {
            Some(Reading { bits })
        } else {
            None
        }
    }

    /// The bits of the double.
    pub fn to_bits(self) -> (r: u64)
        ensures
            r == self.bits(),
            is_number(r),
    {
        proof {
            use_type_invariant(&self);
        }
        self.bits
    }

    /// The reading nearest to a count.
    pub fn of_count(n: u64) -> (r: Reading)
        ensures
            r == Reading::count(n as nat),
            r.bits() == count_bits(n as nat),
    {
        if n == 0 {
            return Reading { bits: 0 };
        }
        let lead = leading_bits(n);
        let bits: u64 = (lead.top + 1022) * 0x10_0000_0000_0000 + lead.significand;
        Reading { bits }
    }

    /// The reading zero.
    pub fn zero() -> (r: Reading)
        ensures
            r == Reading::count(0),
            r.bits() == 0,
    {
        Reading { bits: 0 }
    }

    /// Whether this reading is at most the other.
    pub fn at_most(self, other: Reading) -> (r: bool)
        ensures
            r == (self.rank() <= other.rank()),
    {
        let a = self.bits;
        let b = other.bits;
        if a >= SIGN_BIT {
            if b >= SIGN_BIT {
                b - SIGN_BIT <= a - SIGN_BIT
            } else {
                true
            }
        } else if b >= SIGN_BIT {
            a == 0 && b == SIGN_BIT
        } else {
            a <= b
        }
    }
}

impl order::Ranked for Reading {
    open spec fn le(&self, other: &Self) -> bool {
        self.rank() <= other.rank()
    }

    proof fn le_total(a: &Self, b: &Self) {
    }

    proof fn le_trans(a: &Self, b: &Self, c: &Self) {
    }

    fn may_precede(&self, other: &Self) -> (r: bool) {
        self.at_most(*other)
    }
}

// ---------------------------------------------------------------------------
// Laws
// ---------------------------------------------------------------------------

/// Readings are ordered like the numbers that their bits stand for: numbers with
/// the sign bit come before those without it, those without it by their other
/// bits, and those with it the other way round; both zeros rank alike.
pub proof fn law_rank_orders_numbers(a: u64, b: u64)
    ensures
        a < 0x8000_0000_0000_0000 && b < 0x8000_0000_0000_0000 ==> (rank(a) <= rank(b)) == (a
            <= b),
        a >= 0x8000_0000_0000_0000 && b >= 0x8000_0000_0000_0000 ==> (rank(a) <= rank(b)) == (b
            <= a),
        a >= 0x8000_0000_0000_0000 && b < 0x8000_0000_0000_0000 ==> rank(a) <= rank(b),
        a < 0x8000_0000_0000_0000 && b >= 0x8000_0000_0000_0000 ==> (rank(a) <= rank(b)) == (a == 0
            && b == 0x8000_0000_0000_0000),
{
}

/// Rounding to units is off by half a unit at most, and a tie goes to the even
/// number of them.
pub proof fn law_nearest_is_within_half_a_unit(n: int, unit: int)
    requires
        unit > 0,
    ensures
        -unit <= 2 * (nearest(n, unit) * unit - n) <= unit,
        (2 * (nearest(n, unit) * unit - n) == unit || 2 * (nearest(n, unit) * unit - n) == -unit)
            ==> nearest(n, unit) % 2 == 0,
{
    vstd::arithmetic::div_mod::lemma_fundamental_div_mod(n, unit);
    vstd::arithmetic::div_mod::lemma_mod_bound(n, unit);
    let q = n / unit;
    let r = n % unit;
    assert(q * unit == unit * q) by (nonlinear_arith);
    assert((q + 1) * unit == unit * q + unit) by (nonlinear_arith);
}

proof fn lemma_top_bit_below(n: nat, k: nat)
    requires
        n < pow2(k + 1),
    ensures
        top_bit(n) <= k,
    decreases k,
{
    lemma2_to64();
    if n > 1 {
        lemma_pow2_unfold(k + 1);
        if k > 0 {
            lemma_top_bit_below(n / 2, (k - 1) as nat);
        }
    }
}

/// A count of at most 53 bits is exact.
pub proof fn law_small_counts_are_exact(n: nat)
    requires
        n < 0x20_0000_0000_0000,
    ensures
        rounded(n) == n,
{
    lemma2_to64();
    lemma2_to64_rest();
    lemma_top_bit_below(n, 52);
}

/// A count of more bits is rounded to a multiple of the unit in which its leading
/// 53 bits count, and is off by half of that at most.
pub proof fn law_large_counts_are_close(n: nat, e: nat)
    requires
        e > 52,
        pow2(e) <= n < pow2(e + 1),
    ensures
        -pow2((e - 52) as nat) <= 2 * (rounded(n) - n) <= pow2((e - 52) as nat),
{
    lemma_top_bit(n, e);
    lemma_pow2_pos((e - 52) as nat);
    lemma_pow2_pos(e);
    law_nearest_is_within_half_a_unit(n as int, pow2((e - 52) as nat) as int);
}

/// The bits of an exact count: the exponent of its highest bit, and what follows
/// that bit, moved up to the top of the fraction.
pub proof fn law_exact_counts_have_their_bits(n: nat, e: nat)
    requires
        e <= 52,
        pow2(e) <= n < pow2(e + 1),
    ensures
        count_bits(n) == (e + 1023) * 0x10_0000_0000_0000 + (n - pow2(e)) * pow2((52 - e) as nat),
{
    lemma_top_bit(n, e);
    lemma_pow2_pos(e);
    lemma2_to64();
    lemma2_to64_rest();
    lemma_pow2_adds(e, (52 - e) as nat);
    let s = pow2((52 - e) as nat) as int;
    let p = pow2(e) as int;
    assert((n - p) * s == n * s - p * s) by (nonlinear_arith);
}

} // verus!
