//! Double-precision numbers as bit patterns.
//!
//! Log probabilities and probabilities pass through the library as the bits of
//! an IEEE 754 `binary64` number. The library compares them; arithmetic on them
//! is asked of the caller.

use vstd::arithmetic::power2::{lemma_pow2_pos, lemma_pow2_unfold, pow2};
use vstd::prelude::*;

verus! {

/// The bits of the number one.
pub const ONE_BITS: u64 = 0x3FF0_0000_0000_0000;

/// A `binary64` number, given by its bits.
#[derive(Clone, Copy, Debug, PartialEq, Eq, Structural)]
pub struct Binary64 {
    pub bits: u64,
}

impl Binary64 {
    /// Whether the sign bit is set.
    pub open spec fn negative(self) -> bool {
        self.bits >= 0x8000_0000_0000_0000
    }

    /// Exponent and fraction, read as one number: it grows with the size of
    /// what the bits stand for.
    pub open spec fn magnitude(self) -> int {
        if self.negative() {
            self.bits - 0x8000_0000_0000_0000
        } else {
            self.bits as int
        }
    }

    /// Whether this is not a number.
    pub open spec fn nan(self) -> bool {
        self.magnitude() > 0x7FF0_0000_0000_0000
    }

    /// A rank that orders numbers by value; both zeros have rank zero.
    pub open spec fn rank(self) -> int {
        if self.negative() {
            -self.magnitude()
        } else {
            self.magnitude()
        }
    }

    /// A rank that orders all bit patterns, those that are not numbers too:
    /// the IEEE 754 total order.
    pub open spec fn total_rank(self) -> int {
        if self.negative() {
            -self.magnitude() - 1
        } else {
            self.magnitude()
        }
    }

    /// The order `<` of numbers, which holds of nothing that is not a number.
    pub open spec fn below(self, other: Binary64) -> bool {
        !self.nan() && !other.nan() && self.rank() < other.rank()
    }

    /// Whether the value is zero.
    pub open spec fn zero(self) -> bool {
        self.magnitude() == 0
    }

    /// Whether the value is greater than zero.
    pub open spec fn positive(self) -> bool {
        !self.nan() && 0 < self.rank()
    }

    /// Whether the value is at least zero and less than one.
    pub open spec fn in_unit_interval(self) -> bool {
        !self.nan() && 0 <= self.rank() < ONE_BITS
    }

    /// Whether this number is less than `other`.
    pub fn less(self, other: Binary64) -> (result: bool)
        ensures
            result == self.below(other),
    {
        let sign: u64 = 0x8000_0000_0000_0000;
        let infinity: u64 = 0x7FF0_0000_0000_0000;
        let left: u64 = if self.bits >= sign {
            self.bits - sign
        } else {
            self.bits
        };
        let right: u64 = if other.bits >= sign {
            other.bits - sign
        } else {
            other.bits
        };
        if left > infinity || right > infinity {
            false
        } else if self.bits >= sign {
            if other.bits >= sign {
                right < left
            } else {
                0 < left || 0 < right
            }
        } else {
            other.bits < sign && left < right
        }
    }

    /// Whether this number stands before `other` in the total order.
    pub fn total_less(self, other: Binary64) -> (result: bool)
        ensures
            result == (self.total_rank() < other.total_rank()),
    {
        let sign: u64 = 0x8000_0000_0000_0000;
        if self.bits >= sign {
            other.bits < sign || other.bits < self.bits
        } else {
            other.bits < sign && self.bits < other.bits
        }
    }

    /// Whether the value is zero.
    pub fn is_zero(self) -> (result: bool)
        ensures
            result == self.zero(),
    {
        self.bits == 0 || self.bits == 0x8000_0000_0000_0000
    }

    /// Whether the value is greater than zero.
    pub fn is_positive(self) -> (result: bool)
        ensures
            result == self.positive(),
    {
        0 < self.bits && self.bits <= 0x7FF0_0000_0000_0000
    }

    /// Whether the value is at least zero and less than one.
    pub fn is_in_unit_interval(self) -> (result: bool)
        ensures
            result == self.in_unit_interval(),
    {
        self.bits < ONE_BITS || self.bits == 0x8000_0000_0000_0000
    }
}

/// The total order has no ties: numbers of one rank have the same bits.
pub proof fn law_total_rank_injective(a: Binary64, b: Binary64)
    ensures
        a.total_rank() == b.total_rank() <==> a == b,
{
}

/// The total order refines the order by value.
pub proof fn law_total_rank_refines_value(a: Binary64, b: Binary64)
    ensures
        a.below(b) ==> a.total_rank() < b.total_rank(),
{
}

/// How many times the smallest positive number goes into one with the given
/// exponent and fraction: the fraction itself where the exponent is zero, and
/// otherwise the fraction with its leading bit, doubled for each exponent above
/// one. Infinity comes out above every number.
pub open spec fn steps(magnitude: int) -> int {
    let exponent = magnitude / 0x10_0000_0000_0000;
    let fraction = magnitude % 0x10_0000_0000_0000;
    if exponent == 0 {
        fraction
    } else {
        (0x10_0000_0000_0000 + fraction) * pow2((exponent - 1) as nat)
    }
}

/// The next bit pattern stands for a greater number.
proof fn lemma_steps_next(m: int)
    requires
        0 <= m,
    ensures
        steps(m) < steps(m + 1),
{
    let unit: int = 0x10_0000_0000_0000;
    let e = m / unit;
    let f = m % unit;
    assert(m == e * unit + f && 0 <= f < unit && 0 <= e) by (nonlinear_arith)
        requires
            unit == 0x10_0000_0000_0000int,
            e == m / unit,
            f == m % unit,
            0 <= m,
    ;
    if e > 0 {
        lemma_pow2_pos((e - 1) as nat);
    }
    if f + 1 < unit {
        assert((m + 1) / unit == e && (m + 1) % unit == f + 1) by (nonlinear_arith)
            requires
                unit == 0x10_0000_0000_0000int,
                m == e * unit + f,
                0 <= f,
                f + 1 < unit,
        ;
        if e > 0 {
            let p = pow2((e - 1) as nat) as int;
            assert((unit + f) * p < (unit + f + 1) * p) by (nonlinear_arith)
                requires
                    p > 0,
            ;
        }
    } else {
        assert((m + 1) / unit == e + 1 && (m + 1) % unit == 0) by (nonlinear_arith)
            requires
                unit == 0x10_0000_0000_0000int,
                m == e * unit + f,
                f + 1 == unit,
        ;
        if e == 0 {
            lemma_pow2_pos(0);
            let p = pow2(0) as int;
            assert(f < unit * p) by (nonlinear_arith)
                requires
                    p > 0,
                    f < unit,
                    0 <= f,
            ;
        } else {
            lemma_pow2_unfold(e as nat);
            let p = pow2((e - 1) as nat) as int;
            assert((unit + f) * p < unit * (2 * p)) by (nonlinear_arith)
                requires
                    p > 0,
                    f < unit,
            ;
        }
    }
}

/// Greater bit patterns stand for greater numbers.
proof fn lemma_steps_grow(m: int, n: int)
    requires
        0 <= m < n,
    ensures
        steps(m) < steps(n),
    decreases n - m,
{
    lemma_steps_next(n - 1);
    if m < n - 1 {
        lemma_steps_grow(m, n - 1);
    }
}

impl Binary64 {
    /// What the bits stand for, counted in steps of the smallest positive
    /// number.
    pub open spec fn stands_for(self) -> int {
        if self.bits < 0x8000_0000_0000_0000 {
            steps(self.bits as int)
        } else {
            -steps(self.bits - 0x8000_0000_0000_0000)
        }
    }

    /// An exponent of all ones with a fraction: not a number.
    pub open spec fn stands_for_nothing(self) -> bool {
        self.bits % 0x8000_0000_0000_0000 / 0x10_0000_0000_0000 == 0x7FF && self.bits
            % 0x10_0000_0000_0000 != 0
    }
}

/// Numbers are compared by what they stand for: one is less than another, is
/// zero, is positive, or lies between zero and one exactly if what it stands
/// for is or does. Nothing of this holds of what is not a number, but that it
/// is not zero.
pub proof fn law_order_by_value(a: Binary64, b: Binary64)
    ensures
        a.below(b) <==> !a.stands_for_nothing() && !b.stands_for_nothing() && a.stands_for()
            < b.stands_for(),
        a.zero() <==> a.stands_for() == 0,
        a.positive() <==> !a.stands_for_nothing() && 0 < a.stands_for(),
        a.in_unit_interval() <==> !a.stands_for_nothing() && 0 <= a.stands_for() < pow2(1074),
{
    let m = a.magnitude();
    let n = b.magnitude();
    assert(steps(0) == 0);
    if m < n {
        lemma_steps_grow(m, n);
    } else if n < m {
        lemma_steps_grow(n, m);
    }
    if m > 0 {
        lemma_steps_grow(0, m);
    }
    if n > 0 {
        lemma_steps_grow(0, n);
    }
    let one = ONE_BITS as int;
    if m < one {
        lemma_steps_grow(m, one);
    } else if one < m {
        lemma_steps_grow(one, m);
    }
    lemma_one();
    lemma_nothing(a);
    lemma_nothing(b);
}

/// What is not a number has a magnitude beyond infinity.
proof fn lemma_nothing(a: Binary64)
    ensures
        a.nan() == a.stands_for_nothing(),
{
}

/// The number one is two to the power of 1074 steps of the smallest number.
proof fn lemma_one()
    ensures
        steps(ONE_BITS as int) == pow2(1074),
{
    assert(ONE_BITS as int / 0x10_0000_0000_0000 == 1023);
    assert(ONE_BITS as int % 0x10_0000_0000_0000 == 0);
    vstd::arithmetic::power2::lemma_pow2_adds(52, 1022);
    vstd::arithmetic::power2::lemma2_to64();
    vstd::arithmetic::power2::lemma2_to64_rest();
    assert(pow2(52) == 0x10_0000_0000_0000);
}

/// The total order goes by value where both are numbers and differ in it; of
/// the two zeros the negative one comes first; what is not a number comes
/// before all numbers if its sign is set, and after them if it is not. Of equal
/// signs, the bits decide.
pub proof fn law_total_order(a: Binary64, b: Binary64)
    ensures
        !a.stands_for_nothing() && !b.stands_for_nothing() && a.stands_for() < b.stands_for()
            ==> a.total_rank() < b.total_rank(),
        !a.stands_for_nothing() && !b.stands_for_nothing() && a.stands_for() == b.stands_for() ==> (
        a.total_rank() < b.total_rank() <==> a.bits == 0x8000_0000_0000_0000 && b.bits == 0),
        a.stands_for_nothing() && a.bits >= 0x8000_0000_0000_0000 && !b.stands_for_nothing()
            ==> a.total_rank() < b.total_rank(),
        a.stands_for_nothing() && a.bits < 0x8000_0000_0000_0000 && !b.stands_for_nothing()
            ==> b.total_rank() < a.total_rank(),
        a.bits < b.bits < 0x8000_0000_0000_0000 ==> a.total_rank() < b.total_rank(),
        0x8000_0000_0000_0000 <= b.bits < a.bits ==> a.total_rank() < b.total_rank(),
{
    law_order_by_value(a, b);
    law_order_by_value(b, a);
    lemma_nothing(a);
    lemma_nothing(b);
}

} // verus!
