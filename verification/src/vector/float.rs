//! Single-precision numbers by their bit pattern.
//!
//! The engine stores, moves, compares and serialises numbers; only the distance
//! kernels compute with them. So a number is kept here as its 32 bits, and what
//! the engine needs to know of one, whether it is finite and how two compare, is
//! read off the bits. Arithmetic arrives from outside through [`Operation`].

use vstd::prelude::*;

verus! {

/// The weight of the sign bit.
pub const SIGN: u32 = 0x8000_0000;

/// The bits of positive infinity. A larger magnitude is not a number.
pub const INFINITE: u32 = 0x7F80_0000;

/// A single-precision number, as its bit pattern.
#[derive(Clone, Copy, Debug, PartialEq, Eq, Structural)]
pub struct Float {
    pub bits: u32,
}

impl Float {
    /// The bits without the sign.
    pub open spec fn magnitude(self) -> int {
        self.bits as int % 0x8000_0000
    }

    /// Whether the sign bit is set.
    pub open spec fn negative(self) -> bool {
        self.bits >= SIGN
    }

    /// Whether the pattern stands for no number.
    pub open spec fn is_nan(self) -> bool {
        self.magnitude() > INFINITE
    }

    /// Whether the pattern stands for a number that is not infinite.
    pub open spec fn finite(self) -> bool {
        self.magnitude() < INFINITE
    }

    /// The place of the number on the number line: of two numbers, the smaller
    /// one has the smaller value, and both zeros have value zero.
    pub open spec fn value(self) -> int {
        if self.negative() {
            -self.magnitude()
        } else {
            self.magnitude()
        }
    }

    /// The place of the pattern in the total order over all patterns, where a
    /// negative zero comes just before a positive one and the patterns that are
    /// no number come at the two ends.
    pub open spec fn rank(self) -> int {
        if self.negative() {
            -1 - self.magnitude()
        } else {
            self.magnitude()
        }
    }

    /// The comparison `<` of numbers. It is false where either side is none.
    pub open spec fn below(self, other: Float) -> bool {
        !self.is_nan() && !other.is_nan() && self.value() < other.value()
    }

    /// The same number with the other sign.
    pub open spec fn negated(self) -> Float {
        if self.negative() {
            Float { bits: (self.bits - SIGN) as u32 }
        } else {
            Float { bits: (self.bits + SIGN) as u32 }
        }
    }

    /// Positive infinity.
    pub fn infinity() -> (r: Float)
        ensures
            r.bits == INFINITE,
    {
        Float { bits: INFINITE }
    }

    /// Whether this is a finite number.
    pub fn is_finite(self) -> (r: bool)
        ensures
            r == self.finite(),
    {
        self.bits % SIGN < INFINITE
    }

    /// Whether `self < other`.
    pub fn less(self, other: Float) -> (r: bool)
        ensures
            r == self.below(other),
    {
        let a: i64 = (self.bits % SIGN) as i64;
        let b: i64 = (other.bits % SIGN) as i64;
        if a > INFINITE as i64 || b > INFINITE as i64 {
            return false;
        }
        let x: i64 = if self.bits >= SIGN { -a } else { a };
        let y: i64 = if other.bits >= SIGN { -b } else { b };
        x < y
    }

    /// The place in the total order over all patterns.
    pub fn total_rank(self) -> (r: i64)
        ensures
            r == self.rank(),
    {
        let a: i64 = (self.bits % SIGN) as i64;
        if self.bits >= SIGN {
            -1 - a
        } else {
            a
        }
    }

    /// The number with its sign flipped.
    pub fn negate(self) -> (r: Float)
        ensures
            r == self.negated(),
    {
        if self.bits >= SIGN {
            Float { bits: self.bits - SIGN }
        } else {
            Float { bits: self.bits + SIGN }
        }
    }
}

/// The total order refines the comparison of numbers: what comes earlier in it
/// is never the larger number, and what is smaller as a number comes earlier.
pub proof fn law_total_order_refines_comparison(a: Float, b: Float)
    ensures
        a.rank() <= b.rank() ==> !b.below(a),
        a.below(b) ==> a.rank() < b.rank(),
        a.rank() == b.rank() <==> a == b,
{
}

/// Negating a number flips its sign bit, and turns the order of numbers round.
pub proof fn law_negation_flips_the_sign_bit(a: Float)
    ensures
        a.negated().bits == a.bits ^ 0x8000_0000,
        a.negated().negated() == a,
        forall|b: Float| #[trigger] a.negated().below(b.negated()) <==> b.below(a),
{
    let x = a.bits;
    assert(x >= 0x8000_0000u32 ==> x ^ 0x8000_0000u32 == (x - 0x8000_0000u32) as u32)
        by (bit_vector);
    assert(x < 0x8000_0000u32 ==> x ^ 0x8000_0000u32 == (x + 0x8000_0000u32) as u32)
        by (bit_vector);
    assert(a.negated().value() == -a.value() && a.negated().magnitude() == a.magnitude());
    assert forall|b: Float| #[trigger] a.negated().below(b.negated()) <==> b.below(a) by {
        assert(b.negated().value() == -b.value() && b.negated().magnitude() == b.magnitude());
    }
}

/// A pattern stands for a finite number just if its eight exponent bits are not all
/// set, and for no number just if they are and the fraction is not zero.
pub proof fn law_exponent_tells_what_is_finite(a: Float)
    ensures
        a.finite() <==> a.bits & 0x7F80_0000 != 0x7F80_0000,
        a.is_nan() <==> a.bits & 0x7F80_0000 == 0x7F80_0000 && a.bits & 0x007F_FFFF != 0,
{
    let x = a.bits;
    assert((x % 0x8000_0000u32 < 0x7F80_0000u32) <==> x & 0x7F80_0000u32 != 0x7F80_0000u32)
        by (bit_vector);
    assert((x % 0x8000_0000u32 > 0x7F80_0000u32) <==> x & 0x7F80_0000u32 == 0x7F80_0000u32 && x
        & 0x007F_FFFFu32 != 0) by (bit_vector);
}

/// Numbers compare by sign and then by size: a negative number is below a positive
/// one, of two positive ones the one with the smaller pattern is the smaller, and of
/// two negative ones the one with the larger pattern. The two zeros are equal.
pub proof fn law_numbers_compare_by_sign_and_size(a: Float, b: Float)
    requires
        !a.is_nan(),
        !b.is_nan(),
    ensures
        a.bits < 0x8000_0000 && b.bits < 0x8000_0000 ==> (a.below(b) <==> a.bits < b.bits),
        a.bits >= 0x8000_0000 && b.bits >= 0x8000_0000 ==> (a.below(b) <==> b.bits < a.bits),
        a.bits >= 0x8000_0000 && b.bits < 0x8000_0000 ==> (a.below(b) <==> !(a.bits == 0x8000_0000
            && b.bits == 0)) && !b.below(a),
{
}

/// The comparison of numbers is strict, transitive and, among numbers, tells any
/// two apart that differ.
pub proof fn law_comparison_is_an_order(a: Float, b: Float, c: Float)
    ensures
        !a.below(a),
        a.below(b) ==> !b.below(a),
        a.below(b) && b.below(c) ==> a.below(c),
        a.is_nan() ==> !a.below(b) && !b.below(a),
        !a.is_nan() && !b.is_nan() && !a.below(b) && !b.below(a) ==> a == b || (a.bits
            % 0x8000_0000 == 0 && b.bits % 0x8000_0000 == 0),
{
}

/// One piece of arithmetic that the engine asks for.
pub enum Operation<'a> {
    /// The dot product of two vectors of equal length.
    Dot(&'a [Float], &'a [Float]),
    /// The squared Euclidean distance of two vectors of equal length.
    SquaredDistance(&'a [Float], &'a [Float]),
    /// The difference of two numbers.
    Subtract(Float, Float),
    /// The quotient of two numbers.
    Divide(Float, Float),
    /// The square root of a number.
    SquareRoot(Float),
}

impl<'a> Operation<'a> {
    /// Whether the operands fit together.
    pub open spec fn proper(self) -> bool {
        match self {
            Operation::Dot(a, b) => a@.len() == b@.len(),
            Operation::SquaredDistance(a, b) => a@.len() == b@.len(),
            _ => true,
        }
    }
}

/// Whether `arith` accepts every operation whose operands fit together.
pub open spec fn computes<A: Fn(Operation<'_>) -> Float>(arith: A) -> bool {
    forall|op: Operation<'_>| #[trigger] op.proper() ==> call_requires(arith, (op,))
}

/// Whether `arith` has a single answer to each operation.
pub open spec fn deterministic<A: Fn(Operation<'_>) -> Float>(arith: A) -> bool {
    &&& forall|a: Seq<Float>, b: Seq<Float>, r: Float, s: Float|
        #[trigger] gives_dot(arith, a, b, r) && #[trigger] gives_dot(arith, a, b, s) ==> r == s
    &&& forall|a: Seq<Float>, b: Seq<Float>, r: Float, s: Float|
        #[trigger] gives_squared_distance(arith, a, b, r) && #[trigger] gives_squared_distance(
            arith,
            a,
            b,
            s,
        ) ==> r == s
    &&& forall|a: Float, b: Float, r: Float, s: Float|
        #[trigger] gives_difference(arith, a, b, r) && #[trigger] gives_difference(arith, a, b, s)
            ==> r == s
    &&& forall|a: Float, b: Float, r: Float, s: Float|
        #[trigger] gives_quotient(arith, a, b, r) && #[trigger] gives_quotient(arith, a, b, s)
            ==> r == s
    &&& forall|a: Float, r: Float, s: Float|
        #[trigger] gives_root(arith, a, r) && #[trigger] gives_root(arith, a, s) ==> r == s
}

/// Whether `arith` may answer `r` for the dot product of `a` and `b`.
pub open spec fn gives_dot<A: Fn(Operation<'_>) -> Float>(
    arith: A,
    a: Seq<Float>,
    b: Seq<Float>,
    r: Float,
) -> bool {
    exists|x: &[Float], y: &[Float]|
        x@ == a && y@ == b && #[trigger] call_ensures(arith, (Operation::Dot(x, y),), r)
}

/// Whether `arith` may answer `r` for the squared distance of `a` and `b`.
pub open spec fn gives_squared_distance<A: Fn(Operation<'_>) -> Float>(
    arith: A,
    a: Seq<Float>,
    b: Seq<Float>,
    r: Float,
) -> bool {
    exists|x: &[Float], y: &[Float]|
        x@ == a && y@ == b && #[trigger] call_ensures(arith, (Operation::SquaredDistance(x, y),), r)
}

/// Whether `arith` may answer `r` for `a - b`.
pub open spec fn gives_difference<A: Fn(Operation<'_>) -> Float>(
    arith: A,
    a: Float,
    b: Float,
    r: Float,
) -> bool {
    call_ensures(arith, (Operation::Subtract(a, b),), r)
}

/// Whether `arith` may answer `r` for `a / b`.
pub open spec fn gives_quotient<A: Fn(Operation<'_>) -> Float>(
    arith: A,
    a: Float,
    b: Float,
    r: Float,
) -> bool {
    call_ensures(arith, (Operation::Divide(a, b),), r)
}

/// Whether `arith` may answer `r` for the square root of `a`.
pub open spec fn gives_root<A: Fn(Operation<'_>) -> Float>(arith: A, a: Float, r: Float) -> bool {
    call_ensures(arith, (Operation::SquareRoot(a),), r)
}

/// In the total order the patterns that are no number come at the two ends, by their
/// sign, and the negative zero comes just before the positive one.
pub proof fn law_total_order_has_no_numbers_at_the_ends(a: Float, b: Float)
    ensures
        a.is_nan() && a.bits < 0x8000_0000 && !b.is_nan() ==> b.rank() < a.rank(),
        a.is_nan() && a.bits >= 0x8000_0000 && !b.is_nan() ==> a.rank() < b.rank(),
        (Float { bits: 0x8000_0000 }).rank() + 1 == (Float { bits: 0 }).rank(),
{
}

} // verus!
