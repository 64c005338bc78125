//! What the solver asks of the numbers that it moves around.
//!
//! Nothing here says how the numbers round: every result below is stated over
//! the operations of the number type in use. What only exact numbers have is
//! stated apart, as [`exact`].
use vstd::prelude::*;

verus! {

/// An amount of gas in moles. Each operation is a function of its operands,
/// which the spec function beside it names.
///
/// The spec functions have bodies so that a type outside the reach of the
/// verifier, such as one of floating point, can be a type of amounts, too. These
/// bodies are constants: a type that keeps them does not meet the `ensures` of
/// its operations, and nothing is proved of what the solver does with it.
pub trait Amount: Copy {
    /// What amounts are summed up in before their mean is taken.
    type Total: Copy;

    open spec fn spec_zero() -> Self {
        arbitrary()
    }

    open spec fn spec_from_count(n: u32) -> Self {
        arbitrary()
    }

    open spec fn spec_plus(self, other: Self) -> Self {
        arbitrary()
    }

    open spec fn spec_minus(self, other: Self) -> Self {
        arbitrary()
    }

    open spec fn spec_negate(self) -> Self {
        arbitrary()
    }

    open spec fn spec_magnitude(self) -> Self {
        arbitrary()
    }

    open spec fn spec_share(self, n: u32) -> Self {
        arbitrary()
    }

    open spec fn spec_lt(self, other: Self) -> bool {
        arbitrary()
    }

    open spec fn spec_le(self, other: Self) -> bool {
        arbitrary()
    }

    open spec fn spec_same(self, other: Self) -> bool {
        arbitrary()
    }

    open spec fn spec_total_zero() -> Self::Total {
        arbitrary()
    }

    open spec fn spec_total_plus(total: Self::Total, amount: Self) -> Self::Total {
        arbitrary()
    }

    open spec fn spec_mean(total: Self::Total, n: usize) -> Self {
        arbitrary()
    }

    open spec fn spec_log2_floor(n: usize) -> usize {
        arbitrary()
    }

    /// No gas at all.
    fn zero() -> (r: Self)
        ensures
            r == Self::spec_zero(),
    ;

    /// `n` moles.
    fn from_count(n: u32) -> (r: Self)
        ensures
            r == Self::spec_from_count(n),
    ;

    fn plus(self, other: Self) -> (r: Self)
        ensures
            r == self.spec_plus(other),
    ;

    fn minus(self, other: Self) -> (r: Self)
        ensures
            r == self.spec_minus(other),
    ;

    fn negate(self) -> (r: Self)
        ensures
            r == self.spec_negate(),
    ;

    /// The amount without its sign.
    fn magnitude(self) -> (r: Self)
        ensures
            r == self.spec_magnitude(),
    ;

    /// One of `n` equal shares.
    fn share(self, n: u32) -> (r: Self)
        requires
            n > 0,
        ensures
            r == self.spec_share(n),
    ;

    fn lt(self, other: Self) -> (r: bool)
        ensures
            r == self.spec_lt(other),
    ;

    fn le(self, other: Self) -> (r: bool)
        ensures
            r == self.spec_le(other),
    ;

    fn same(self, other: Self) -> (r: bool)
        ensures
            r == self.spec_same(other),
    ;

    fn total_zero() -> (r: Self::Total)
        ensures
            r == Self::spec_total_zero(),
    ;

    fn total_plus(total: Self::Total, amount: Self) -> (r: Self::Total)
        ensures
            r == Self::spec_total_plus(total, amount),
    ;

    /// The mean of `n` amounts that sum up to `total`.
    fn mean(total: Self::Total, n: usize) -> (r: Self)
        ensures
            r == Self::spec_mean(total, n),
    ;

    /// The binary logarithm of `n` in this type's arithmetic, rounded down.
    fn log2_floor(n: usize) -> (r: usize)
        ensures
            r == Self::spec_log2_floor(n),
    ;
}

/// `a` is above zero.
pub open spec fn above_zero<A: Amount>(a: A) -> bool {
    A::spec_zero().spec_lt(a)
}

/// `a` is below zero.
pub open spec fn below_zero<A: Amount>(a: A) -> bool {
    a.spec_lt(A::spec_zero())
}

/// Whether `a` is above zero.
pub(crate) fn is_above_zero<A: Amount>(a: A) -> (r: bool)
    ensures
        r == above_zero(a),
{
    A::zero().lt(a)
}

/// Whether `a` is below zero.
pub(crate) fn is_below_zero<A: Amount>(a: A) -> (r: bool)
    ensures
        r == below_zero(a),
{
    a.lt(A::zero())
}

/// The laws of a commutative group hold of `a`, `b` and `c`, and comparing for
/// equality tells `a` and `b` apart.
pub open spec fn adds_up<A: Amount>(a: A, b: A, c: A) -> bool {
    &&& a.spec_plus(b) == b.spec_plus(a)
    &&& a.spec_plus(b).spec_plus(c) == a.spec_plus(b.spec_plus(c))
    &&& a.spec_plus(A::spec_zero()) == a
    &&& a.spec_plus(a.spec_negate()) == A::spec_zero()
    &&& a.spec_minus(b) == a.spec_plus(b.spec_negate())
    &&& a.spec_same(b) == (a == b)
}

/// The order is total on `a`, `b` and `c`, and adding to both sides keeps it.
pub open spec fn order_kept<A: Amount>(a: A, b: A, c: A) -> bool {
    &&& a.spec_le(b) || b.spec_le(a)
    &&& a.spec_le(b) && b.spec_le(a) ==> a == b
    &&& a.spec_le(b) && b.spec_le(c) ==> a.spec_le(c)
    &&& a.spec_lt(b) == !b.spec_le(a)
    &&& a.spec_le(b) ==> a.spec_plus(c).spec_le(b.spec_plus(c))
}

/// Addition is exact, and keeps the order of amounts.
pub open spec fn ordered<A: Amount>() -> bool {
    exact::<A>() && forall|a: A, b: A, c: A| #[trigger] order_kept(a, b, c)
}

/// The amount is a number: it is the same as itself.
pub open spec fn is_number<A: Amount>(a: A) -> bool {
    a.spec_same(a)
}

/// `a` and `b` are the same, as far as they are numbers.
pub open spec fn alike<A: Amount>(a: A, b: A) -> bool {
    is_number(a) && is_number(b) ==> a.spec_same(b)
}

/// `a` is the negative of `b`, as far as they are numbers.
pub open spec fn opposed<A: Amount>(a: A, b: A) -> bool {
    is_number(a) && is_number(b) ==> a.spec_same(b.spec_negate())
}

/// The laws of signs hold of `a`, `b` and `x`. They hold of amounts in floating
/// point, too, though sums are rounded there, zero has two signs, and some sums
/// are no numbers.
pub open spec fn signs_agree<A: Amount>(a: A, b: A, x: A) -> bool {
    &&& opposed(A::spec_zero(), A::spec_zero())
    &&& opposed(a, b) ==> opposed(a.spec_plus(x), b.spec_minus(x)) && opposed(
        a.spec_minus(x),
        b.spec_plus(x),
    )
    &&& alike(a.spec_plus(x), a.spec_minus(x.spec_negate()))
    &&& alike(a.spec_minus(x), a.spec_plus(x.spec_negate()))
}

/// The laws of signs hold of all amounts.
pub open spec fn signed<A: Amount>() -> bool {
    forall|a: A, b: A, x: A| #[trigger] signs_agree(a, b, x)
}

/// Addition is exact: all amounts add up.
pub open spec fn exact<A: Amount>() -> bool {
    forall|a: A, b: A, c: A| #[trigger] adds_up(a, b, c)
}

} // verus!
