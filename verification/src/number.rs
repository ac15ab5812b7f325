//! Optional scalars: a value that is either defined or undefined.

use vstd::prelude::*;

verus! {

/// A scalar that is either a defined value or undefined.
///
/// Undefined values arise when a dimension cannot be resolved (for
/// example a percentage of an unknown parent size).  Arithmetic
/// propagates `Undefined`; taking the larger or smaller of a value and
/// `Undefined` yields the value; clamping by an `Undefined` bound is a
/// no-op.
#[derive(Clone, Copy, Debug, PartialEq, Eq, Structural)]
pub enum Number {
    Defined(i64),
    Undefined,
}

impl Number {
    /// True when the scalar carries a value.
    pub open spec fn is_defined(self) -> bool {
        self is Defined
    }

    /// The carried value; zero for `Undefined`.
    pub open spec fn val(self) -> int {
        match self {
            Number::Defined(v) => v as int,
            Number::Undefined => 0,
        }
    }

    /// What [`Number::plus`] returns.
    pub open spec fn spec_plus(self, other: Number) -> Number {
        if self is Defined && other is Defined {
            Number::Defined((self.val() + other.val()) as i64)
        } else {
            Number::Undefined
        }
    }

    /// The sum of two scalars; adding anything to `Undefined` yields
    /// `Undefined`.
    pub fn plus(self, other: Number) -> (r: Number)
        requires
            self is Defined && other is Defined ==> i64::MIN <= self.val() + other.val() <= i64::MAX,
        ensures
            r == self.spec_plus(other),
    {
        match (self, other) {
            (Number::Defined(a), Number::Defined(b)) => Number::Defined(a + b),
            _ => Number::Undefined,
        }
    }

    /// What [`Number::max_with`] returns.
    pub open spec fn spec_max_with(self, other: Number) -> Number {
        match (self, other) {
            (Number::Defined(a), Number::Defined(b)) => Number::Defined(
                if a >= b {
                    a
                } else {
                    b
                },
            ),
            (Number::Defined(a), Number::Undefined) => Number::Defined(a),
            (Number::Undefined, b) => b,
        }
    }

    /// The larger of two scalars; comparing against `Undefined` yields
    /// the other operand.
    pub fn max_with(self, other: Number) -> (r: Number)
        ensures
            r == self.spec_max_with(other),
    {
        match (self, other) {
            (Number::Defined(a), Number::Defined(b)) => Number::Defined(
                if a >= b {
                    a
                } else {
                    b
                },
            ),
            (Number::Defined(a), Number::Undefined) => Number::Defined(a),
            (Number::Undefined, b) => b,
        }
    }

    /// What [`Number::min_with`] returns.
    pub open spec fn spec_min_with(self, other: Number) -> Number {
        match (self, other) {
            (Number::Defined(a), Number::Defined(b)) => Number::Defined(
                if a <= b {
                    a
                } else {
                    b
                },
            ),
            (Number::Defined(a), Number::Undefined) => Number::Defined(a),
            (Number::Undefined, b) => b,
        }
    }

    /// The smaller of two scalars; comparing against `Undefined` yields
    /// the other operand.
    pub fn min_with(self, other: Number) -> (r: Number)
        ensures
            r == self.spec_min_with(other),
    {
        match (self, other) {
            (Number::Defined(a), Number::Defined(b)) => Number::Defined(
                if a <= b {
                    a
                } else {
                    b
                },
            ),
            (Number::Defined(a), Number::Undefined) => Number::Defined(a),
            (Number::Undefined, b) => b,
        }
    }

    /// What [`Number::clamped`] returns: the lower bound is applied
    /// first, then the upper bound; an `Undefined` bound is a no-op and
    /// an `Undefined` value stays undefined.
    pub open spec fn spec_clamped(self, lo: Number, hi: Number) -> Number {
        match self {
            Number::Undefined => Number::Undefined,
            Number::Defined(v) => {
                let raised = if lo is Defined && (v as int) < lo.val() {
                    lo.val()
                } else {
                    v as int
                };
                let lowered = if hi is Defined && raised > hi.val() {
                    hi.val()
                } else {
                    raised
                };
                Number::Defined(lowered as i64)
            },
        }
    }

    /// The value clamped between two optional bounds.
    pub fn clamped(self, lo: Number, hi: Number) -> (r: Number)
        ensures
            r == self.spec_clamped(lo, hi),
    {
        match self {
            Number::Undefined => Number::Undefined,
            Number::Defined(_) => self.max_with(lo).min_with(hi),
        }
    }
}

} // verus!
