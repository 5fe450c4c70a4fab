//! Univariate polynomials in dense coefficient form, lowest degree first.

use crate::field::{field_add, field_mul, Fe};
use vstd::prelude::*;

verus! {

/// Coefficient `i` of a polynomial; zero outside the coefficients it holds.
pub open spec fn coefficient_at(coefficients: Seq<nat>, i: int) -> nat {
    if 0 <= i < coefficients.len() {
        coefficients[i]
    } else {
        0
    }
}

/// The value of a polynomial at `x`, by Horner's rule.
pub open spec fn poly_eval(coefficients: Seq<nat>, x: nat) -> nat
    decreases coefficients.len(),
{
    if coefficients.len() == 0 {
        0
    } else {
        field_add(coefficients[0], field_mul(x, poly_eval(coefficients.skip(1), x)))
    }
}

/// The sum of two polynomials; it has as many coefficients as the longer one.
pub open spec fn poly_add(p: Seq<nat>, q: Seq<nat>) -> Seq<nat> {
    Seq::new(
        if p.len() >= q.len() {
            p.len()
        } else {
            q.len()
        },
        |i: int| field_add(coefficient_at(p, i), coefficient_at(q, i)),
    )
}

/// The product of a polynomial and the linear polynomial `c0 + c1 * X`.
pub open spec fn poly_mul_linear(p: Seq<nat>, c0: nat, c1: nat) -> Seq<nat> {
    Seq::new(
        p.len() + 1,
        |i: int| field_add(field_mul(c0, coefficient_at(p, i)), field_mul(c1, coefficient_at(p, i - 1))),
    )
}

/// A polynomial in one variable; `coefficient[i]` belongs to the power `i`.
#[derive(Clone, Debug, PartialEq, Eq)]
pub struct UnivariatePoly {
    pub coefficient: Vec<Fe>,
}

impl View for UnivariatePoly {
    type V = Seq<nat>;

    /// The values of the coefficients.
    open spec fn view(&self) -> Seq<nat> {
        self.coefficient.deep_view()
    }
}

impl DeepView for UnivariatePoly {
    type V = Seq<nat>;

    open spec fn deep_view(&self) -> Seq<nat> {
        self.coefficient.deep_view()
    }
}

impl UnivariatePoly {
    /// The polynomial with the given coefficients.
    pub fn new(coefficient: Vec<Fe>) -> (poly: UnivariatePoly)
        ensures
            poly.coefficient == coefficient,
    {
        UnivariatePoly { coefficient }
    }

    /// The value of the polynomial at `x`.
    pub fn evaluate(&self, x: Fe) -> (value: Fe)
        ensures
            value@ == poly_eval(self@, x@),
    {
        let mut value = Fe::zero();
        let mut i: usize = self.coefficient.len();
        proof {
            assert(self@.skip(i as int).len() == 0);
        }
        while i > 0
            invariant
                i <= self.coefficient.len(),
                value@ == poly_eval(self@.skip(i as int), x@),
            decreases i,
        {
            i = i - 1;
            proof {
                let tail = self@.skip(i as int);
                assert(tail[0] == self.coefficient@[i as int]@);
                assert(tail.skip(1) =~= self@.skip(i + 1));
            }
            value = self.coefficient[i].add(x.mul(value));
        }
        proof {
            assert(self@.skip(0) =~= self@);
        }
        value
    }

    /// The sum of two polynomials.
    pub fn add(&self, other: &UnivariatePoly) -> (sum: UnivariatePoly)
        ensures
            sum@ == poly_add(self@, other@),
    {
        let n = if self.coefficient.len() >= other.coefficient.len() {
            self.coefficient.len()
        } else {
            other.coefficient.len()
        };
        let mut sum: Vec<Fe> = Vec::new();
        let mut i: usize = 0;
        while i < n
            invariant
                i <= n,
                n >= self.coefficient.len(),
                n >= other.coefficient.len(),
                sum.len() == i,
                forall|k: int|
                    0 <= k < i ==> (#[trigger] sum@[k])@ == field_add(
                        coefficient_at(self@, k),
                        coefficient_at(other@, k),
                    ),
            decreases n - i,
        {
            let a = if i < self.coefficient.len() {
                self.coefficient[i]
            } else {
                Fe::zero()
            };
            let b = if i < other.coefficient.len() {
                other.coefficient[i]
            } else {
                Fe::zero()
            };
            sum.push(a.add(b));
            i = i + 1;
        }
        proof {
            assert(sum.deep_view() =~= poly_add(self@, other@));
        }
        UnivariatePoly { coefficient: sum }
    }

    /// The product of the polynomial and `c0 + c1 * X`.
    pub fn mul_linear(&self, c0: Fe, c1: Fe) -> (product: UnivariatePoly)
        requires
            self.coefficient.len() < usize::MAX,
        ensures
            product@ == poly_mul_linear(self@, c0@, c1@),
    {
        let n = self.coefficient.len();
        let mut product: Vec<Fe> = Vec::new();
        let mut i: usize = 0;
        while i <= n
            invariant
                i <= n + 1,
                n == self.coefficient.len(),
                n < usize::MAX,
                product.len() == i,
                forall|k: int|
                    0 <= k < i ==> (#[trigger] product@[k])@ == field_add(
                        field_mul(c0@, coefficient_at(self@, k)),
                        field_mul(c1@, coefficient_at(self@, k - 1)),
                    ),
            decreases n + 1 - i,
        {
            let at = if i < n {
                self.coefficient[i]
            } else {
                Fe::zero()
            };
            let before = if i > 0 {
                self.coefficient[i - 1]
            } else {
                Fe::zero()
            };
            product.push(c0.mul(at).add(c1.mul(before)));
            i = i + 1;
        }
        proof {
            assert(product.deep_view() =~= poly_mul_linear(self@, c0@, c1@));
        }
        UnivariatePoly { coefficient: product }
    }
}

} // verus!
