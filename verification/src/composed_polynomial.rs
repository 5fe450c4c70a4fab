//! Sums of products of multilinear polynomials over the same variables.

use crate::field::{field_add, field_mul, Fe};
use crate::multilinear::{bind_variable, copy_table, evaluate_at, MultilinearPoly};
use vstd::arithmetic::power2::pow2;
use vstd::prelude::*;

verus! {

/// The value at `point` of the product of the polynomials with tables `factors`.
pub open spec fn product_eval(factors: Seq<Seq<nat>>, point: Seq<nat>) -> nat
    decreases factors.len(),
{
    if factors.len() == 0 {
        1
    } else {
        field_mul(product_eval(factors.drop_last(), point), evaluate_at(factors.last(), point))
    }
}

/// The value at `point` of the sum of the given products.
pub open spec fn sum_eval(products: Seq<Seq<Seq<nat>>>, point: Seq<nat>) -> nat
    decreases products.len(),
{
    if products.len() == 0 {
        0
    } else {
        field_add(sum_eval(products.drop_last(), point), product_eval(products.last(), point))
    }
}

/// The most factors that one of the products has.
pub open spec fn max_factors(products: Seq<Seq<Seq<nat>>>) -> nat
    decreases products.len(),
{
    if products.len() == 0 {
        0
    } else if products.last().len() > max_factors(products.drop_last()) {
        products.last().len()
    } else {
        max_factors(products.drop_last())
    }
}

/// Every factor of the product has a table of `len` entries.
pub open spec fn factors_have_len(factors: Seq<Seq<nat>>, len: nat) -> bool {
    forall|k: int| 0 <= k < factors.len() ==> (#[trigger] factors[k]).len() == len
}

/// Every factor of every product has a table of `len` entries.
pub open spec fn products_have_len(products: Seq<Seq<Seq<nat>>>, len: nat) -> bool {
    forall|k: int| 0 <= k < products.len() ==> factors_have_len(#[trigger] products[k], len)
}

/// Each factor with the variable of weight `stride` bound to `x`.
pub open spec fn bind_factors(factors: Seq<Seq<nat>>, stride: nat, x: nat) -> Seq<Seq<nat>> {
    Seq::new(factors.len(), |k: int| bind_variable(factors[k], stride, x))
}

/// Each product with the variable of weight `stride` bound to `x`.
pub open spec fn bind_products(products: Seq<Seq<Seq<nat>>>, stride: nat, x: nat) -> Seq<
    Seq<Seq<nat>>,
> {
    Seq::new(products.len(), |k: int| bind_factors(products[k], stride, x))
}

/// A product of multilinear polynomials over the same variables.
#[derive(Clone, Debug, PartialEq, Eq)]
pub struct ProductPoly {
    pub polys: Vec<MultilinearPoly>,
}

impl View for ProductPoly {
    type V = Seq<Seq<nat>>;

    /// The tables of the factors.
    open spec fn view(&self) -> Seq<Seq<nat>> {
        self.polys.deep_view()
    }
}

impl DeepView for ProductPoly {
    type V = Seq<Seq<nat>>;

    open spec fn deep_view(&self) -> Seq<Seq<nat>> {
        self.polys.deep_view()
    }
}

impl ProductPoly {
    /// The product of the polynomials with the given tables.
    pub fn new(evaluations: Vec<Vec<Fe>>) -> (product: ProductPoly)
        ensures
            product@ == evaluations.deep_view(),
    {
        let mut polys: Vec<MultilinearPoly> = Vec::new();
        let mut k: usize = 0;
        while k < evaluations.len()
            invariant
                k <= evaluations.len(),
                polys.len() == k,
                forall|i: int| 0 <= i < k ==> (#[trigger] polys@[i])@ == evaluations@[i].deep_view(),
            decreases evaluations.len() - k,
        {
            let table = copy_table(&evaluations[k]);
            proof {
                assert(table.deep_view() =~= evaluations@[k as int].deep_view());
            }
            polys.push(MultilinearPoly::new(table));
            k = k + 1;
        }
        proof {
            assert(polys.deep_view() =~= evaluations.deep_view());
        }
        ProductPoly { polys }
    }

    /// The number of factors, which bounds the degree in each variable.
    pub fn degree(&self) -> (d: usize)
        ensures
            d == self@.len(),
    {
        proof {
            assert(self.polys.deep_view().len() == self.polys@.len());
        }
        self.polys.len()
    }

    /// The value of the product at `point`.
    pub fn evaluate(&self, point: &[Fe]) -> (value: Fe)
        requires
            factors_have_len(self@, pow2(point.len() as nat)),
        ensures
            value@ == product_eval(self@, point.deep_view()),
    {
        let mut value = Fe::one();
        let mut k: usize = 0;
        proof {
            assert(self@.take(0).len() == 0);
        }
        while k < self.polys.len()
            invariant
                k <= self.polys.len(),
                factors_have_len(self@, pow2(point.len() as nat)),
                value@ == product_eval(self@.take(k as int), point.deep_view()),
            decreases self.polys.len() - k,
        {
            proof {
                assert(self@[k as int] == self.polys@[k as int]@);
                let done = self@.take(k + 1);
                assert(done.drop_last() =~= self@.take(k as int));
                assert(done.last() == self.polys@[k as int]@);
            }
            let factor = self.polys[k].evaluate(point);
            value = value.mul(factor);
            k = k + 1;
        }
        proof {
            assert(self@.take(k as int) =~= self@);
        }
        value
    }

    /// The product with the variable of weight `stride` bound to `x` in
    /// every factor.
    pub fn bind(&self, stride: usize, x: Fe) -> (product: ProductPoly)
        requires
            stride > 0,
            forall|k: int|
                0 <= k < self@.len() ==> (#[trigger] self@[k]).len() as int % (2 * stride) == 0,
        ensures
            product@ == bind_factors(self@, stride as nat, x@),
    {
        let mut polys: Vec<MultilinearPoly> = Vec::new();
        let mut k: usize = 0;
        while k < self.polys.len()
            invariant
                k <= self.polys.len(),
                stride > 0,
                forall|i: int|
                    0 <= i < self@.len() ==> (#[trigger] self@[i]).len() as int % (2 * stride)
                        == 0,
                polys.len() == k,
                forall|i: int|
                    0 <= i < k ==> (#[trigger] polys@[i])@ == bind_variable(
                        self@[i],
                        stride as nat,
                        x@,
                    ),
            decreases self.polys.len() - k,
        {
            proof {
                assert(self@[k as int] == self.polys@[k as int]@);
                assert(self@[k as int].len() == self.polys@[k as int].evaluation.len());
            }
            let table = crate::multilinear::bind(&self.polys[k].evaluation, stride, x);
            polys.push(MultilinearPoly::new(table));
            k = k + 1;
        }
        proof {
            assert(polys.deep_view() =~= bind_factors(self@, stride as nat, x@));
        }
        ProductPoly { polys }
    }
}

/// A sum of products of multilinear polynomials over the same variables.
#[derive(Clone, Debug, PartialEq, Eq)]
pub struct SumPoly {
    pub polys: Vec<ProductPoly>,
}

impl View for SumPoly {
    type V = Seq<Seq<Seq<nat>>>;

    /// The tables of the factors of each product.
    open spec fn view(&self) -> Seq<Seq<Seq<nat>>> {
        self.polys.deep_view()
    }
}

impl DeepView for SumPoly {
    type V = Seq<Seq<Seq<nat>>>;

    open spec fn deep_view(&self) -> Seq<Seq<Seq<nat>>> {
        self.polys.deep_view()
    }
}

impl SumPoly {
    /// The sum of the given products.
    pub fn new(polys: Vec<ProductPoly>) -> (sum: SumPoly)
        ensures
            sum.polys == polys,
    {
        SumPoly { polys }
    }

    /// The degree of the sum in each variable: the most factors that one of
    /// its products has.
    pub fn degree(&self) -> (d: usize)
        ensures
            d == max_factors(self@),
    {
        let mut d: usize = 0;
        let mut k: usize = 0;
        proof {
            assert(self@.take(0).len() == 0);
        }
        while k < self.polys.len()
            invariant
                k <= self.polys.len(),
                d == max_factors(self@.take(k as int)),
            decreases self.polys.len() - k,
        {
            proof {
                assert(self@[k as int] == self.polys@[k as int]@);
                let done = self@.take(k + 1);
                assert(done.drop_last() =~= self@.take(k as int));
                assert(done.last() == self.polys@[k as int]@);
            }
            let factors = self.polys[k].degree();
            if factors > d {
                d = factors;
            }
            k = k + 1;
        }
        proof {
            assert(self@.take(k as int) =~= self@);
        }
        d
    }

    /// The value of the sum at `point`.
    pub fn evaluate(&self, point: &[Fe]) -> (value: Fe)
        requires
            products_have_len(self@, pow2(point.len() as nat)),
        ensures
            value@ == sum_eval(self@, point.deep_view()),
    {
        let mut value = Fe::zero();
        let mut k: usize = 0;
        proof {
            assert(self@.take(0).len() == 0);
        }
        while k < self.polys.len()
            invariant
                k <= self.polys.len(),
                products_have_len(self@, pow2(point.len() as nat)),
                value@ == sum_eval(self@.take(k as int), point.deep_view()),
            decreases self.polys.len() - k,
        {
            proof {
                assert(self@[k as int] == self.polys@[k as int]@);
                let done = self@.take(k + 1);
                assert(done.drop_last() =~= self@.take(k as int));
                assert(done.last() == self.polys@[k as int]@);
            }
            let term = self.polys[k].evaluate(point);
            value = value.add(term);
            k = k + 1;
        }
        proof {
            assert(self@.take(k as int) =~= self@);
        }
        value
    }

    /// The sum with the variable of weight `stride` bound to `x` in every
    /// factor of every product.
    pub fn bind(&self, stride: usize, x: Fe) -> (sum: SumPoly)
        requires
            stride > 0,
            forall|k: int, i: int|
                0 <= k < self@.len() && 0 <= i < self@[k].len() ==> (#[trigger] self@[k][i]).len() as int
                    % (2 * stride) == 0,
        ensures
            sum@ == bind_products(self@, stride as nat, x@),
    {
        let mut polys: Vec<ProductPoly> = Vec::new();
        let mut k: usize = 0;
        while k < self.polys.len()
            invariant
                k <= self.polys.len(),
                stride > 0,
                forall|k: int, i: int|
                    0 <= k < self@.len() && 0 <= i < self@[k].len() ==> (#[trigger] self@[k][i]).len() as int
                        % (2 * stride) == 0,
                polys.len() == k,
                forall|i: int|
                    0 <= i < k ==> (#[trigger] polys@[i])@ == bind_factors(
                        self@[i],
                        stride as nat,
                        x@,
                    ),
            decreases self.polys.len() - k,
        {
            proof {
                assert(self@[k as int] == self.polys@[k as int]@);
            }
            polys.push(self.polys[k].bind(stride, x));
            k = k + 1;
        }
        proof {
            assert(polys.deep_view() =~= bind_products(self@, stride as nat, x@));
        }
        SumPoly { polys }
    }
}

} // verus!
