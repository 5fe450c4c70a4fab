//! The sum-check is complete: the verifier accepts what the prover sends for
//! the true sum of a polynomial over the boolean hypercube.

use crate::composed_polynomial::{
    bind_factors, bind_products, factors_have_len, product_eval, products_have_len, sum_eval,
};
use crate::field::{
    field_add, field_mul, field_sub, lemma_add_congruent, lemma_congruent_equal,
    lemma_congruent_refl, lemma_mul_congruent, lemma_sub_congruent, modulus,
};
use crate::multilinear::{bind_first, bind_variable, bound_entry, evaluate_at, low_index, variable_count};
use crate::sum_check::{
    lemma_bound_shape, product_line, product_round, prove_rounds, round_accepts, round_step,
    sum_round, summable, table_len, verify_rounds, MAX_ROUND_COEFFICIENTS,
};
use vstd::arithmetic::power2::{lemma2_to64, lemma_pow2_pos, lemma_pow2_unfold, pow2};
use crate::univariate::{coefficient_at, poly_add, poly_eval, poly_mul_linear};
use vstd::prelude::*;

verus! {

/// The value of a product of factors at the hypercube point of index `x`.
pub open spec fn product_at(factors: Seq<Seq<nat>>, x: int) -> nat
    decreases factors.len(),
{
    if factors.len() == 0 {
        1
    } else {
        field_mul(product_at(factors.drop_last(), x), factors.last()[x])
    }
}

/// The sum of a product of factors over the first `count` hypercube points.
pub open spec fn product_sum(factors: Seq<Seq<nat>>, count: nat) -> nat
    decreases count,
{
    if count == 0 {
        0
    } else {
        field_add(product_sum(factors, (count - 1) as nat), product_at(factors, count - 1))
    }
}

/// The sum of a sum of products over the first `count` hypercube points.
pub open spec fn cube_sum(products: Seq<Seq<Seq<nat>>>, count: nat) -> nat
    decreases products.len(),
{
    if products.len() == 0 {
        0
    } else {
        field_add(cube_sum(products.drop_last(), count), product_sum(products.last(), count))
    }
}

/// `(a + b) + r * (x + y) = (a + r * x) + (b + r * y)` in the field.
proof fn lemma_horner_add(a: nat, b: nat, r: nat, x: nat, y: nat)
    ensures
        field_add(field_add(a, b), field_mul(r, field_add(x, y))) == field_add(
            field_add(a, field_mul(r, x)),
            field_add(b, field_mul(r, y)),
        ),
{
    let (ai, bi, ri, xi, yi) = (a as int, b as int, r as int, x as int, y as int);
    lemma_congruent_refl(ai);
    lemma_congruent_refl(bi);
    lemma_congruent_refl(ri);
    lemma_congruent_refl(xi);
    lemma_congruent_refl(yi);
    let ab = field_add(a, b);
    let xy = field_add(x, y);
    let rxy = field_mul(r, xy);
    let left = field_add(ab, rxy);
    lemma_add_congruent(a, b, ai, bi);
    lemma_add_congruent(x, y, xi, yi);
    lemma_mul_congruent(r, xy, ri, xi + yi);
    lemma_add_congruent(ab, rxy, ai + bi, ri * (xi + yi));
    let rx = field_mul(r, x);
    let ry = field_mul(r, y);
    let arx = field_add(a, rx);
    let bry = field_add(b, ry);
    let right = field_add(arx, bry);
    lemma_mul_congruent(r, x, ri, xi);
    lemma_mul_congruent(r, y, ri, yi);
    lemma_add_congruent(a, rx, ai, ri * xi);
    lemma_add_congruent(b, ry, bi, ri * yi);
    lemma_add_congruent(arx, bry, ai + ri * xi, bi + ri * yi);
    assert((ai + bi) + ri * (xi + yi) == (ai + ri * xi) + (bi + ri * yi)) by (nonlinear_arith);
    lemma_congruent_equal(left, right, (ai + bi) + ri * (xi + yi));
}

/// `0 + r * 0 = 0` in the field.
proof fn lemma_horner_zero(r: nat)
    ensures
        field_add(0, field_mul(r, 0)) == 0,
{
    let ri = r as int;
    lemma_congruent_refl(ri);
    lemma_congruent_refl(0);
    lemma_mul_congruent(r, 0, ri, 0);
    lemma_add_congruent(0, field_mul(r, 0), 0, ri * 0);
    assert(0 + ri * 0 == 0) by (nonlinear_arith);
    lemma_congruent_equal(field_add(0, field_mul(r, 0)), 0, 0);
}

/// The value of a polynomial is its lowest coefficient plus `r` times the
/// value of the rest; for the empty polynomial both are zero.
proof fn lemma_eval_unfold(p: Seq<nat>, r: nat)
    ensures
        poly_eval(p, r) == field_add(
            coefficient_at(p, 0),
            field_mul(
                r,
                poly_eval(
                    if p.len() > 0 {
                        p.skip(1)
                    } else {
                        p
                    },
                    r,
                ),
            ),
        ),
{
    if p.len() == 0 {
        lemma_horner_zero(r);
    }
}

/// The value of a sum of polynomials is the sum of their values.
pub proof fn lemma_eval_add(p: Seq<nat>, q: Seq<nat>, r: nat)
    ensures
        poly_eval(poly_add(p, q), r) == field_add(poly_eval(p, r), poly_eval(q, r)),
    decreases p.len() + q.len(),
{
    let s = poly_add(p, q);
    if p.len() == 0 && q.len() == 0 {
        lemma_congruent_refl(0);
        lemma_add_congruent(0, 0, 0, 0);
        lemma_congruent_equal(field_add(0, 0), 0, 0);
    } else {
        let p1 = if p.len() > 0 {
            p.skip(1)
        } else {
            p
        };
        let q1 = if q.len() > 0 {
            q.skip(1)
        } else {
            q
        };
        assert(s.skip(1) =~= poly_add(p1, q1));
        lemma_eval_add(p1, q1, r);
        lemma_eval_unfold(p, r);
        lemma_eval_unfold(q, r);
        lemma_horner_add(
            coefficient_at(p, 0),
            coefficient_at(q, 0),
            r,
            poly_eval(p1, r),
            poly_eval(q1, r),
        );
    }
}

/// `(c0 * p0 + c1 * 0) + r * (e * (c0 + c1 * r) + c1 * p0) = (p0 + r * e) * (c0 + c1 * r)`
/// in the field.
proof fn lemma_mul_linear_step(c0: nat, c1: nat, p0: nat, r: nat, e: nat)
    ensures
        field_add(
            field_add(field_mul(c0, p0), field_mul(c1, 0)),
            field_mul(
                r,
                field_add(field_mul(e, field_add(c0, field_mul(c1, r))), field_mul(c1, p0)),
            ),
        ) == field_mul(field_add(p0, field_mul(r, e)), field_add(c0, field_mul(c1, r))),
{
    let (c0i, c1i, p0i, ri, ei) = (c0 as int, c1 as int, p0 as int, r as int, e as int);
    lemma_congruent_refl(c0i);
    lemma_congruent_refl(c1i);
    lemma_congruent_refl(p0i);
    lemma_congruent_refl(ri);
    lemma_congruent_refl(ei);
    lemma_congruent_refl(0);
    let line = field_add(c0, field_mul(c1, r));
    lemma_mul_congruent(c1, r, c1i, ri);
    lemma_add_congruent(c0, field_mul(c1, r), c0i, c1i * ri);
    let li = c0i + c1i * ri;
    // The left side.
    lemma_mul_congruent(c0, p0, c0i, p0i);
    lemma_mul_congruent(c1, 0, c1i, 0);
    let low = field_add(field_mul(c0, p0), field_mul(c1, 0));
    lemma_add_congruent(field_mul(c0, p0), field_mul(c1, 0), c0i * p0i, c1i * 0);
    lemma_mul_congruent(e, line, ei, li);
    lemma_mul_congruent(c1, p0, c1i, p0i);
    let inner = field_add(field_mul(e, line), field_mul(c1, p0));
    lemma_add_congruent(field_mul(e, line), field_mul(c1, p0), ei * li, c1i * p0i);
    lemma_mul_congruent(r, inner, ri, ei * li + c1i * p0i);
    let left = field_add(low, field_mul(r, inner));
    lemma_add_congruent(
        low,
        field_mul(r, inner),
        c0i * p0i + c1i * 0,
        ri * (ei * li + c1i * p0i),
    );
    // The right side.
    lemma_mul_congruent(r, e, ri, ei);
    let value = field_add(p0, field_mul(r, e));
    lemma_add_congruent(p0, field_mul(r, e), p0i, ri * ei);
    let right = field_mul(value, line);
    lemma_mul_congruent(value, line, p0i + ri * ei, li);
    assert(c0i * p0i + c1i * 0 + ri * (ei * li + c1i * p0i) == (p0i + ri * ei) * li)
        by (nonlinear_arith)
        requires
            li == c0i + c1i * ri,
    ;
    lemma_congruent_equal(left, right, (p0i + ri * ei) * li);
}

/// `(x + y) + t = ((x + z) + t) + y` in the field, where `z` is zero.
proof fn lemma_shift_lowest(x: nat, y: nat, c: nat, t: nat)
    ensures
        field_add(field_add(x, y), t) == field_add(
            field_add(field_add(x, field_mul(c, 0)), t),
            y,
        ),
{
    let (xi, yi, ci, ti) = (x as int, y as int, c as int, t as int);
    lemma_congruent_refl(xi);
    lemma_congruent_refl(yi);
    lemma_congruent_refl(ci);
    lemma_congruent_refl(ti);
    lemma_congruent_refl(0);
    lemma_add_congruent(x, y, xi, yi);
    let left = field_add(field_add(x, y), t);
    lemma_add_congruent(field_add(x, y), t, xi + yi, ti);
    lemma_mul_congruent(c, 0, ci, 0);
    lemma_add_congruent(x, field_mul(c, 0), xi, ci * 0);
    lemma_add_congruent(field_add(x, field_mul(c, 0)), t, xi + ci * 0, ti);
    let right = field_add(field_add(field_add(x, field_mul(c, 0)), t), y);
    lemma_add_congruent(field_add(field_add(x, field_mul(c, 0)), t), y, xi + ci * 0 + ti, yi);
    assert(xi + yi + ti == xi + ci * 0 + ti + yi) by (nonlinear_arith);
    lemma_congruent_equal(left, right, xi + yi + ti);
}

/// `0 * x = 0` in the field.
proof fn lemma_zero_mul(x: nat)
    ensures
        field_mul(0, x) == 0,
{
    let xi = x as int;
    lemma_congruent_refl(xi);
    lemma_congruent_refl(0);
    lemma_mul_congruent(0, x, 0, xi);
    assert(0 * xi == 0) by (nonlinear_arith);
    lemma_congruent_equal(field_mul(0, x), 0, 0);
}

/// `(c0 * 0 + c1 * 0) + r * 0 = 0` in the field.
proof fn lemma_mul_linear_empty(c0: nat, c1: nat, r: nat)
    ensures
        field_add(field_add(field_mul(c0, 0), field_mul(c1, 0)), field_mul(r, 0)) == 0,
{
    let (c0i, c1i, ri) = (c0 as int, c1 as int, r as int);
    lemma_congruent_refl(c0i);
    lemma_congruent_refl(c1i);
    lemma_congruent_refl(ri);
    lemma_congruent_refl(0);
    lemma_mul_congruent(c0, 0, c0i, 0);
    lemma_mul_congruent(c1, 0, c1i, 0);
    lemma_mul_congruent(r, 0, ri, 0);
    lemma_add_congruent(field_mul(c0, 0), field_mul(c1, 0), c0i * 0, c1i * 0);
    let low = field_add(field_mul(c0, 0), field_mul(c1, 0));
    lemma_add_congruent(low, field_mul(r, 0), c0i * 0 + c1i * 0, ri * 0);
    assert(c0i * 0 + c1i * 0 + ri * 0 == 0) by (nonlinear_arith);
    lemma_congruent_equal(field_add(low, field_mul(r, 0)), 0, 0);
}

/// The value of the product of a polynomial and `c0 + c1 * X` is the product
/// of their values.
pub proof fn lemma_eval_mul_linear(p: Seq<nat>, c0: nat, c1: nat, r: nat)
    ensures
        poly_eval(poly_mul_linear(p, c0, c1), r) == field_mul(
            poly_eval(p, r),
            field_add(c0, field_mul(c1, r)),
        ),
    decreases p.len(),
{
    let m = poly_mul_linear(p, c0, c1);
    let line = field_add(c0, field_mul(c1, r));
    let u = m.skip(1);
    assert(m[0] == field_add(field_mul(c0, coefficient_at(p, 0)), field_mul(c1, 0)));
    assert(poly_eval(m, r) == field_add(m[0], field_mul(r, poly_eval(u, r))));
    if p.len() == 0 {
        assert(u.len() == 0);
        assert(poly_eval(u, r) == 0);
        assert(poly_eval(p, r) == 0);
        lemma_mul_linear_empty(c0, c1, r);
        lemma_zero_mul(line);
    } else {
        let p1 = p.skip(1);
        let m1 = poly_mul_linear(p1, c0, c1);
        lemma_eval_mul_linear(p1, c0, c1, r);
        // The rest of the product is the product of the rest, with `c1 * p[0]`
        // added to its lowest coefficient.
        assert(u.skip(1) =~= m1.skip(1));
        let next = coefficient_at(p, 1);
        assert(coefficient_at(p1, 0) == next);
        assert(u[0] == field_add(field_mul(c0, next), field_mul(c1, p[0])));
        assert(m1[0] == field_add(field_mul(c0, next), field_mul(c1, 0)));
        let shared = field_mul(r, poly_eval(m1.skip(1), r));
        lemma_shift_lowest(field_mul(c0, next), field_mul(c1, p[0]), c1, shared);
        assert(poly_eval(u, r) == field_add(u[0], field_mul(r, poly_eval(u.skip(1), r))));
        assert(poly_eval(m1, r) == field_add(m1[0], field_mul(r, poly_eval(m1.skip(1), r))));
        assert(poly_eval(u, r) == field_add(poly_eval(m1, r), field_mul(c1, p[0])));
        assert(poly_eval(p, r) == field_add(p[0], field_mul(r, poly_eval(p1, r))));
        lemma_mul_linear_step(c0, c1, p[0], r, poly_eval(p1, r));
    }
}

/// Multiplication in the field commutes.
pub proof fn lemma_mul_commutes(a: nat, b: nat)
    ensures
        field_mul(a, b) == field_mul(b, a),
{
    let (ai, bi) = (a as int, b as int);
    lemma_congruent_refl(ai);
    lemma_congruent_refl(bi);
    lemma_mul_congruent(a, b, ai, bi);
    lemma_mul_congruent(b, a, bi, ai);
    assert(ai * bi == bi * ai) by (nonlinear_arith);
    lemma_congruent_equal(field_mul(a, b), field_mul(b, a), ai * bi);
}

/// `1 + r * 0 = 1` in the field.
proof fn lemma_horner_one(r: nat)
    ensures
        field_add(1, field_mul(r, 0)) == 1,
{
    let ri = r as int;
    lemma_congruent_refl(ri);
    lemma_congruent_refl(0);
    lemma_congruent_refl(1);
    lemma_mul_congruent(r, 0, ri, 0);
    lemma_add_congruent(1, field_mul(r, 0), 1, ri * 0);
    assert(1 + ri * 0 == 1) by (nonlinear_arith);
    lemma_congruent_equal(field_add(1, field_mul(r, 0)), 1, 1);
}

/// An index below the stride is its own low index.
proof fn lemma_low_index_first(half: nat, x: int)
    requires
        0 <= x < half,
    ensures
        low_index(half, x) == x,
{
    vstd::arithmetic::div_mod::lemma_small_mod(x as nat, half);
    vstd::arithmetic::div_mod::lemma_basic_div(x, half as int);
    assert(0 * (2 * half) == 0) by (nonlinear_arith);
}

/// Binding the first variable binds it in each factor.
proof fn lemma_bind_factors_last(factors: Seq<Seq<nat>>, half: nat, r: nat)
    requires
        factors.len() > 0,
    ensures
        bind_factors(factors, half, r).drop_last() == bind_factors(factors.drop_last(), half, r),
        bind_factors(factors, half, r).last() == bind_variable(factors.last(), half, r),
{
    assert(bind_factors(factors, half, r).drop_last() =~= bind_factors(
        factors.drop_last(),
        half,
        r,
    ));
}

/// Binding the first variable binds it in each product.
proof fn lemma_bind_products_last(products: Seq<Seq<Seq<nat>>>, half: nat, r: nat)
    requires
        products.len() > 0,
    ensures
        bind_products(products, half, r).drop_last() == bind_products(
            products.drop_last(),
            half,
            r,
        ),
        bind_products(products, half, r).last() == bind_factors(products.last(), half, r),
{
    assert(bind_products(products, half, r).drop_last() =~= bind_products(
        products.drop_last(),
        half,
        r,
    ));
}

/// The line of a product at a point, taken at `r`, is the product at that
/// point with the first variable bound to `r`.
pub proof fn lemma_line_value(factors: Seq<Seq<nat>>, half: nat, x: int, r: nat)
    requires
        0 <= x < half,
        factors_have_len(factors, 2 * half),
    ensures
        poly_eval(product_line(factors, half, x), r) == product_at(
            bind_factors(factors, half, r),
            x,
        ),
    decreases factors.len(),
{
    if factors.len() == 0 {
        let one = seq![1nat];
        assert(one.skip(1).len() == 0);
        assert(poly_eval(one, r) == field_add(1, field_mul(r, poly_eval(one.skip(1), r))));
        lemma_horner_one(r);
    } else {
        let g = factors.last();
        let rest = factors.drop_last();
        let slope = field_sub(g[x + half], g[x]);
        lemma_line_value(rest, half, x, r);
        lemma_eval_mul_linear(product_line(rest, half, x), g[x], slope, r);
        lemma_mul_commutes(slope, r);
        lemma_bind_factors_last(factors, half, r);
        lemma_low_index_first(half, x);
        assert(g.len() == 2 * half);
        assert(bind_variable(g, half, r)[x] == bound_entry(g, half, r, x));
    }
}

/// The round polynomial of a product, taken at `r`, is the sum of the product
/// with the first variable bound to `r`.
pub proof fn lemma_product_round_value(factors: Seq<Seq<nat>>, half: nat, count: nat, r: nat)
    requires
        count <= half,
        factors_have_len(factors, 2 * half),
    ensures
        poly_eval(product_round(factors, half, count), r) == product_sum(
            bind_factors(factors, half, r),
            count,
        ),
    decreases count,
{
    if count > 0 {
        lemma_product_round_value(factors, half, (count - 1) as nat, r);
        lemma_line_value(factors, half, count - 1, r);
        lemma_eval_add(
            product_round(factors, half, (count - 1) as nat),
            product_line(factors, half, count - 1),
            r,
        );
    }
}

/// The round polynomial of a sum of products, taken at `r`, is the sum over
/// the hypercube of the polynomial with its first variable bound to `r`.
pub proof fn lemma_round_value(products: Seq<Seq<Seq<nat>>>, half: nat, r: nat)
    requires
        products_have_len(products, 2 * half),
    ensures
        poly_eval(sum_round(products, half), r) == cube_sum(
            bind_products(products, half, r),
            half,
        ),
    decreases products.len(),
{
    if products.len() > 0 {
        let rest = products.drop_last();
        assert(products_have_len(rest, 2 * half)) by {
            assert forall|k: int| 0 <= k < rest.len() implies factors_have_len(
                #[trigger] rest[k],
                2 * half,
            ) by {
                assert(rest[k] == products[k]);
            }
        }
        lemma_round_value(rest, half, r);
        assert(factors_have_len(products.last(), 2 * half));
        lemma_product_round_value(products.last(), half, half, r);
        lemma_eval_add(sum_round(rest, half), product_round(products.last(), half, half), r);
        lemma_bind_products_last(products, half, r);
    }
}

/// The sum of a product of factors over `count` hypercube points from the
/// point of index `half` on.
pub open spec fn upper_sum(factors: Seq<Seq<nat>>, half: nat, count: nat) -> nat
    decreases count,
{
    if count == 0 {
        0
    } else {
        field_add(
            upper_sum(factors, half, (count - 1) as nat),
            product_at(factors, half + count - 1),
        )
    }
}

/// Products and sums in the field are canonical representatives.
proof fn lemma_sums_canonical(products: Seq<Seq<Seq<nat>>>, factors: Seq<Seq<nat>>, count: nat, x: int)
    ensures
        product_at(factors, x) < modulus(),
        product_sum(factors, count) < modulus(),
        cube_sum(products, count) < modulus(),
{
    lemma_congruent_refl(0);
    if factors.len() > 0 {
        let a = product_at(factors.drop_last(), x);
        lemma_congruent_refl(a as int);
        lemma_congruent_refl(factors.last()[x] as int);
        lemma_mul_congruent(a, factors.last()[x], a as int, factors.last()[x] as int);
    }
    if count > 0 {
        let a = product_sum(factors, (count - 1) as nat);
        let b = product_at(factors, count - 1);
        lemma_congruent_refl(a as int);
        lemma_congruent_refl(b as int);
        lemma_add_congruent(a, b, a as int, b as int);
    }
    if products.len() > 0 {
        let a = cube_sum(products.drop_last(), count);
        let b = product_sum(products.last(), count);
        lemma_congruent_refl(a as int);
        lemma_congruent_refl(b as int);
        lemma_add_congruent(a, b, a as int, b as int);
    }
}

/// `a * (g + 0 * d) = a * g` in the field.
proof fn lemma_bound_zero_factor(a: nat, g: nat, d: nat)
    ensures
        field_mul(a, field_add(g, field_mul(0, d))) == field_mul(a, g),
{
    let (ai, gi, di) = (a as int, g as int, d as int);
    lemma_congruent_refl(ai);
    lemma_congruent_refl(gi);
    lemma_congruent_refl(di);
    lemma_congruent_refl(0);
    lemma_mul_congruent(0, d, 0, di);
    lemma_add_congruent(g, field_mul(0, d), gi, 0 * di);
    lemma_mul_congruent(a, field_add(g, field_mul(0, d)), ai, gi + 0 * di);
    lemma_mul_congruent(a, g, ai, gi);
    assert(ai * (gi + 0 * di) == ai * gi) by (nonlinear_arith);
    lemma_congruent_equal(
        field_mul(a, field_add(g, field_mul(0, d))),
        field_mul(a, g),
        ai * gi,
    );
}

/// `a * (lo + 1 * (hi - lo)) = a * hi` in the field.
proof fn lemma_bound_one_factor(a: nat, lo: nat, hi: nat)
    ensures
        field_mul(a, field_add(lo, field_mul(1, field_sub(hi, lo)))) == field_mul(a, hi),
{
    let (ai, li, hi_i) = (a as int, lo as int, hi as int);
    lemma_congruent_refl(ai);
    lemma_congruent_refl(li);
    lemma_congruent_refl(hi_i);
    lemma_congruent_refl(1);
    lemma_sub_congruent(hi, lo, hi_i, li);
    lemma_mul_congruent(1, field_sub(hi, lo), 1, hi_i - li);
    lemma_add_congruent(lo, field_mul(1, field_sub(hi, lo)), li, 1 * (hi_i - li));
    let bound = field_add(lo, field_mul(1, field_sub(hi, lo)));
    lemma_mul_congruent(a, bound, ai, li + 1 * (hi_i - li));
    lemma_mul_congruent(a, hi, ai, hi_i);
    assert(ai * (li + 1 * (hi_i - li)) == ai * hi_i) by (nonlinear_arith);
    lemma_congruent_equal(field_mul(a, bound), field_mul(a, hi), ai * hi_i);
}

/// `(a + b) + c = a + (b + c)` in the field.
proof fn lemma_add_associates(a: nat, b: nat, c: nat)
    ensures
        field_add(field_add(a, b), c) == field_add(a, field_add(b, c)),
{
    let (ai, bi, ci) = (a as int, b as int, c as int);
    lemma_congruent_refl(ai);
    lemma_congruent_refl(bi);
    lemma_congruent_refl(ci);
    lemma_add_congruent(a, b, ai, bi);
    lemma_add_congruent(field_add(a, b), c, ai + bi, ci);
    lemma_add_congruent(b, c, bi, ci);
    lemma_add_congruent(a, field_add(b, c), ai, bi + ci);
    lemma_congruent_equal(
        field_add(field_add(a, b), c),
        field_add(a, field_add(b, c)),
        ai + bi + ci,
    );
}

/// `a + 0 = a` and `0 + a = a` for a canonical representative.
proof fn lemma_add_zero(a: nat)
    requires
        a < modulus(),
    ensures
        field_add(a, 0) == a,
        field_add(0, a) == a,
{
    let ai = a as int;
    lemma_congruent_refl(ai);
    lemma_congruent_refl(0);
    lemma_add_congruent(a, 0, ai, 0);
    lemma_add_congruent(0, a, 0, ai);
    lemma_congruent_equal(field_add(a, 0), a, ai);
    lemma_congruent_equal(field_add(0, a), a, ai);
}

/// `(a0 + a1) + (b0 + b1) = (a0 + b0) + (a1 + b1)` in the field.
proof fn lemma_add_interchange(a0: nat, a1: nat, b0: nat, b1: nat)
    ensures
        field_add(field_add(a0, a1), field_add(b0, b1)) == field_add(
            field_add(a0, b0),
            field_add(a1, b1),
        ),
{
    let (a0i, a1i, b0i, b1i) = (a0 as int, a1 as int, b0 as int, b1 as int);
    lemma_congruent_refl(a0i);
    lemma_congruent_refl(a1i);
    lemma_congruent_refl(b0i);
    lemma_congruent_refl(b1i);
    lemma_add_congruent(a0, a1, a0i, a1i);
    lemma_add_congruent(b0, b1, b0i, b1i);
    lemma_add_congruent(field_add(a0, a1), field_add(b0, b1), a0i + a1i, b0i + b1i);
    lemma_add_congruent(a0, b0, a0i, b0i);
    lemma_add_congruent(a1, b1, a1i, b1i);
    lemma_add_congruent(field_add(a0, b0), field_add(a1, b1), a0i + b0i, a1i + b1i);
    lemma_congruent_equal(
        field_add(field_add(a0, a1), field_add(b0, b1)),
        field_add(field_add(a0, b0), field_add(a1, b1)),
        a0i + a1i + (b0i + b1i),
    );
}

/// With the first variable bound to zero a product takes its values on the
/// lower half of the hypercube, with the first variable bound to one those on
/// the upper half.
proof fn lemma_product_at_bound(factors: Seq<Seq<nat>>, half: nat, x: int)
    requires
        0 <= x < half,
        factors_have_len(factors, 2 * half),
    ensures
        product_at(bind_factors(factors, half, 0), x) == product_at(factors, x),
        product_at(bind_factors(factors, half, 1), x) == product_at(factors, x + half),
    decreases factors.len(),
{
    if factors.len() > 0 {
        let g = factors.last();
        let rest = factors.drop_last();
        lemma_product_at_bound(rest, half, x);
        lemma_bind_factors_last(factors, half, 0);
        lemma_bind_factors_last(factors, half, 1);
        lemma_low_index_first(half, x);
        assert(g.len() == 2 * half);
        assert(bind_variable(g, half, 0)[x] == bound_entry(g, half, 0, x));
        assert(bind_variable(g, half, 1)[x] == bound_entry(g, half, 1, x));
        let slope = field_sub(g[x + half], g[x]);
        lemma_bound_zero_factor(product_at(rest, x), g[x], slope);
        lemma_bound_one_factor(product_at(rest, x + half), g[x], g[x + half]);
    }
}

/// The sums of a product with its first variable bound to zero and to one are
/// its sums over the lower and the upper half of the hypercube.
proof fn lemma_product_sum_bound(factors: Seq<Seq<nat>>, half: nat, count: nat)
    requires
        count <= half,
        factors_have_len(factors, 2 * half),
    ensures
        product_sum(bind_factors(factors, half, 0), count) == product_sum(factors, count),
        product_sum(bind_factors(factors, half, 1), count) == upper_sum(factors, half, count),
    decreases count,
{
    if count > 0 {
        lemma_product_sum_bound(factors, half, (count - 1) as nat);
        lemma_product_at_bound(factors, half, count - 1);
    }
}

/// A sum over the hypercube is the sum over its lower half plus the sum over
/// the points above it.
proof fn lemma_product_sum_split(factors: Seq<Seq<nat>>, half: nat, count: nat)
    ensures
        product_sum(factors, half + count) == field_add(
            product_sum(factors, half),
            upper_sum(factors, half, count),
        ),
    decreases count,
{
    lemma_sums_canonical(Seq::empty(), factors, half, 0);
    if count == 0 {
        lemma_add_zero(product_sum(factors, half));
    } else {
        lemma_product_sum_split(factors, half, (count - 1) as nat);
        lemma_add_associates(
            product_sum(factors, half),
            upper_sum(factors, half, (count - 1) as nat),
            product_at(factors, half + count - 1),
        );
    }
}

/// The sum of a polynomial over the hypercube is the sum of its sums with the
/// first variable bound to zero and to one.
pub proof fn lemma_cube_sum_split(products: Seq<Seq<Seq<nat>>>, half: nat)
    requires
        products_have_len(products, 2 * half),
    ensures
        cube_sum(products, 2 * half) == field_add(
            cube_sum(bind_products(products, half, 0), half),
            cube_sum(bind_products(products, half, 1), half),
        ),
    decreases products.len(),
{
    if products.len() == 0 {
        lemma_add_zero(0);
    } else {
        let rest = products.drop_last();
        let last = products.last();
        assert(products_have_len(rest, 2 * half)) by {
            assert forall|k: int| 0 <= k < rest.len() implies factors_have_len(
                #[trigger] rest[k],
                2 * half,
            ) by {
                assert(rest[k] == products[k]);
            }
        }
        assert(factors_have_len(last, 2 * half));
        lemma_cube_sum_split(rest, half);
        lemma_bind_products_last(products, half, 0);
        lemma_bind_products_last(products, half, 1);
        lemma_product_sum_split(last, half, half);
        lemma_product_sum_bound(last, half, half);
        lemma_add_interchange(
            cube_sum(bind_products(rest, half, 0), half),
            cube_sum(bind_products(rest, half, 1), half),
            product_sum(bind_factors(last, half, 0), half),
            product_sum(bind_factors(last, half, 1), half),
        );
    }
}

/// The line of a product has one coefficient more than the product has
/// factors, and so has its round polynomial over at least one point.
proof fn lemma_product_round_len(factors: Seq<Seq<nat>>, half: nat, count: nat, x: int)
    ensures
        product_line(factors, half, x).len() == factors.len() + 1,
        product_round(factors, half, count).len() == (if count == 0 {
            0
        } else {
            factors.len() + 1
        }),
    decreases factors.len() + count,
{
    if factors.len() > 0 {
        lemma_product_round_len(factors.drop_last(), half, 0, x);
    }
    if count > 0 {
        lemma_product_round_len(factors, half, (count - 1) as nat, count - 1);
    }
}

/// A sum of products of at most two factors has round polynomials of at
/// most three coefficients.
proof fn lemma_round_len(products: Seq<Seq<Seq<nat>>>, half: nat)
    requires
        forall|k: int| 0 <= k < products.len() ==> (#[trigger] products[k]).len() <= 2,
    ensures
        sum_round(products, half).len() <= MAX_ROUND_COEFFICIENTS,
    decreases products.len(),
{
    if products.len() > 0 {
        let rest = products.drop_last();
        assert forall|k: int| 0 <= k < rest.len() implies (#[trigger] rest[k]).len() <= 2 by {
            assert(rest[k] == products[k]);
        }
        lemma_round_len(rest, half);
        lemma_product_round_len(products.last(), half, half, 0);
        assert(products.last() == products[products.len() - 1]);
    }
}

/// With no variable left, the sum over the hypercube is the value of the
/// polynomial.
proof fn lemma_cube_sum_point(products: Seq<Seq<Seq<nat>>>)
    ensures
        cube_sum(products, 1) == sum_eval(products, Seq::empty()),
    decreases products.len(),
{
    if products.len() > 0 {
        lemma_cube_sum_point(products.drop_last());
        let last = products.last();
        lemma_product_at_point(last);
        lemma_sums_canonical(Seq::empty(), last, 0, 0);
        lemma_add_zero(product_at(last, 0));
        assert(product_sum(last, 0) == 0);
        assert(product_sum(last, 1) == field_add(product_sum(last, 0), product_at(last, 0)));
    }
}

/// With no variable left, a product at the one point is its value.
proof fn lemma_product_at_point(factors: Seq<Seq<nat>>)
    ensures
        product_at(factors, 0) == product_eval(factors, Seq::empty()),
    decreases factors.len(),
{
    if factors.len() > 0 {
        lemma_product_at_point(factors.drop_last());
        assert(evaluate_at(factors.last(), Seq::empty()) == factors.last()[0]);
    }
}

/// The value of a product at a point is its value, with the first variable
/// bound to the first coordinate, at the other coordinates.
proof fn lemma_product_eval_bind(factors: Seq<Seq<nat>>, half: nat, r: nat, rest: Seq<nat>)
    requires
        factors_have_len(factors, 2 * half),
    ensures
        product_eval(factors, seq![r] + rest) == product_eval(
            bind_factors(factors, half, r),
            rest,
        ),
    decreases factors.len(),
{
    if factors.len() > 0 {
        let g = factors.last();
        lemma_product_eval_bind(factors.drop_last(), half, r, rest);
        lemma_bind_factors_last(factors, half, r);
        let point = seq![r] + rest;
        assert(point[0] == r);
        assert(point.skip(1) =~= rest);
        assert(g.len() == 2 * half);
        assert(bind_first(g, r) == bind_variable(g, half, r));
    }
}

/// The value of a sum of products at a point is its value, with the first
/// variable bound to the first coordinate, at the other coordinates.
pub proof fn lemma_sum_eval_bind(products: Seq<Seq<Seq<nat>>>, half: nat, r: nat, rest: Seq<nat>)
    requires
        products_have_len(products, 2 * half),
    ensures
        sum_eval(products, seq![r] + rest) == sum_eval(bind_products(products, half, r), rest),
    decreases products.len(),
{
    if products.len() > 0 {
        let shorter = products.drop_last();
        assert(products_have_len(shorter, 2 * half)) by {
            assert forall|k: int| 0 <= k < shorter.len() implies factors_have_len(
                #[trigger] shorter[k],
                2 * half,
            ) by {
                assert(shorter[k] == products[k]);
            }
        }
        assert(factors_have_len(products.last(), 2 * half));
        lemma_sum_eval_bind(shorter, half, r, rest);
        lemma_product_eval_bind(products.last(), half, r, rest);
        lemma_bind_products_last(products, half, r);
    }
}

/// The rounds of the verifier on what the prover sends for the true sum:
/// every round passes, the verifier draws the prover's challenges and leaves
/// the transcript as the prover does, and the claim that is left is the value
/// of the polynomial at the challenges.
pub proof fn lemma_rounds_complete(products: Seq<Seq<Seq<nat>>>, state: Seq<u8>, rounds: nat)
    requires
        summable(products),
        rounds == variable_count(table_len(products)),
        forall|k: int| 0 <= k < products.len() ==> (#[trigger] products[k]).len() <= 2,
    ensures
        verify_rounds(
            prove_rounds(products, state, rounds).polys,
            cube_sum(products, table_len(products)),
            state,
        ).verified,
        verify_rounds(
            prove_rounds(products, state, rounds).polys,
            cube_sum(products, table_len(products)),
            state,
        ).challenges == prove_rounds(products, state, rounds).challenges,
        verify_rounds(
            prove_rounds(products, state, rounds).polys,
            cube_sum(products, table_len(products)),
            state,
        ).state == prove_rounds(products, state, rounds).state,
        verify_rounds(
            prove_rounds(products, state, rounds).polys,
            cube_sum(products, table_len(products)),
            state,
        ).final_claim == sum_eval(products, prove_rounds(products, state, rounds).challenges),
    decreases rounds,
{
    let len = table_len(products);
    let claim = cube_sum(products, len);
    let sent = prove_rounds(products, state, rounds);
    let checked = verify_rounds(sent.polys, claim, state);
    if rounds == 0 {
        assert(pow2(0) == 1) by {
            lemma2_to64();
        }
        assert(sent.polys.len() == 0);
        lemma_cube_sum_point(products);
        assert(sent.challenges =~= Seq::<nat>::empty());
    } else {
        lemma_pow2_unfold(rounds);
        lemma_pow2_pos((rounds - 1) as nat);
        let half = len / 2;
        assert(2 * half == len);
        let step = round_step(products, state);
        let rest = prove_rounds(step.bound, step.state, (rounds - 1) as nat);
        lemma_bound_shape(products, step.challenge);
        assert forall|k: int| 0 <= k < step.bound.len() implies (#[trigger] step.bound[k]).len()
            <= 2 by {
            assert(step.bound[k] == bind_factors(products[k], half, step.challenge));
        }
        lemma_rounds_complete(step.bound, step.state, (rounds - 1) as nat);
        // The first round passes.
        lemma_round_len(products, half);
        lemma_round_value(products, half, 0);
        lemma_round_value(products, half, 1);
        lemma_cube_sum_split(products, half);
        assert(round_accepts(step.poly, claim));
        // The verifier goes on as the prover does.
        lemma_round_value(products, half, step.challenge);
        assert(sent.polys[0] == step.poly);
        assert(sent.polys.skip(1) =~= rest.polys);
        let after = verify_rounds(
            rest.polys,
            cube_sum(step.bound, table_len(step.bound)),
            step.state,
        );
        assert(checked.challenges == seq![step.challenge] + after.challenges);
        lemma_sum_eval_bind(products, half, step.challenge, rest.challenges);
    }
}

} // verus!
