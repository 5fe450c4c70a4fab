//! The layer polynomial of a layer below the output sums over the boolean
//! hypercube to the merged claim about the layer's values.

use crate::completeness::{cube_sum, product_at, product_sum};
use crate::field::{
    congruent, field_add, field_mul, lemma_add_congruent, lemma_congruent_equal,
    lemma_congruent_product, lemma_congruent_refl, lemma_congruent_sum, lemma_congruent_trans,
    lemma_mul_congruent, modulus,
};
use crate::gkr_circuit::{
    apply_op, layer_values, selector_count, wiring_entry, wiring_len, wiring_table, Operation,
};
use crate::gkr_protocol::{
    lemma_halved_pow2, lemma_outer_entry, merged_fbc, merged_wiring, outer_table,
};
use crate::int_model::{
    as_ints, int_bind, int_eval, lemma_bound_entry_line, lemma_evaluate_as_ints,
    lemma_int_eval_similar, similar,
};
use crate::multilinear::{
    add_tables, bind_first, bind_leading, bind_variable, evaluate_at, lemma_bind_leading_len,
    scale_table,
};
use crate::output_layer::{lemma_pair_product, lemma_two_products_sum};
use vstd::arithmetic::div_mod::{lemma_fundamental_div_mod, lemma_fundamental_div_mod_converse};
use vstd::arithmetic::power2::{lemma2_to64, lemma_pow2_pos, lemma_pow2_unfold, pow2};
use vstd::prelude::*;

verus! {

/// Entry `x` of the part of a table that starts at `offset`.
pub open spec fn entry_at(table: Seq<nat>, offset: int, x: int) -> nat {
    table[offset + x]
}

/// The sum of the products, entry by entry and as integers, of the first
/// `count` entries of the part of `table` that starts at `offset` and of `s`.
pub open spec fn dot(table: Seq<nat>, offset: int, s: Seq<nat>, count: nat) -> int
    decreases count,
{
    if count == 0 {
        0
    } else {
        dot(table, offset, s, (count - 1) as nat) + entry_at(table, offset, count - 1) * s[count
            - 1]
    }
}

/// The sum of a product of two factors denotes the sum of the products of
/// their entries.
pub proof fn lemma_product_sum_dot(a: Seq<nat>, s: Seq<nat>, count: nat)
    ensures
        congruent(product_sum(seq![a, s], count) as int, dot(a, 0, s, count)),
        product_sum(seq![a, s], count) < modulus(),
    decreases count,
{
    if count == 0 {
        lemma_congruent_refl(0);
    } else {
        let x = count - 1;
        lemma_product_sum_dot(a, s, (count - 1) as nat);
        lemma_congruent_refl(a[x] as int);
        lemma_congruent_refl(s[x] as int);
        lemma_pair_product(a, s, x, a[x] as int, s[x] as int);
        lemma_add_congruent(
            product_sum(seq![a, s], (count - 1) as nat),
            product_at(seq![a, s], x),
            dot(a, 0, s, (count - 1) as nat),
            a[x] as int * s[x] as int,
        );
        assert(entry_at(a, 0, x) == a[x]);
    }
}

/// The sum of a table merged from two, times `s`, is the merge of the two
/// sums.
pub proof fn lemma_merged_dot(
    u: Seq<nat>,
    v: Seq<nat>,
    alpha: nat,
    beta: nat,
    s: Seq<nat>,
    count: nat,
)
    requires
        u.len() == v.len(),
        count <= u.len(),
    ensures
        congruent(
            dot(add_tables(scale_table(u, alpha), scale_table(v, beta)), 0, s, count),
            alpha * dot(u, 0, s, count) + beta * dot(v, 0, s, count),
        ),
    decreases count,
{
    let merged = add_tables(scale_table(u, alpha), scale_table(v, beta));
    let (ai, bi) = (alpha as int, beta as int);
    if count == 0 {
        lemma_congruent_refl(0);
        assert(ai * 0 + bi * 0 == 0) by (nonlinear_arith);
    } else {
        let x = count - 1;
        lemma_merged_dot(u, v, alpha, beta, s, (count - 1) as nat);
        let (du, dv) = (dot(u, 0, s, (count - 1) as nat), dot(v, 0, s, (count - 1) as nat));
        let (ux, vx, sx) = (u[x] as int, v[x] as int, s[x] as int);
        assert(merged[x] == field_add(field_mul(alpha, u[x]), field_mul(beta, v[x])));
        lemma_congruent_refl(ai);
        lemma_congruent_refl(bi);
        lemma_congruent_refl(ux);
        lemma_congruent_refl(vx);
        lemma_congruent_refl(sx);
        lemma_mul_congruent(alpha, u[x], ai, ux);
        lemma_mul_congruent(beta, v[x], bi, vx);
        lemma_add_congruent(field_mul(alpha, u[x]), field_mul(beta, v[x]), ai * ux, bi * vx);
        lemma_congruent_product(merged[x] as int, ai * ux + bi * vx, sx, sx);
        lemma_congruent_sum(
            dot(merged, 0, s, (count - 1) as nat),
            ai * du + bi * dv,
            merged[x] as int * sx,
            (ai * ux + bi * vx) * sx,
        );
        assert(entry_at(merged, 0, x) == merged[x]);
        assert(entry_at(u, 0, x) == u[x]);
        assert(entry_at(v, 0, x) == v[x]);
        let (p, q) = (ux * sx, vx * sx);
        assert((ai * ux) * sx == ai * p) by (nonlinear_arith)
            requires
                p == ux * sx,
        ;
        assert((bi * vx) * sx == bi * q) by (nonlinear_arith)
            requires
                q == vx * sx,
        ;
        assert((ai * ux + bi * vx) * sx == (ai * ux) * sx + (bi * vx) * sx) by (nonlinear_arith);
        assert(ai * (du + p) == ai * du + ai * p) by (nonlinear_arith);
        assert(bi * (dv + q) == bi * dv + bi * q) by (nonlinear_arith);
    }
}

/// The sum of a part of a table with its first variable bound, times `s`, is
/// the line through the sums of the two parts that it comes from.
pub proof fn lemma_bound_dot(
    table: Seq<nat>,
    q: nat,
    m: nat,
    r: nat,
    a: int,
    s: Seq<nat>,
    count: nat,
)
    requires
        table.len() == 2 * (q * m),
        0 <= a < q,
        count <= m,
    ensures
        congruent(
            dot(bind_first(table, r), a * m, s, count),
            dot(table, a * m, s, count) + r * (dot(table, (a + q) * m, s, count) - dot(
                table,
                a * m,
                s,
                count,
            )),
        ),
    decreases count,
{
    let bound = bind_first(table, r);
    let ri = r as int;
    if count == 0 {
        lemma_congruent_refl(0);
        assert(0 + ri * (0 - 0) == 0) by (nonlinear_arith);
    } else {
        let x = count - 1;
        lemma_bound_dot(table, q, m, r, a, s, (count - 1) as nat);
        let half = q * m;
        let low = a * m + x;
        assert(0 <= low < half && low + half == (a + q) * m + x) by (nonlinear_arith)
            requires
                0 <= a < q,
                0 <= x < m,
                half == q * m,
                low == a * m + x,
        ;
        assert(table.len() / 2 == half);
        let (lo, hi, sx) = (table[low] as int, table[low + half] as int, s[x] as int);
        lemma_congruent_refl(lo);
        lemma_congruent_refl(hi);
        lemma_congruent_refl(sx);
        lemma_bound_entry_line(table, half, r, low, lo, hi);
        assert(bound == bind_variable(table, half, r));
        lemma_congruent_product(bound[low] as int, lo + ri * (hi - lo), sx, sx);
        let dl = dot(table, a * m, s, (count - 1) as nat);
        let dh = dot(table, (a + q) * m, s, (count - 1) as nat);
        lemma_congruent_sum(
            dot(bound, a * m, s, (count - 1) as nat),
            dl + ri * (dh - dl),
            bound[low] as int * sx,
            (lo + ri * (hi - lo)) * sx,
        );
        assert(entry_at(bound, a * m, x) == bound[low]);
        assert(entry_at(table, a * m, x) == table[low]);
        assert(entry_at(table, (a + q) * m, x) == table[low + half]);
        let (ls, hs) = (lo * sx, hi * sx);
        assert((ri * (hi - lo)) * sx == ri * (hs - ls)) by (nonlinear_arith)
            requires
                ls == lo * sx,
                hs == hi * sx,
        ;
        assert((lo + ri * (hi - lo)) * sx == ls + (ri * (hi - lo)) * sx) by (nonlinear_arith)
            requires
                ls == lo * sx,
        ;
        assert(ri * (dh - dl) + ri * (hs - ls) == ri * ((dh + hs) - (dl + ls)))
            by (nonlinear_arith);
    }
}

/// For each selector value, the sum of the add part of a table times the
/// sums, plus the sum of the mul part times the products.
pub open spec fn contraction(
    add: Seq<nat>,
    mul: Seq<nat>,
    sums: Seq<nat>,
    products: Seq<nat>,
    m: nat,
    selectors: nat,
) -> Seq<int> {
    Seq::new(selectors, |a: int| dot(add, a * m, sums, m) + dot(mul, a * m, products, m))
}

/// Binding the first variable of the two tables binds it in their
/// contraction.
pub proof fn lemma_contraction_bind(
    add: Seq<nat>,
    mul: Seq<nat>,
    sums: Seq<nat>,
    products: Seq<nat>,
    m: nat,
    q: nat,
    r: nat,
)
    requires
        add.len() == 2 * (q * m),
        mul.len() == 2 * (q * m),
    ensures
        similar(
            contraction(bind_first(add, r), bind_first(mul, r), sums, products, m, q),
            int_bind(contraction(add, mul, sums, products, m, 2 * q), r as int),
        ),
{
    let left = contraction(bind_first(add, r), bind_first(mul, r), sums, products, m, q);
    let whole = contraction(add, mul, sums, products, m, 2 * q);
    let right = int_bind(whole, r as int);
    let ri = r as int;
    assert forall|a: int| 0 <= a < left.len() implies congruent(#[trigger] left[a], right[a]) by {
        lemma_bound_dot(add, q, m, r, a, sums, m);
        lemma_bound_dot(mul, q, m, r, a, products, m);
        let (da, dah) = (dot(add, a * m, sums, m), dot(add, (a + q) * m, sums, m));
        let (dm, dmh) = (dot(mul, a * m, products, m), dot(mul, (a + q) * m, products, m));
        lemma_congruent_sum(
            dot(bind_first(add, r), a * m, sums, m),
            da + ri * (dah - da),
            dot(bind_first(mul, r), a * m, products, m),
            dm + ri * (dmh - dm),
        );
        assert(whole[a] == da + dm);
        assert(whole[a + q] == dah + dmh);
        assert((da + ri * (dah - da)) + (dm + ri * (dmh - dm)) == (da + dm) + ri * ((dah + dmh)
            - (da + dm))) by (nonlinear_arith);
    }
}

/// With all selector variables bound to `values`, the sums of the two tables
/// times the sums and the products denote the value of their contraction at
/// `values`.
pub proof fn lemma_contraction_value(
    add: Seq<nat>,
    mul: Seq<nat>,
    sums: Seq<nat>,
    products: Seq<nat>,
    m: nat,
    values: Seq<nat>,
)
    requires
        add.len() == pow2(values.len()) * m,
        mul.len() == pow2(values.len()) * m,
    ensures
        congruent(
            dot(bind_leading(add, values), 0, sums, m) + dot(
                bind_leading(mul, values),
                0,
                products,
                m,
            ),
            int_eval(contraction(add, mul, sums, products, m, pow2(values.len())), values),
        ),
    decreases values.len(),
{
    let j = values.len();
    let whole = contraction(add, mul, sums, products, m, pow2(j));
    lemma_pow2_pos(j);
    if j == 0 {
        assert(pow2(0) == 1) by {
            lemma2_to64();
        }
        assert(0int * m == 0) by (nonlinear_arith);
        assert(whole[0] == dot(add, 0int * m, sums, m) + dot(mul, 0int * m, products, m));
        lemma_congruent_refl(whole[0]);
    } else {
        lemma_pow2_unfold(j);
        let q = pow2((j - 1) as nat);
        lemma_pow2_pos((j - 1) as nat);
        let r = values[0];
        let (ba, bm) = (bind_first(add, r), bind_first(mul, r));
        assert(add.len() == 2 * (q * m)) by (nonlinear_arith)
            requires
                add.len() == (2 * q) * m,
        ;
        assert(ba.len() == q * m && bm.len() == q * m);
        lemma_contraction_value(ba, bm, sums, products, m, values.skip(1));
        lemma_contraction_bind(add, mul, sums, products, m, q, r);
        let bound = contraction(ba, bm, sums, products, m, q);
        lemma_int_eval_similar(bound, int_bind(whole, r as int), values.skip(1));
        lemma_congruent_trans(
            dot(bind_leading(add, values), 0, sums, m) + dot(
                bind_leading(mul, values),
                0,
                products,
                m,
            ),
            int_eval(bound, values.skip(1)),
            int_eval(whole, values),
        );
    }
}

/// The index, among the pairs of wires of the layer below, of the pair that
/// gate `a` reads: the wires `2a` and `2a + 1` of `n`.
pub open spec fn wires_of(a: int, n: int) -> int {
    (2 * a) * n + (2 * a + 1)
}

/// The entry of a wiring predicate for selector value `a` and the pair of
/// wires of index `x` is 1 where `a` is a gate with the operation that reads
/// that pair, and 0 elsewhere.
pub proof fn lemma_wiring_entry_at(gates: Seq<Operation>, op: Operation, a: int, x: int)
    requires
        gates.len() >= 1,
        0 <= a < selector_count(gates.len()),
        0 <= x < (2 * gates.len()) * (2 * gates.len()),
    ensures
        0 <= a * ((2 * gates.len()) * (2 * gates.len())) + x < wiring_len(gates.len()),
        entry_at(
            wiring_table(gates, op),
            a * ((2 * gates.len()) * (2 * gates.len())),
            x,
        ) == (if a < gates.len() && gates[a] == op && x == wires_of(a, 2 * gates.len() as int) {
            1nat
        } else {
            0nat
        }),
{
    let g = gates.len() as int;
    let n = 2 * g;
    let m = n * n;
    let s = selector_count(gates.len()) as int;
    let i = a * m + x;
    assert(0 <= a * m && i < s * m) by (nonlinear_arith)
        requires
            0 <= a < s,
            0 <= x < m,
            i == a * m + x,
    ;
    assert(wiring_len(gates.len()) == s * m);
    assert(wiring_table(gates, op)[i] == wiring_entry(gates, op, i));
    lemma_fundamental_div_mod_converse(i, m, a, x);
    lemma_fundamental_div_mod(x, n);
    let (xq, xr) = (x / n, x % n);
    assert(0 <= xq < n) by (nonlinear_arith)
        requires
            x == n * xq + xr,
            0 <= xr < n,
            0 <= x < n * n,
    ;
    assert(i == n * (a * n + xq) + xr) by (nonlinear_arith)
        requires
            i == a * (n * n) + x,
            x == n * xq + xr,
    ;
    lemma_fundamental_div_mod_converse(i, n, a * n + xq, xr);
    lemma_fundamental_div_mod_converse(a * n + xq, n, a, xq);
    if a < g {
        if xq == 2 * a && xr == 2 * a + 1 {
            assert(x == wires_of(a, n)) by (nonlinear_arith)
                requires
                    x == n * xq + xr,
                    xq == 2 * a,
                    xr == 2 * a + 1,
                    wires_of(a, n) == (2 * a) * n + (2 * a + 1),
            ;
        }
        if x == wires_of(a, n) {
            assert(x == n * (2 * a) + (2 * a + 1)) by (nonlinear_arith)
                requires
                    x == (2 * a) * n + (2 * a + 1),
            ;
            lemma_fundamental_div_mod_converse(x, n, 2 * a, 2 * a + 1);
        }
    }
}

/// The sum of a part of a table that is `e` at `x0` and zero elsewhere, times
/// `s`, is `e * s[x0]`.
pub proof fn lemma_dot_single(
    table: Seq<nat>,
    offset: int,
    s: Seq<nat>,
    count: nat,
    x0: int,
    e: nat,
)
    requires
        forall|x: int|
            0 <= x < count ==> #[trigger] entry_at(table, offset, x) == (if x == x0 {
                e
            } else {
                0
            }),
    ensures
        dot(table, offset, s, count) == (if 0 <= x0 < count {
            e * s[x0]
        } else {
            0
        }),
    decreases count,
{
    if count > 0 {
        let x = count - 1;
        lemma_dot_single(table, offset, s, (count - 1) as nat, x0, e);
        assert(entry_at(table, offset, x) == (if x == x0 {
            e
        } else {
            0
        }));
        assert(0 * s[x] == 0) by (nonlinear_arith);
    }
}

/// For each gate of a layer, the wiring predicates contract with the sums and
/// products of the values below to the value of that gate.
pub proof fn lemma_wiring_contraction(gates: Seq<Operation>, w: Seq<nat>)
    requires
        gates.len() >= 2,
        w.len() == 2 * gates.len(),
    ensures
        contraction(
            wiring_table(gates, Operation::Add),
            wiring_table(gates, Operation::Mul),
            outer_table(w, w, Operation::Add),
            outer_table(w, w, Operation::Mul),
            w.len() * w.len(),
            gates.len(),
        ) == as_ints(layer_values(gates, w)),
{
    let n = w.len() as int;
    let m = w.len() * w.len();
    let (add, mul) = (wiring_table(gates, Operation::Add), wiring_table(gates, Operation::Mul));
    let (sums, products) = (
        outer_table(w, w, Operation::Add),
        outer_table(w, w, Operation::Mul),
    );
    let left = contraction(add, mul, sums, products, m, gates.len());
    let right = as_ints(layer_values(gates, w));
    assert(m == (2 * gates.len()) * (2 * gates.len()));
    assert forall|a: int| 0 <= a < left.len() implies #[trigger] left[a] == right[a] by {
        let x0 = wires_of(a, n);
        let e_add: nat = if gates[a] == Operation::Add {
            1
        } else {
            0
        };
        let e_mul: nat = if gates[a] == Operation::Mul {
            1
        } else {
            0
        };
        assert forall|x: int| 0 <= x < m implies #[trigger] entry_at(add, a * m, x) == (if x
            == x0 {
            e_add
        } else {
            0
        }) by {
            lemma_wiring_entry_at(gates, Operation::Add, a, x);
        }
        assert forall|x: int| 0 <= x < m implies #[trigger] entry_at(mul, a * m, x) == (if x
            == x0 {
            e_mul
        } else {
            0
        }) by {
            lemma_wiring_entry_at(gates, Operation::Mul, a, x);
        }
        lemma_dot_single(add, a * m, sums, m, x0, e_add);
        lemma_dot_single(mul, a * m, products, m, x0, e_mul);
        lemma_outer_entry(w, w, Operation::Add, 2 * a, 2 * a + 1);
        lemma_outer_entry(w, w, Operation::Mul, 2 * a, 2 * a + 1);
        assert(0 <= x0 < m);
        assert(right[a] == layer_values(gates, w)[a] as int);
        assert(layer_values(gates, w)[a] == apply_op(gates[a], w[2 * a], w[2 * a + 1]));
        assert(1 * sums[x0] == sums[x0] && 0 * sums[x0] == 0 && 1 * products[x0] == products[x0]
            && 0 * products[x0] == 0) by (nonlinear_arith);
    }
    assert(left =~= right);
}

/// The layer polynomial of a layer below the output sums over the boolean
/// hypercube to the merged claim: `alpha` times the value of the layer's
/// polynomial at `r_b` plus `beta` times its value at `r_c`.
pub proof fn lemma_merged_layer_sum(
    gates: Seq<Operation>,
    w: Seq<nat>,
    r_b: Seq<nat>,
    r_c: Seq<nat>,
    alpha: nat,
    beta: nat,
)
    requires
        r_b.len() >= 1,
        r_b.len() == r_c.len(),
        gates.len() == pow2(r_b.len()),
        w.len() == 2 * gates.len(),
    ensures
        cube_sum(merged_fbc(gates, w, w, r_b, r_c, alpha, beta), w.len() * w.len()) == field_add(
            field_mul(alpha, evaluate_at(layer_values(gates, w), r_b)),
            field_mul(beta, evaluate_at(layer_values(gates, w), r_c)),
        ),
{
    let j = r_b.len();
    let g = gates.len();
    let m = w.len() * w.len();
    let values = layer_values(gates, w);
    let (ai, bi) = (alpha as int, beta as int);
    lemma_pow2_unfold(j);
    lemma_pow2_pos((j - 1) as nat);
    assert(g >= 2);
    let (add, mul) = (wiring_table(gates, Operation::Add), wiring_table(gates, Operation::Mul));
    let (sums, products) = (
        outer_table(w, w, Operation::Add),
        outer_table(w, w, Operation::Mul),
    );
    assert(m == (2 * g) * (2 * g));
    assert(add.len() == pow2(j) * m && mul.len() == pow2(j) * m);
    let (ub, uc) = (bind_leading(add, r_b), bind_leading(add, r_c));
    let (vb, vc) = (bind_leading(mul, r_b), bind_leading(mul, r_c));
    lemma_halved_pow2(m, j);
    lemma_bind_leading_len(add, r_b);
    lemma_bind_leading_len(add, r_c);
    lemma_bind_leading_len(mul, r_b);
    lemma_bind_leading_len(mul, r_c);
    let a_table = merged_wiring(gates, Operation::Add, r_b, r_c, alpha, beta);
    let m_table = merged_wiring(gates, Operation::Mul, r_b, r_c, alpha, beta);
    let fbc = merged_fbc(gates, w, w, r_b, r_c, alpha, beta);
    assert(fbc =~= seq![seq![a_table, sums], seq![m_table, products]]);
    // The sum of the polynomial, as a sum of products of entries.
    lemma_product_sum_dot(a_table, sums, m);
    lemma_product_sum_dot(m_table, products, m);
    let (da, dm) = (dot(a_table, 0, sums, m), dot(m_table, 0, products, m));
    lemma_two_products_sum(seq![a_table, sums], seq![m_table, products], m, da, dm);
    // The merged tables split into their two parts.
    lemma_merged_dot(ub, uc, alpha, beta, sums, m);
    lemma_merged_dot(vb, vc, alpha, beta, products, m);
    let (dub, duc) = (dot(ub, 0, sums, m), dot(uc, 0, sums, m));
    let (dvb, dvc) = (dot(vb, 0, products, m), dot(vc, 0, products, m));
    lemma_congruent_sum(da, ai * dub + bi * duc, dm, ai * dvb + bi * dvc);
    let (xb, xc) = (dub + dvb, duc + dvc);
    assert((ai * dub + bi * duc) + (ai * dvb + bi * dvc) == ai * xb + bi * xc)
        by (nonlinear_arith)
        requires
            xb == dub + dvb,
            xc == duc + dvc,
    ;
    // Each part is the value of the layer's polynomial.
    let whole = contraction(add, mul, sums, products, m, pow2(j));
    lemma_contraction_value(add, mul, sums, products, m, r_b);
    lemma_contraction_value(add, mul, sums, products, m, r_c);
    lemma_wiring_contraction(gates, w);
    lemma_evaluate_as_ints(values, r_b);
    lemma_evaluate_as_ints(values, r_c);
    let (eb, ec) = (evaluate_at(values, r_b), evaluate_at(values, r_c));
    lemma_congruent_refl(int_eval(whole, r_b));
    lemma_congruent_refl(int_eval(whole, r_c));
    lemma_congruent_trans(eb as int, int_eval(whole, r_b), int_eval(whole, r_b));
    lemma_congruent_trans(ec as int, int_eval(whole, r_c), int_eval(whole, r_c));
    lemma_congruent_trans(xb, int_eval(whole, r_b), eb as int);
    lemma_congruent_trans(xc, int_eval(whole, r_c), ec as int);
    lemma_congruent_refl(ai);
    lemma_congruent_refl(bi);
    lemma_congruent_product(ai, ai, xb, eb as int);
    lemma_congruent_product(bi, bi, xc, ec as int);
    lemma_congruent_sum(ai * xb, ai * eb as int, bi * xc, bi * ec as int);
    let total = ai * eb as int + bi * ec as int;
    lemma_congruent_trans(da + dm, ai * xb + bi * xc, total);
    lemma_congruent_trans(cube_sum(fbc, m) as int, da + dm, total);
    // The claim.
    lemma_congruent_refl(eb as int);
    lemma_congruent_refl(ec as int);
    lemma_mul_congruent(alpha, eb, ai, eb as int);
    lemma_mul_congruent(beta, ec, bi, ec as int);
    lemma_add_congruent(field_mul(alpha, eb), field_mul(beta, ec), ai * eb as int, bi * ec as int);
    lemma_congruent_equal(
        cube_sum(fbc, m),
        field_add(field_mul(alpha, eb), field_mul(beta, ec)),
        total,
    );
}

} // verus!
