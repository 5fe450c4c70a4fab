//! The output layer is complete: the verifier's check of the output layer
//! passes on what the prover sends for it.

use crate::completeness::{cube_sum, lemma_rounds_complete, product_at, product_sum};
use crate::composed_polynomial::{product_eval, sum_eval};
use crate::field::{
    congruent, field_add, field_mul, field_sub, lemma_add_congruent, lemma_congruent_equal,
    lemma_congruent_refl, lemma_mul_congruent, lemma_sub_congruent, modulus,
};
use crate::gkr_circuit::{
    apply_op, circuit_values, layer_values, layered, lemma_circuit_values, wiring_entry,
    wiring_len, wiring_table, Operation,
};
use crate::gkr_protocol::{
    expected_claim, honest_proof, initial_claim, initial_fbc, layer_check, layer_polynomial,
    layer_proof, lemma_layer_polynomial_shape, merge_claims, opening_check,
    opening_claims, outer_table, padded_output, wiring_point,
};
use crate::multilinear::{bind_first, bind_variable, bound_entry, evaluate_at, low_index};
use crate::sum_check::{lemma_prove_rounds_len, prove_rounds, verify_rounds};
use crate::transcript::encode_elements;
use vstd::arithmetic::power2::{lemma2_to64, pow2};
use vstd::prelude::*;

verus! {

/// The line through `lo` and `hi`, taken at `r`, as an integer.
pub open spec fn line_at(lo: int, hi: int, r: int) -> int {
    lo + r * (hi - lo)
}

/// An entry of a table with its first variable bound denotes the line through
/// the two entries it comes from.
proof fn lemma_bound_entry_congruent(table: Seq<nat>, half: nat, r: nat, x: int, lo: int, hi: int)
    requires
        0 <= x < half,
        table.len() == 2 * half,
        congruent(table[x] as int, lo),
        congruent(table[x + half] as int, hi),
    ensures
        congruent(bind_variable(table, half, r)[x] as int, line_at(lo, hi, r as int)),
        bind_variable(table, half, r)[x] < modulus(),
        bind_variable(table, half, r).len() == half,
{
    vstd::arithmetic::div_mod::lemma_small_mod(x as nat, half);
    vstd::arithmetic::div_mod::lemma_basic_div(x, half as int);
    assert(0 * (2 * half) == 0) by (nonlinear_arith);
    assert(low_index(half, x) == x);
    assert(bind_variable(table, half, r)[x] == bound_entry(table, half, r, x));
    lemma_congruent_refl(r as int);
    lemma_sub_congruent(table[x + half], table[x], hi, lo);
    lemma_mul_congruent(r, field_sub(table[x + half], table[x]), r as int, hi - lo);
    lemma_add_congruent(
        table[x],
        field_mul(r, field_sub(table[x + half], table[x])),
        lo,
        r as int * (hi - lo),
    );
}

/// The value of a polynomial in one variable denotes the line through its two
/// entries.
proof fn lemma_evaluate_one(table: Seq<nat>, r: nat, lo: int, hi: int)
    requires
        table.len() == 2,
        congruent(table[0] as int, lo),
        congruent(table[1] as int, hi),
    ensures
        congruent(evaluate_at(table, seq![r]) as int, line_at(lo, hi, r as int)),
        evaluate_at(table, seq![r]) < modulus(),
{
    let point = seq![r];
    assert(point[0] == r);
    assert(point.skip(1).len() == 0);
    lemma_bound_entry_congruent(table, 1, r, 0, lo, hi);
    assert(evaluate_at(table, point) == evaluate_at(bind_first(table, r), point.skip(1)));
    assert(evaluate_at(bind_first(table, r), point.skip(1)) == bind_first(table, r)[0]);
}

/// The value of a polynomial in two variables, as an integer: the line in the
/// second variable through the lines in the first.
proof fn lemma_evaluate_two(
    table: Seq<nat>,
    x: nat,
    y: nat,
    t0: int,
    t1: int,
    t2: int,
    t3: int,
)
    requires
        table.len() == 4,
        congruent(table[0] as int, t0),
        congruent(table[1] as int, t1),
        congruent(table[2] as int, t2),
        congruent(table[3] as int, t3),
    ensures
        congruent(
            evaluate_at(table, seq![x, y]) as int,
            line_at(line_at(t0, t2, x as int), line_at(t1, t3, x as int), y as int),
        ),
        evaluate_at(table, seq![x, y]) < modulus(),
{
    let point = seq![x, y];
    assert(point[0] == x);
    assert(point.skip(1) =~= seq![y]);
    lemma_bound_entry_congruent(table, 2, x, 0, t0, t2);
    lemma_bound_entry_congruent(table, 2, x, 1, t1, t3);
    let bound = bind_first(table, x);
    assert(bound == bind_variable(table, 2, x));
    lemma_evaluate_one(bound, y, line_at(t0, t2, x as int), line_at(t1, t3, x as int));
}

/// The table that combines the two values of a layer with themselves, taken
/// at a point `(x, y)`, is the combination of the layer's values at `x` and at
/// `y`.
pub proof fn lemma_outer_value(w: Seq<nat>, op: Operation, x: nat, y: nat)
    requires
        w.len() == 2,
    ensures
        evaluate_at(outer_table(w, w, op), seq![x, y]) == apply_op(
            op,
            evaluate_at(w, seq![x]),
            evaluate_at(w, seq![y]),
        ),
{
    let (w0, w1, xi, yi) = (w[0] as int, w[1] as int, x as int, y as int);
    let table = outer_table(w, w, op);
    lemma_congruent_refl(w0);
    lemma_congruent_refl(w1);
    assert(2 * 2 == 4) by (nonlinear_arith);
    assert(w.len() * w.len() == 4) by (nonlinear_arith)
        requires
            w.len() == 2,
    ;
    assert(table.len() == 4);
    assert(table[0] == apply_op(op, w[0], w[0]));
    assert(table[1] == apply_op(op, w[0], w[1]));
    assert(table[2] == apply_op(op, w[1], w[0]));
    assert(table[3] == apply_op(op, w[1], w[1]));
    let o_1 = evaluate_at(w, seq![x]);
    let o_2 = evaluate_at(w, seq![y]);
    lemma_evaluate_one(w, x, w0, w1);
    lemma_evaluate_one(w, y, w0, w1);
    match op {
        Operation::Add => {
            lemma_add_congruent(w[0], w[0], w0, w0);
            lemma_add_congruent(w[0], w[1], w0, w1);
            lemma_add_congruent(w[1], w[0], w1, w0);
            lemma_add_congruent(w[1], w[1], w1, w1);
            lemma_evaluate_two(table, x, y, w0 + w0, w0 + w1, w1 + w0, w1 + w1);
            lemma_add_congruent(o_1, o_2, line_at(w0, w1, xi), line_at(w0, w1, yi));
            assert(line_at(line_at(w0 + w0, w1 + w0, xi), line_at(w0 + w1, w1 + w1, xi), yi)
                == line_at(w0, w1, xi) + line_at(w0, w1, yi)) by (nonlinear_arith);
            lemma_congruent_equal(
                evaluate_at(table, seq![x, y]),
                field_add(o_1, o_2),
                line_at(w0, w1, xi) + line_at(w0, w1, yi),
            );
        },
        Operation::Mul => {
            lemma_mul_congruent(w[0], w[0], w0, w0);
            lemma_mul_congruent(w[0], w[1], w0, w1);
            lemma_mul_congruent(w[1], w[0], w1, w0);
            lemma_mul_congruent(w[1], w[1], w1, w1);
            lemma_evaluate_two(table, x, y, w0 * w0, w0 * w1, w1 * w0, w1 * w1);
            lemma_mul_congruent(o_1, o_2, line_at(w0, w1, xi), line_at(w0, w1, yi));
            let a = line_at(w0, w1, xi);
            let b = line_at(w0, w1, yi);
            let low = line_at(w0 * w0, w1 * w0, xi);
            let high = line_at(w0 * w1, w1 * w1, xi);
            assert(low == w0 * a) by (nonlinear_arith)
                requires
                    a == w0 + xi * (w1 - w0),
                    low == w0 * w0 + xi * (w1 * w0 - w0 * w0),
            ;
            assert(high == w1 * a) by (nonlinear_arith)
                requires
                    a == w0 + xi * (w1 - w0),
                    high == w0 * w1 + xi * (w1 * w1 - w0 * w1),
            ;
            assert(low + yi * (high - low) == a * b) by (nonlinear_arith)
                requires
                    low == w0 * a,
                    high == w1 * a,
                    b == w0 + yi * (w1 - w0),
            ;
            assert(line_at(low, high, yi) == a * b);
            lemma_congruent_equal(
                evaluate_at(table, seq![x, y]),
                field_mul(o_1, o_2),
                line_at(w0, w1, xi) * line_at(w0, w1, yi),
            );
        },
    }
}

/// The wiring predicate of a single gate has eight entries; the one for the
/// single gate and its two wires is 1 where it has the operation, all others
/// are 0.
proof fn lemma_single_gate_wiring(gate: Operation, op: Operation)
    ensures
        wiring_len(1) == 8,
        wiring_table(seq![gate], op).len() == 8,
        wiring_table(seq![gate], op)[1] == (if gate == op {
            1nat
        } else {
            0nat
        }),
        forall|i: int| 0 <= i < 8 && i != 1 ==> wiring_table(seq![gate], op)[i] == 0,
{
    let gates = seq![gate];
    assert(wiring_len(1) == 8) by (nonlinear_arith)
        requires
            wiring_len(1) == 2 * ((2 * 1) * (2 * 1)),
    ;
    assert(gates.len() == 1);
    assert(gates[0] == gate);
    let table = wiring_table(gates, op);
    assert(2 * 2 == 4) by (nonlinear_arith);
    assert(table[0] == wiring_entry(gates, op, 0));
    assert(table[1] == wiring_entry(gates, op, 1));
    assert(table[2] == wiring_entry(gates, op, 2));
    assert(table[3] == wiring_entry(gates, op, 3));
    assert(table[4] == wiring_entry(gates, op, 4));
    assert(table[5] == wiring_entry(gates, op, 5));
    assert(table[6] == wiring_entry(gates, op, 6));
    assert(table[7] == wiring_entry(gates, op, 7));
}

/// A product of two factors at a point denotes the product of what the two
/// entries denote.
pub proof fn lemma_pair_product(a: Seq<nat>, s: Seq<nat>, x: int, ai: int, si: int)
    requires
        congruent(a[x] as int, ai),
        congruent(s[x] as int, si),
    ensures
        congruent(product_at(seq![a, s], x) as int, ai * si),
        product_at(seq![a, s], x) < modulus(),
{
    let pair = seq![a, s];
    assert(pair.drop_last() =~= seq![a]);
    assert(seq![a].drop_last() =~= Seq::<Seq<nat>>::empty());
    assert(pair.last() == s);
    assert(seq![a].last() == a);
    assert(product_at(Seq::<Seq<nat>>::empty(), x) == 1);
    assert(product_at(seq![a], x) == field_mul(product_at(seq![a].drop_last(), x), a[x]));
    assert(product_at(seq![a], x) == field_mul(1, a[x]));
    assert(product_at(pair, x) == field_mul(field_mul(1, a[x]), s[x]));
    lemma_congruent_refl(1);
    lemma_mul_congruent(1, a[x], 1, ai);
    lemma_mul_congruent(field_mul(1, a[x]), s[x], 1 * ai, si);
    assert((1 * ai) * si == ai * si) by (nonlinear_arith);
}

/// The sum of a product of two factors over four points, where the first
/// factor denotes zero at all points but the second.
proof fn lemma_pair_sum(a: Seq<nat>, s: Seq<nat>, a1: int, s1: int)
    requires
        congruent(a[0] as int, 0),
        congruent(a[1] as int, a1),
        congruent(a[2] as int, 0),
        congruent(a[3] as int, 0),
        congruent(s[1] as int, s1),
    ensures
        congruent(product_sum(seq![a, s], 4) as int, a1 * s1),
        product_sum(seq![a, s], 4) < modulus(),
{
    let pair = seq![a, s];
    lemma_congruent_refl(s[0] as int);
    lemma_congruent_refl(s[2] as int);
    lemma_congruent_refl(s[3] as int);
    lemma_congruent_refl(0);
    lemma_pair_product(a, s, 0, 0, s[0] as int);
    lemma_pair_product(a, s, 1, a1, s1);
    lemma_pair_product(a, s, 2, 0, s[2] as int);
    lemma_pair_product(a, s, 3, 0, s[3] as int);
    reveal_with_fuel(product_sum, 5);
    let p0 = product_at(pair, 0);
    let p1 = product_at(pair, 1);
    let p2 = product_at(pair, 2);
    let p3 = product_at(pair, 3);
    let (i0, i2, i3) = (0 * (s[0] as int), 0 * (s[2] as int), 0 * (s[3] as int));
    assert(i0 == 0 && i2 == 0 && i3 == 0) by (nonlinear_arith)
        requires
            i0 == 0 * (s[0] as int),
            i2 == 0 * (s[2] as int),
            i3 == 0 * (s[3] as int),
    ;
    lemma_add_congruent(0, p0, 0, i0);
    lemma_add_congruent(field_add(0, p0), p1, 0 + i0, a1 * s1);
    lemma_add_congruent(field_add(field_add(0, p0), p1), p2, 0 + i0 + a1 * s1, i2);
    lemma_add_congruent(
        field_add(field_add(field_add(0, p0), p1), p2),
        p3,
        0 + i0 + a1 * s1 + i2,
        i3,
    );
    assert(product_sum(pair, 4) == field_add(
        field_add(field_add(field_add(0, p0), p1), p2),
        p3,
    ));
}

/// The sum of two products over `count` points denotes the sum of what the
/// two sums denote.
pub proof fn lemma_two_products_sum(
    first: Seq<Seq<nat>>,
    second: Seq<Seq<nat>>,
    count: nat,
    x: int,
    y: int,
)
    requires
        congruent(product_sum(first, count) as int, x),
        congruent(product_sum(second, count) as int, y),
    ensures
        congruent(cube_sum(seq![first, second], count) as int, x + y),
        cube_sum(seq![first, second], count) < modulus(),
{
    let both = seq![first, second];
    assert(both.drop_last() =~= seq![first]);
    assert(seq![first].drop_last() =~= Seq::<Seq<Seq<nat>>>::empty());
    assert(both.last() == second);
    assert(seq![first].last() == first);
    assert(cube_sum(Seq::<Seq<Seq<nat>>>::empty(), count) == 0);
    assert(cube_sum(seq![first], count) == field_add(
        cube_sum(seq![first].drop_last(), count),
        product_sum(first, count),
    ));
    assert(cube_sum(seq![first], count) == field_add(0, product_sum(first, count)));
    lemma_congruent_refl(0);
    lemma_add_congruent(0, product_sum(first, count), 0, x);
    lemma_add_congruent(
        field_add(0, product_sum(first, count)),
        product_sum(second, count),
        0 + x,
        y,
    );
}

/// The wiring predicate of a single gate for `op`, with its first variable
/// bound to `r`, denotes zero at all points but the second, where it denotes
/// the line from that entry to zero.
proof fn lemma_bound_wiring(gate: Operation, op: Operation, r: nat)
    ensures
        bind_variable(wiring_table(seq![gate], op), 4, r).len() == 4,
        congruent(bind_variable(wiring_table(seq![gate], op), 4, r)[0] as int, 0),
        congruent(
            bind_variable(wiring_table(seq![gate], op), 4, r)[1] as int,
            line_at(
                if gate == op {
                    1
                } else {
                    0
                },
                0,
                r as int,
            ),
        ),
        congruent(bind_variable(wiring_table(seq![gate], op), 4, r)[2] as int, 0),
        congruent(bind_variable(wiring_table(seq![gate], op), 4, r)[3] as int, 0),
{
    let table = wiring_table(seq![gate], op);
    let ri = r as int;
    lemma_single_gate_wiring(gate, op);
    lemma_congruent_refl(0);
    lemma_congruent_refl(1);
    lemma_bound_entry_congruent(table, 4, r, 0, 0, 0);
    lemma_bound_entry_congruent(
        table,
        4,
        r,
        1,
        if gate == op {
            1
        } else {
            0
        },
        0,
    );
    lemma_bound_entry_congruent(table, 4, r, 2, 0, 0);
    lemma_bound_entry_congruent(table, 4, r, 3, 0, 0);
    assert(line_at(0, 0, ri) == 0) by (nonlinear_arith)
        requires
            line_at(0, 0, ri) == 0 + ri * (0 - 0),
    ;
}

/// The layer polynomial of the output layer sums over the hypercube to the
/// value of the padded output at the opening challenge.
pub proof fn lemma_output_layer_sum(gate: Operation, w: Seq<nat>, r: nat)
    requires
        w.len() == 2,
    ensures
        cube_sum(initial_fbc(r, seq![gate], w, w), 4) == evaluate_at(
            padded_output(layer_values(seq![gate], w)),
            seq![r],
        ),
{
    let gates = seq![gate];
    let (w0, w1, ri) = (w[0] as int, w[1] as int, r as int);
    let fbc = initial_fbc(r, gates, w, w);
    lemma_single_gate_wiring(gate, Operation::Add);
    let add = bind_variable(wiring_table(gates, Operation::Add), 4, r);
    let mul = bind_variable(wiring_table(gates, Operation::Mul), 4, r);
    let sums = outer_table(w, w, Operation::Add);
    let products = outer_table(w, w, Operation::Mul);
    assert(fbc =~= seq![seq![add, sums], seq![mul, products]]);
    assert(w.len() * w.len() == 4) by (nonlinear_arith)
        requires
            w.len() == 2,
    ;
    assert(sums[1] == apply_op(Operation::Add, w[0], w[1]));
    assert(products[1] == apply_op(Operation::Mul, w[0], w[1]));
    lemma_congruent_refl(w0);
    lemma_congruent_refl(w1);
    lemma_congruent_refl(0);
    lemma_add_congruent(w[0], w[1], w0, w1);
    lemma_mul_congruent(w[0], w[1], w0, w1);
    lemma_bound_wiring(gate, Operation::Add, r);
    lemma_bound_wiring(gate, Operation::Mul, r);
    let e_add: int = if gate == Operation::Add {
        1
    } else {
        0
    };
    let e_mul: int = if gate == Operation::Mul {
        1
    } else {
        0
    };
    lemma_pair_sum(add, sums, line_at(e_add, 0, ri), w0 + w1);
    lemma_pair_sum(mul, products, line_at(e_mul, 0, ri), w0 * w1);
    lemma_two_products_sum(
        seq![add, sums],
        seq![mul, products],
        4,
        line_at(e_add, 0, ri) * (w0 + w1),
        line_at(e_mul, 0, ri) * (w0 * w1),
    );
    // The claim.
    let values = layer_values(gates, w);
    assert(values.len() == 1);
    assert(gates[0] == gate);
    assert(values[0] == apply_op(gate, w[0], w[1]));
    let output = padded_output(values);
    assert(output =~= seq![values[0], 0nat]);
    let out: int = match gate {
        Operation::Add => w0 + w1,
        Operation::Mul => w0 * w1,
    };
    lemma_evaluate_one(output, r, out, 0);
    assert(line_at(e_add, 0, ri) * (w0 + w1) + line_at(e_mul, 0, ri) * (w0 * w1) == line_at(
        out,
        0,
        ri,
    )) by (nonlinear_arith)
        requires
            line_at(e_add, 0, ri) == e_add + ri * (0 - e_add),
            line_at(e_mul, 0, ri) == e_mul + ri * (0 - e_mul),
            line_at(out, 0, ri) == out + ri * (0 - out),
            (e_add == 1 && e_mul == 0 && out == w0 + w1) || (e_add == 0 && e_mul == 1 && out == w0
                * w1),
    ;
    lemma_congruent_equal(cube_sum(fbc, 4), evaluate_at(output, seq![r]), line_at(out, 0, ri));
}

/// `(0 + (1 * a) * s) + (1 * m) * p = a * s + m * p` in the field.
proof fn lemma_two_terms(a: nat, s: nat, m: nat, p: nat)
    ensures
        field_add(
            field_add(0, field_mul(field_mul(1, a), s)),
            field_mul(field_mul(1, m), p),
        ) == field_add(field_mul(a, s), field_mul(m, p)),
{
    let (ai, si, mi, pi) = (a as int, s as int, m as int, p as int);
    lemma_congruent_refl(ai);
    lemma_congruent_refl(si);
    lemma_congruent_refl(mi);
    lemma_congruent_refl(pi);
    lemma_congruent_refl(0);
    lemma_congruent_refl(1);
    lemma_mul_congruent(1, a, 1, ai);
    lemma_mul_congruent(field_mul(1, a), s, 1 * ai, si);
    lemma_mul_congruent(1, m, 1, mi);
    lemma_mul_congruent(field_mul(1, m), p, 1 * mi, pi);
    let first = field_mul(field_mul(1, a), s);
    let second = field_mul(field_mul(1, m), p);
    lemma_add_congruent(0, first, 0, (1 * ai) * si);
    lemma_add_congruent(field_add(0, first), second, 0 + (1 * ai) * si, (1 * mi) * pi);
    lemma_mul_congruent(a, s, ai, si);
    lemma_mul_congruent(m, p, mi, pi);
    lemma_add_congruent(field_mul(a, s), field_mul(m, p), ai * si, mi * pi);
    assert(0 + (1 * ai) * si + (1 * mi) * pi == ai * si + mi * pi) by (nonlinear_arith);
    lemma_congruent_equal(
        field_add(field_add(0, first), second),
        field_add(field_mul(a, s), field_mul(m, p)),
        ai * si + mi * pi,
    );
}

/// The value of a product of two factors at a point.
proof fn lemma_pair_eval(a: Seq<nat>, s: Seq<nat>, point: Seq<nat>)
    ensures
        product_eval(seq![a, s], point) == field_mul(
            field_mul(1, evaluate_at(a, point)),
            evaluate_at(s, point),
        ),
{
    let pair = seq![a, s];
    assert(pair.drop_last() =~= seq![a]);
    assert(seq![a].drop_last() =~= Seq::<Seq<nat>>::empty());
    assert(pair.last() == s);
    assert(seq![a].last() == a);
    assert(product_eval(Seq::<Seq<nat>>::empty(), point) == 1);
    assert(product_eval(seq![a], point) == field_mul(
        product_eval(seq![a].drop_last(), point),
        evaluate_at(a, point),
    ));
}

/// The value of a sum of two products at a point.
proof fn lemma_two_products_eval(first: Seq<Seq<nat>>, second: Seq<Seq<nat>>, point: Seq<nat>)
    ensures
        sum_eval(seq![first, second], point) == field_add(
            field_add(0, product_eval(first, point)),
            product_eval(second, point),
        ),
{
    let both = seq![first, second];
    assert(both.drop_last() =~= seq![first]);
    assert(seq![first].drop_last() =~= Seq::<Seq<Seq<nat>>>::empty());
    assert(both.last() == second);
    assert(seq![first].last() == first);
    assert(sum_eval(Seq::<Seq<Seq<nat>>>::empty(), point) == 0);
    assert(sum_eval(seq![first], point) == field_add(
        sum_eval(seq![first].drop_last(), point),
        product_eval(first, point),
    ));
}

/// The layer polynomial of the output layer, taken at the sum-check's
/// challenges `(x, y)`, has the value that the verifier expects: the wiring
/// predicates at `(r, x, y)` times the sum and the product of the values of
/// the layer below at `x` and at `y`.
pub proof fn lemma_output_layer_value(
    gate: Operation,
    w: Seq<nat>,
    r: nat,
    x: nat,
    y: nat,
    alpha: nat,
    beta: nat,
)
    requires
        w.len() == 2,
    ensures
        sum_eval(initial_fbc(r, seq![gate], w, w), seq![x, y]) == expected_claim(
            0,
            evaluate_at(wiring_table(seq![gate], Operation::Add), seq![r, x, y]),
            evaluate_at(wiring_table(seq![gate], Operation::Mul), seq![r, x, y]),
            evaluate_at(w, seq![x]),
            evaluate_at(w, seq![y]),
            alpha,
            beta,
        ),
{
    let gates = seq![gate];
    let fbc = initial_fbc(r, gates, w, w);
    let point = seq![x, y];
    let full = seq![r, x, y];
    lemma_single_gate_wiring(gate, Operation::Add);
    lemma_single_gate_wiring(gate, Operation::Mul);
    let add_table = wiring_table(gates, Operation::Add);
    let mul_table = wiring_table(gates, Operation::Mul);
    let add = bind_variable(add_table, 4, r);
    let mul = bind_variable(mul_table, 4, r);
    let sums = outer_table(w, w, Operation::Add);
    let products = outer_table(w, w, Operation::Mul);
    assert(fbc =~= seq![seq![add, sums], seq![mul, products]]);
    assert(full[0] == r);
    assert(full.skip(1) =~= point);
    assert(bind_first(add_table, r) == add);
    assert(bind_first(mul_table, r) == mul);
    assert(evaluate_at(add_table, full) == evaluate_at(add, point));
    assert(evaluate_at(mul_table, full) == evaluate_at(mul, point));
    lemma_outer_value(w, Operation::Add, x, y);
    lemma_outer_value(w, Operation::Mul, x, y);
    lemma_pair_eval(add, sums, point);
    lemma_pair_eval(mul, products, point);
    lemma_two_products_eval(seq![add, sums], seq![mul, products], point);
    lemma_two_terms(
        evaluate_at(add, point),
        evaluate_at(sums, point),
        evaluate_at(mul, point),
        evaluate_at(products, point),
    );
}

/// The verifier's check of the output layer passes on the prover's proof.
pub proof fn lemma_output_layer_passes(layers: Seq<Seq<Operation>>, inputs: Seq<nat>)
    requires
        layered(layers),
        inputs.len() == 2 * layers[0].len(),
    ensures
        layer_check(
            layers.last(),
            0,
            opening_check(initial_claim(Seq::empty(), honest_proof(layers, inputs).output)),
            initial_claim(Seq::empty(), honest_proof(layers, inputs).output).state,
            honest_proof(layers, inputs).polys[0],
            honest_proof(layers, inputs).claims[0].0,
            honest_proof(layers, inputs).claims[0].1,
        ) is Some,
{
    reveal(layer_proof);
    reveal(layer_check);
    let depth = layers.len();
    let values = circuit_values(layers, inputs);
    let sent = honest_proof(layers, inputs);
    let opened = initial_claim(Seq::empty(), sent.output);
    let gates = layers.last();
    let w = values[depth - 1];
    lemma2_to64();
    lemma_circuit_values(layers, inputs);
    // The shape of the top of the circuit.
    assert(layers[depth - 1].len() == pow2(0));
    assert(gates.len() == 1);
    assert(gates =~= seq![gates[0]]);
    if depth >= 2 {
        assert(layers[depth - 2].len() == pow2(1));
    }
    assert(w.len() == 2);
    let below = circuit_values(layers.drop_last(), inputs);
    lemma_circuit_values(layers.drop_last(), inputs);
    assert(below.last() == w);
    assert(values.last() == layer_values(gates, w));
    // What the prover sends for the layer.
    let at = opening_claims(opened);
    let step = layer_proof(gates, w, 0, at, opened.state);
    let fbc = initial_fbc(opened.challenge, gates, w, w);
    let start = opened.state + encode_elements(seq![opened.claim]);
    assert(layer_polynomial(gates, w, 0, at) == fbc);
    lemma_layer_polynomial_shape(gates, w, 0, at);
    assert(w.len() * w.len() == 4) by (nonlinear_arith)
        requires
            w.len() == 2,
    ;
    let rounds = prove_rounds(fbc, start, 2);
    lemma_prove_rounds_len(fbc, start, 2);
    let challenges = rounds.challenges;
    assert(challenges =~= seq![challenges[0], challenges[1]]);
    assert(challenges.take(1) =~= seq![challenges[0]]);
    assert(challenges.skip(1) =~= seq![challenges[1]]);
    assert(sent.polys[0] == step.polys);
    assert(sent.claims[0] == (step.o_1, step.o_2));
    // The sum-check passes.
    lemma_output_layer_sum(gates[0], w, opened.challenge);
    assert(fbc.len() == 2 && fbc[0].len() == 2 && fbc[1].len() == 2);
    lemma_rounds_complete(fbc, start, 2);
    // The sum-check ends in the value that the verifier expects.
    let checked = verify_rounds(step.polys, opened.claim, start);
    let merged = merge_claims(checked.state, step.o_1, step.o_2);
    lemma_output_layer_value(
        gates[0],
        w,
        opened.challenge,
        challenges[0],
        challenges[1],
        merged.alpha,
        merged.beta,
    );
    assert(wiring_point(opened.challenge, challenges) =~= seq![
        opened.challenge,
        challenges[0],
        challenges[1],
    ]);
    assert(wiring_len(1) == pow2(3)) by {
        assert(wiring_len(1) == 8) by (nonlinear_arith)
            requires
                wiring_len(1) == 2 * ((2 * 1) * (2 * 1)),
        ;
    }
}

} // verus!
