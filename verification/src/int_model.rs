//! Multilinear polynomials over the integers, which the tables of field
//! elements are reasoned about with: a table of field elements is modelled by
//! a table of integers that denote its entries.

use crate::field::{
    congruent, field_add, field_mul, field_sub, lemma_add_congruent, lemma_congruent_line,
    lemma_congruent_refl, lemma_mul_congruent, lemma_sub_congruent, modulus,
};
use crate::multilinear::{bind_first, bind_variable, bound_entry, evaluate_at, low_index};
use vstd::arithmetic::power2::{lemma_pow2_pos, lemma_pow2_unfold, pow2};
use vstd::prelude::*;

verus! {

/// The entries of a table as integers.
pub open spec fn as_ints(table: Seq<nat>) -> Seq<int> {
    Seq::new(table.len(), |i: int| table[i] as int)
}

/// The table that is left when the first variable is bound to `r`.
pub open spec fn int_bind(c: Seq<int>, r: int) -> Seq<int> {
    Seq::new(c.len() / 2, |a: int| c[a] + r * (c[a + c.len() / 2] - c[a]))
}

/// The value of the polynomial with table `c` at `point`.
pub open spec fn int_eval(c: Seq<int>, point: Seq<nat>) -> int
    decreases point.len(),
{
    if point.len() == 0 {
        c[0]
    } else {
        int_eval(int_bind(c, point[0] as int), point.skip(1))
    }
}

/// The two tables have one length and denote the same elements entry by entry.
pub open spec fn similar(c: Seq<int>, d: Seq<int>) -> bool {
    c.len() == d.len() && forall|i: int| 0 <= i < c.len() ==> congruent(#[trigger] c[i], d[i])
}

/// A table is similar to itself.
pub proof fn lemma_similar_refl(c: Seq<int>)
    ensures
        similar(c, c),
{
    assert forall|i: int| 0 <= i < c.len() implies congruent(#[trigger] c[i], c[i]) by {
        lemma_congruent_refl(c[i]);
    }
}

/// Binding the first variable keeps tables similar.
pub proof fn lemma_int_bind_similar(c: Seq<int>, d: Seq<int>, r: int)
    requires
        similar(c, d),
    ensures
        similar(int_bind(c, r), int_bind(d, r)),
{
    let (x, y) = (int_bind(c, r), int_bind(d, r));
    let half = (c.len() / 2) as int;
    assert forall|i: int| 0 <= i < x.len() implies congruent(#[trigger] x[i], y[i]) by {
        assert(congruent(c[i], d[i]));
        assert(congruent(c[i + half], d[i + half]));
        lemma_congruent_line(c[i], d[i], c[i + half], d[i + half], r);
    }
}

/// Similar tables have congruent values.
pub proof fn lemma_int_eval_similar(c: Seq<int>, d: Seq<int>, point: Seq<nat>)
    requires
        similar(c, d),
        c.len() == pow2(point.len()),
    ensures
        congruent(int_eval(c, point), int_eval(d, point)),
    decreases point.len(),
{
    lemma_pow2_pos(point.len());
    if point.len() == 0 {
        assert(congruent(c[0], d[0]));
    } else {
        lemma_pow2_unfold(point.len());
        lemma_int_bind_similar(c, d, point[0] as int);
        lemma_int_eval_similar(
            int_bind(c, point[0] as int),
            int_bind(d, point[0] as int),
            point.skip(1),
        );
    }
}

/// An entry of a table with its first variable bound denotes the line through
/// what the two entries denote that it comes from.
pub proof fn lemma_bound_entry_line(table: Seq<nat>, half: nat, r: nat, x: int, lo: int, hi: int)
    requires
        0 <= x < half,
        table.len() == 2 * half,
        congruent(table[x] as int, lo),
        congruent(table[x + half] as int, hi),
    ensures
        congruent(bind_variable(table, half, r)[x] as int, lo + r as int * (hi - lo)),
        bind_variable(table, half, r)[x] < modulus(),
        bind_variable(table, half, r).len() == half,
        bind_variable(table, half, r)[x] == field_add(
            table[x],
            field_mul(r, field_sub(table[x + half], table[x])),
        ),
{
    vstd::arithmetic::div_mod::lemma_small_mod(x as nat, half);
    vstd::arithmetic::div_mod::lemma_basic_div(x, half as int);
    assert(0 * (2 * half) == 0) by (nonlinear_arith);
    assert(low_index(half, x) == x);
    assert(bind_variable(table, half, r)[x] == bound_entry(table, half, r, x));
    lemma_congruent_refl(r as int);
    lemma_sub_congruent(table[x + half], table[x], hi, lo);
    lemma_mul_congruent(r, field_sub(table[x + half], table[x]), r as int, hi - lo);
    lemma_add_congruent(
        table[x],
        field_mul(r, field_sub(table[x + half], table[x])),
        lo,
        r as int * (hi - lo),
    );
}

/// Binding the first variable of a table of field elements is modelled by
/// binding it in a table of integers that models the table.
pub proof fn lemma_bind_first_similar(table: Seq<nat>, c: Seq<int>, r: nat)
    requires
        similar(as_ints(table), c),
        table.len() % 2 == 0,
    ensures
        similar(as_ints(bind_first(table, r)), int_bind(c, r as int)),
        bind_first(table, r).len() == table.len() / 2,
{
    let half = table.len() / 2;
    let bound = bind_first(table, r);
    let (x, y) = (as_ints(bound), int_bind(c, r as int));
    assert forall|i: int| 0 <= i < x.len() implies congruent(#[trigger] x[i], y[i]) by {
        assert(as_ints(table)[i] == table[i] as int);
        assert(as_ints(table)[i + half] == table[i + half] as int);
        assert(congruent(as_ints(table)[i], c[i]));
        assert(congruent(as_ints(table)[i + half], c[i + half]));
        lemma_bound_entry_line(table, half, r, i, c[i], c[i + half]);
    }
}

/// The value of a polynomial over the field denotes the value of a
/// polynomial over the integers that models it.
pub proof fn lemma_evaluate_similar(table: Seq<nat>, c: Seq<int>, point: Seq<nat>)
    requires
        similar(as_ints(table), c),
        table.len() == pow2(point.len()),
    ensures
        congruent(evaluate_at(table, point) as int, int_eval(c, point)),
    decreases point.len(),
{
    lemma_pow2_pos(point.len());
    if point.len() == 0 {
        assert(as_ints(table)[0] == table[0] as int);
        assert(congruent(as_ints(table)[0], c[0]));
    } else {
        lemma_pow2_unfold(point.len());
        lemma_bind_first_similar(table, c, point[0]);
        lemma_evaluate_similar(
            bind_first(table, point[0]),
            int_bind(c, point[0] as int),
            point.skip(1),
        );
    }
}

/// The value of a polynomial over the field denotes the value of its entries
/// taken as integers.
pub proof fn lemma_evaluate_as_ints(table: Seq<nat>, point: Seq<nat>)
    requires
        table.len() == pow2(point.len()),
    ensures
        congruent(evaluate_at(table, point) as int, int_eval(as_ints(table), point)),
{
    lemma_similar_refl(as_ints(table));
    lemma_evaluate_similar(table, as_ints(table), point);
}

} // verus!
