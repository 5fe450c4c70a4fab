//! Multilinear polynomials in evaluation form.
//!
//! A polynomial in `n` variables is the table of its `2^n` values on the
//! boolean hypercube. The first variable is the most significant bit of the
//! index of an entry, the last variable the least significant.

use crate::field::{
    field_add, field_mul, field_sub, lemma_add_congruent, lemma_congruent_equal,
    lemma_congruent_refl, lemma_mul_congruent, lemma_sub_congruent, modulus, Fe,
};
use vstd::arithmetic::div_mod::{lemma_fundamental_div_mod, lemma_fundamental_div_mod_converse};
use vstd::arithmetic::power2::{lemma_pow2_pos, lemma_pow2_unfold, pow2};
use vstd::prelude::*;

verus! {

/// The index of the entry that `j` comes from when the variable of weight
/// `stride` is set to zero; the entry for one lies `stride` further on.
pub open spec fn low_index(stride: nat, j: int) -> int {
    (j / stride as int) * (2 * stride) + j % (stride as int)
}

/// Entry `j` of a table after the variable of weight `stride` is bound to `x`:
/// the line through the two entries that differ in that variable, taken at `x`.
pub open spec fn bound_entry(table: Seq<nat>, stride: nat, x: nat, j: int) -> nat {
    let lo = low_index(stride, j);
    field_add(table[lo], field_mul(x, field_sub(table[lo + stride], table[lo])))
}

/// The table that is left when the variable of weight `stride` is bound to `x`.
pub open spec fn bind_variable(table: Seq<nat>, stride: nat, x: nat) -> Seq<nat> {
    Seq::new(table.len() / 2, |j: int| bound_entry(table, stride, x, j))
}

/// The table that is left when the first variable is bound to `x`.
pub open spec fn bind_first(table: Seq<nat>, x: nat) -> Seq<nat> {
    bind_variable(table, table.len() / 2, x)
}

/// The table that is left when the leading variables are bound to `values`:
/// the first value binds the first variable, the next one the next.
pub open spec fn bind_leading(table: Seq<nat>, values: Seq<nat>) -> Seq<nat>
    decreases values.len(),
{
    if values.len() == 0 {
        table
    } else {
        bind_leading(bind_first(table, values[0]), values.skip(1))
    }
}

/// The value of the polynomial at `point`: the variables are bound in order,
/// and the one entry that is left is the value.
pub open spec fn evaluate_at(table: Seq<nat>, point: Seq<nat>) -> nat
    decreases point.len(),
{
    if point.len() == 0 {
        table[0]
    } else {
        evaluate_at(bind_first(table, point[0]), point.skip(1))
    }
}

/// The length of a table of `len` entries after `count` variables are bound.
pub open spec fn halved(len: nat, count: nat) -> nat
    decreases count,
{
    if count == 0 {
        len
    } else {
        halved(len / 2, (count - 1) as nat)
    }
}

/// Binding leading variables halves the table once for each value.
pub proof fn lemma_bind_leading_len(table: Seq<nat>, values: Seq<nat>)
    ensures
        bind_leading(table, values).len() == halved(table.len(), values.len()),
    decreases values.len(),
{
    if values.len() > 0 {
        lemma_bind_leading_len(bind_first(table, values[0]), values.skip(1));
    }
}

/// The value at a point is the value, with the leading variables bound to the
/// first coordinates, at the other coordinates.
pub proof fn lemma_evaluate_append(table: Seq<nat>, first: Seq<nat>, rest: Seq<nat>)
    ensures
        evaluate_at(table, first + rest) == evaluate_at(bind_leading(table, first), rest),
    decreases first.len(),
{
    if first.len() == 0 {
        assert(first + rest =~= rest);
    } else {
        let point = first + rest;
        assert(point[0] == first[0]);
        assert(point.skip(1) =~= first.skip(1) + rest);
        lemma_evaluate_append(bind_first(table, first[0]), first.skip(1), rest);
    }
}

/// The number of variables of a polynomial whose table has `len` entries.
pub open spec fn variable_count(len: nat) -> nat
    decreases len,
{
    if len <= 1 {
        0
    } else {
        1 + variable_count(len / 2)
    }
}

/// The table of a polynomial in `n` variables has `n` variables.
pub proof fn lemma_variable_count_pow2(n: nat)
    ensures
        variable_count(pow2(n)) == n,
    decreases n,
{
    lemma_pow2_pos(n);
    if n == 0 {
        assert(pow2(0) == 1) by {
            vstd::arithmetic::power2::lemma2_to64();
        }
    } else {
        lemma_pow2_unfold(n);
        lemma_pow2_pos((n - 1) as nat);
        lemma_variable_count_pow2((n - 1) as nat);
        assert(pow2(n) / 2 == pow2((n - 1) as nat));
    }
}

/// The point of the boolean hypercube whose entry has index `index` in the
/// table of a polynomial in `n` variables: the bits of the index, the most
/// significant first.
pub open spec fn corner(index: nat, n: nat) -> Seq<nat>
    decreases n,
{
    if n == 0 {
        Seq::empty()
    } else {
        let half = pow2((n - 1) as nat);
        seq![index / half] + corner(index % half, (n - 1) as nat)
    }
}

/// The line through `lo` and `hi` is `lo` at zero and `hi` at one.
proof fn lemma_line_ends(lo: nat, hi: nat)
    requires
        lo < modulus(),
        hi < modulus(),
    ensures
        field_add(lo, field_mul(0, field_sub(hi, lo))) == lo,
        field_add(lo, field_mul(1, field_sub(hi, lo))) == hi,
{
    let (li, hi_i) = (lo as int, hi as int);
    let slope = field_sub(hi, lo);
    lemma_congruent_refl(li);
    lemma_congruent_refl(hi_i);
    lemma_congruent_refl(0);
    lemma_congruent_refl(1);
    lemma_sub_congruent(hi, lo, hi_i, li);
    lemma_mul_congruent(0, slope, 0, hi_i - li);
    lemma_mul_congruent(1, slope, 1, hi_i - li);
    lemma_add_congruent(lo, field_mul(0, slope), li, 0 * (hi_i - li));
    lemma_add_congruent(lo, field_mul(1, slope), li, 1 * (hi_i - li));
    assert(li + 0 * (hi_i - li) == li) by (nonlinear_arith);
    assert(li + 1 * (hi_i - li) == hi_i) by (nonlinear_arith);
    lemma_congruent_equal(field_add(lo, field_mul(0, slope)), lo, li);
    lemma_congruent_equal(field_add(lo, field_mul(1, slope)), hi, hi_i);
}

/// The polynomial extends its table: at a point of the boolean hypercube its
/// value is the entry of the table for that point.
pub proof fn lemma_evaluate_on_cube(table: Seq<nat>, n: nat, index: nat)
    requires
        table.len() == pow2(n),
        index < pow2(n),
        forall|i: int| 0 <= i < table.len() ==> (#[trigger] table[i]) < modulus(),
    ensures
        evaluate_at(table, corner(index, n)) == table[index as int],
    decreases n,
{
    if n > 0 {
        let half = pow2((n - 1) as nat);
        lemma_pow2_unfold(n);
        lemma_pow2_pos((n - 1) as nat);
        let bit = index / half;
        let rest = index % half;
        lemma_fundamental_div_mod(index as int, half as int);
        assert(bit == 0 || bit == 1) by (nonlinear_arith)
            requires
                index == half * bit + rest,
                index < 2 * half,
                0 <= rest,
                half > 0,
        ;
        let point = corner(index, n);
        assert(point[0] == bit);
        assert(point.skip(1) =~= corner(rest, (n - 1) as nat));
        let bound = bind_first(table, bit);
        assert(table.len() / 2 == half);
        assert forall|j: int| 0 <= j < bound.len() implies (#[trigger] bound[j]) < modulus()
            && bound[j] == table[j + bit * half] by {
            vstd::arithmetic::div_mod::lemma_small_mod(j as nat, half);
            vstd::arithmetic::div_mod::lemma_basic_div(j, half as int);
            assert(0 * (2 * half) == 0) by (nonlinear_arith);
            assert(low_index(half, j) == j);
            assert(bound[j] == bound_entry(table, half, bit, j));
            lemma_line_ends(table[j], table[j + half]);
            assert(bit * half == (if bit == 0 {
                0
            } else {
                half
            })) by (nonlinear_arith)
                requires
                    bit == 0 || bit == 1,
            ;
        }
        assert(bound.len() == half);
        lemma_evaluate_on_cube(bound, (n - 1) as nat, rest);
        assert(rest + bit * half == index) by (nonlinear_arith)
            requires
                index == half * bit + rest,
        ;
        assert(evaluate_at(table, point) == evaluate_at(bound, point.skip(1)));
        assert(bound[rest as int] == table[rest as int + bit * half]);
    } else {
        assert(pow2(0) == 1) by {
            vstd::arithmetic::power2::lemma2_to64();
        }
        assert(corner(index, n).len() == 0);
    }
}

/// Every entry multiplied by `c`.
pub open spec fn scale_table(table: Seq<nat>, c: nat) -> Seq<nat> {
    Seq::new(table.len(), |i: int| field_mul(c, table[i]))
}

/// The entrywise sum of two tables of one length.
pub open spec fn add_tables(a: Seq<nat>, b: Seq<nat>) -> Seq<nat> {
    Seq::new(a.len(), |i: int| field_add(a[i], b[i]))
}

/// The two entries that feed entry `j` lie inside the table.
pub proof fn lemma_low_index_bound(len: nat, stride: nat, j: int)
    requires
        stride > 0,
        len % (2 * stride) == 0,
        0 <= j < len / 2,
    ensures
        0 <= low_index(stride, j),
        low_index(stride, j) + stride < len,
        2 * stride <= len,
{
    let s = stride as int;
    let m = (len as int) / (2 * s);
    let q = j / s;
    let r = j % s;
    lemma_fundamental_div_mod(len as int, 2 * s);
    lemma_fundamental_div_mod(j, s);
    assert(len == (2 * s) * m);
    assert(j == s * q + r);
    assert(0 <= r < s);
    assert(len as int / 2 == s * m) by (nonlinear_arith)
        requires
            len == (2 * s) * m,
    ;
    assert(q < m) by (nonlinear_arith)
        requires
            s * q + r < s * m,
            0 <= r,
            s > 0,
    ;
    assert(0 <= q) by (nonlinear_arith)
        requires
            j == s * q + r,
            0 <= j,
            r < s,
            s > 0,
    ;
    assert(q * (2 * s) + 2 * s <= (2 * s) * m) by (nonlinear_arith)
        requires
            q < m,
            s > 0,
    ;
    assert(0 <= q * (2 * s)) by (nonlinear_arith)
        requires
            0 <= q,
            s > 0,
    ;
    assert(m >= 1);
    assert(2 * s <= (2 * s) * m) by (nonlinear_arith)
        requires
            m >= 1,
            s > 0,
    ;
}

/// Binds the variable of weight `stride` to `x`.
pub fn bind(table: &Vec<Fe>, stride: usize, x: Fe) -> (bound: Vec<Fe>)
    requires
        stride > 0,
        table.len() as int % (2 * stride) == 0,
    ensures
        bound.len() == table.len() / 2,
        bound.deep_view() == bind_variable(table.deep_view(), stride as nat, x@),
{
    let half = table.len() / 2;
    let mut bound: Vec<Fe> = Vec::new();
    let mut j: usize = 0;
    while j < half
        invariant
            stride > 0,
            table.len() as int % (2 * stride) == 0,
            half == table.len() / 2,
            j <= half,
            bound.len() == j,
            forall|k: int|
                0 <= k < j ==> (#[trigger] bound@[k])@ == bound_entry(
                    table.deep_view(),
                    stride as nat,
                    x@,
                    k,
                ),
        decreases half - j,
    {
        proof {
            lemma_low_index_bound(table.len() as nat, stride as nat, j as int);
        }
        let lo = (j / stride) * (2 * stride) + j % stride;
        let a = table[lo];
        let b = table[lo + stride];
        let v = a.add(x.mul(b.sub(a)));
        bound.push(v);
        j = j + 1;
    }
    proof {
        assert(bound.deep_view() =~= bind_variable(table.deep_view(), stride as nat, x@));
    }
    bound
}

/// A multilinear polynomial, given by its values on the boolean hypercube.
#[derive(Clone, Debug, PartialEq, Eq)]
pub struct MultilinearPoly {
    pub evaluation: Vec<Fe>,
}

impl View for MultilinearPoly {
    type V = Seq<nat>;

    /// The values of the table.
    open spec fn view(&self) -> Seq<nat> {
        self.evaluation.deep_view()
    }
}

impl DeepView for MultilinearPoly {
    type V = Seq<nat>;

    open spec fn deep_view(&self) -> Seq<nat> {
        self.evaluation.deep_view()
    }
}

impl MultilinearPoly {
    /// The polynomial with the given table of values.
    pub fn new(evaluation: Vec<Fe>) -> (poly: MultilinearPoly)
        ensures
            poly.evaluation == evaluation,
    {
        MultilinearPoly { evaluation }
    }

    /// The polynomial in one variable fewer that is left when variable
    /// `var_index` is bound to `value`.
    pub fn partial_evaluate(&self, var_index: usize, value: &Fe) -> (poly: MultilinearPoly)
        requires
            self.evaluation.len() > 0,
            self.evaluation.len() as nat % pow2(var_index as nat + 1) == 0,
        ensures
            poly@ == bind_variable(
                self@,
                self.evaluation.len() as nat / pow2(var_index as nat + 1),
                value@,
            ),
            poly.evaluation.len() == self.evaluation.len() / 2,
    {
        let len = self.evaluation.len();
        proof {
            assert(pow2(0) == 1) by {
                vstd::arithmetic::power2::lemma2_to64();
            }
            assert(len == len * pow2(0)) by (nonlinear_arith)
                requires
                    pow2(0) == 1,
            ;
            lemma_halving(len as nat, len as nat, 0, var_index as nat + 1);
        }
        let mut stride: usize = len / 2;
        let mut i: usize = 0;
        while i < var_index
            invariant
                i <= var_index,
                len == stride * pow2(i as nat + 1),
                len > 0,
                len as nat % pow2(var_index as nat + 1) == 0,
            decreases var_index - i,
        {
            proof {
                lemma_halving(len as nat, stride as nat, i as nat + 1, var_index as nat + 1);
            }
            stride = stride / 2;
            i = i + 1;
        }
        proof {
            let p = pow2(var_index as nat + 1);
            lemma_pow2_pos(var_index as nat + 1);
            lemma_pow2_pos(var_index as nat);
            lemma_pow2_unfold(var_index as nat + 1);
            lemma_fundamental_div_mod_converse(len as int, p as int, stride as int, 0);
            assert(stride > 0) by (nonlinear_arith)
                requires
                    len == stride * p,
                    len > 0,
            ;
            let h = pow2(var_index as nat);
            assert(len == (2 * stride) * h) by (nonlinear_arith)
                requires
                    len == stride * p,
                    p == 2 * h,
            ;
            lemma_fundamental_div_mod_converse(len as int, 2 * stride, h as int, 0);
        }
        MultilinearPoly { evaluation: bind(&self.evaluation, stride, *value) }
    }

    /// The polynomial that is left when the leading variables are bound to
    /// `values`, the first variable to the first value.
    pub fn multi_partial_evaluate(&self, values: &[Fe]) -> (poly: MultilinearPoly)
        requires
            self.evaluation.len() > 0,
            self.evaluation.len() as nat % pow2(values.len() as nat) == 0,
        ensures
            poly@ == bind_leading(self@, values.deep_view()),
            poly.evaluation.len() == halved(self.evaluation.len() as nat, values.len() as nat),
            poly.evaluation.len() > 0,
    {
        let n = values.len();
        proof {
            lemma_bind_leading_len(self@, values.deep_view());
        }
        if n == 0 {
            proof {
                assert(values.deep_view().len() == 0);
            }
            return MultilinearPoly { evaluation: copy_table(&self.evaluation) };
        }
        proof {
            lemma_halving_step(self.evaluation.len() as nat, n as nat);
            assert(values.deep_view().skip(0) =~= values.deep_view());
            assert(values.deep_view()[0] == values@[0]@);
        }
        let mut current = bind(&self.evaluation, self.evaluation.len() / 2, values[0]);
        let mut i: usize = 1;
        while i < n
            invariant
                1 <= i <= n,
                n == values.len(),
                current.len() > 0,
                current.len() as nat % pow2((n - i) as nat) == 0,
                bind_leading(current.deep_view(), values.deep_view().skip(i as int))
                    == bind_leading(self@, values.deep_view()),
                halved(current.len() as nat, (n - i) as nat) == halved(
                    self.evaluation.len() as nat,
                    n as nat,
                ),
            decreases n - i,
        {
            proof {
                lemma_halving_step(current.len() as nat, (n - i) as nat);
                let rest = values.deep_view().skip(i as int);
                assert(rest[0] == values@[i as int]@);
                assert(rest.skip(1) =~= values.deep_view().skip(i + 1));
            }
            current = bind(&current, current.len() / 2, values[i]);
            i = i + 1;
        }
        proof {
            assert(values.deep_view().skip(n as int).len() == 0);
        }
        MultilinearPoly { evaluation: current }
    }

    /// The value of the polynomial at `point`, one coordinate for each variable.
    pub fn evaluate(&self, point: &[Fe]) -> (value: Fe)
        requires
            self.evaluation.len() == pow2(point.len() as nat),
        ensures
            value@ == evaluate_at(self@, point.deep_view()),
    {
        let n = point.len();
        proof {
            lemma_pow2_pos(n as nat);
        }
        if n == 0 {
            return self.evaluation[0];
        }
        proof {
            lemma_first_step(self.evaluation.len() as nat, n as nat);
            assert(point.deep_view().skip(0) =~= point.deep_view());
        }
        let mut current = bind(&self.evaluation, self.evaluation.len() / 2, point[0]);
        let mut i: usize = 1;
        while i < n
            invariant
                1 <= i <= n,
                n == point.len(),
                current.len() == pow2((n - i) as nat),
                evaluate_at(current.deep_view(), point.deep_view().skip(i as int)) == evaluate_at(
                    self@,
                    point.deep_view(),
                ),
            decreases n - i,
        {
            proof {
                lemma_first_step(current.len() as nat, (n - i) as nat);
                let rest = point.deep_view().skip(i as int);
                assert(rest[0] == point@[i as int]@);
                assert(rest.skip(1) =~= point.deep_view().skip(i + 1));
            }
            current = bind(&current, current.len() / 2, point[i]);
            i = i + 1;
        }
        proof {
            lemma_pow2_pos(0);
            assert(point.deep_view().skip(n as int).len() == 0);
        }
        current[0]
    }

    /// The polynomial multiplied by the constant `c`.
    pub fn scale(&self, c: Fe) -> (poly: MultilinearPoly)
        ensures
            poly@ == scale_table(self@, c@),
            poly.evaluation.len() == self.evaluation.len(),
    {
        let mut scaled: Vec<Fe> = Vec::new();
        let mut i: usize = 0;
        while i < self.evaluation.len()
            invariant
                i <= self.evaluation.len(),
                scaled.len() == i,
                forall|k: int| 0 <= k < i ==> (#[trigger] scaled@[k])@ == field_mul(c@, self@[k]),
            decreases self.evaluation.len() - i,
        {
            scaled.push(c.mul(self.evaluation[i]));
            i = i + 1;
        }
        proof {
            assert(scaled.deep_view() =~= scale_table(self@, c@));
        }
        MultilinearPoly { evaluation: scaled }
    }

    /// The sum of two polynomials in the same variables.
    pub fn add(&self, other: &MultilinearPoly) -> (poly: MultilinearPoly)
        requires
            self.evaluation.len() == other.evaluation.len(),
        ensures
            poly@ == add_tables(self@, other@),
            poly.evaluation.len() == self.evaluation.len(),
    {
        let mut sum: Vec<Fe> = Vec::new();
        let mut i: usize = 0;
        while i < self.evaluation.len()
            invariant
                i <= self.evaluation.len(),
                self.evaluation.len() == other.evaluation.len(),
                sum.len() == i,
                forall|k: int|
                    0 <= k < i ==> (#[trigger] sum@[k])@ == field_add(self@[k], other@[k]),
            decreases self.evaluation.len() - i,
        {
            sum.push(self.evaluation[i].add(other.evaluation[i]));
            i = i + 1;
        }
        proof {
            assert(sum.deep_view() =~= add_tables(self@, other@));
        }
        MultilinearPoly { evaluation: sum }
    }
}

/// Whether a table of `len` entries belongs to a polynomial in `count`
/// variables.
pub fn has_variables(len: usize, count: usize) -> (fits: bool)
    ensures
        fits == (len == pow2(count as nat)),
{
    let mut rest = len;
    let mut i: usize = 0;
    proof {
        assert(pow2(0) == 1) by {
            vstd::arithmetic::power2::lemma2_to64();
        }
        assert(len == rest * pow2(0)) by (nonlinear_arith)
            requires
                len == rest,
                pow2(0) == 1,
        ;
    }
    while i < count
        invariant
            i <= count,
            len == rest * pow2(i as nat),
        decreases count - i,
    {
        if rest == 0 || rest % 2 != 0 {
            proof {
                lemma_not_power(len as nat, rest as nat, i as nat, count as nat);
            }
            return false;
        }
        proof {
            lemma_pow2_unfold(i as nat + 1);
            assert(len == (rest / 2) * pow2(i as nat + 1)) by (nonlinear_arith)
                requires
                    len == rest * pow2(i as nat),
                    rest % 2 == 0,
                    pow2(i as nat + 1) == 2 * pow2(i as nat),
            ;
        }
        rest = rest / 2;
        i = i + 1;
    }
    proof {
        lemma_pow2_pos(count as nat);
        if rest != 1 {
            assert(rest * pow2(count as nat) != pow2(count as nat)) by (nonlinear_arith)
                requires
                    rest != 1,
                    pow2(count as nat) > 0,
            ;
        } else {
            assert(rest * pow2(count as nat) == pow2(count as nat)) by (nonlinear_arith)
                requires
                    rest == 1,
            ;
        }
    }
    rest == 1
}

/// Whether `2^count` divides `len`.
pub fn divisible_by_pow2(len: usize, count: usize) -> (divides: bool)
    ensures
        divides == (len as nat % pow2(count as nat) == 0),
{
    let mut rest = len;
    let mut i: usize = 0;
    proof {
        assert(pow2(0) == 1) by {
            vstd::arithmetic::power2::lemma2_to64();
        }
        assert(len == rest * pow2(0)) by (nonlinear_arith)
            requires
                len == rest,
                pow2(0) == 1,
        ;
    }
    while i < count
        invariant
            i <= count,
            len == rest * pow2(i as nat),
        decreases count - i,
    {
        if rest == 0 {
            proof {
                lemma_pow2_pos(count as nat);
                assert(len == 0) by (nonlinear_arith)
                    requires
                        len == rest * pow2(i as nat),
                        rest == 0,
                ;
            }
            return true;
        }
        if rest % 2 != 0 {
            proof {
                lemma_not_multiple(len as nat, rest as nat, i as nat, count as nat);
            }
            return false;
        }
        proof {
            lemma_pow2_unfold(i as nat + 1);
            assert(len == (rest / 2) * pow2(i as nat + 1)) by (nonlinear_arith)
                requires
                    len == rest * pow2(i as nat),
                    rest % 2 == 0,
                    pow2(i as nat + 1) == 2 * pow2(i as nat),
            ;
        }
        rest = rest / 2;
        i = i + 1;
    }
    proof {
        lemma_pow2_pos(count as nat);
        lemma_fundamental_div_mod_converse(len as int, pow2(count as nat) as int, rest as int, 0);
    }
    true
}

/// A number with an odd factor next to `2^i` is no multiple of a higher power
/// of two.
proof fn lemma_not_multiple(len: nat, rest: nat, i: nat, count: nat)
    requires
        i < count,
        len == rest * pow2(i),
        rest % 2 != 0,
    ensures
        len % pow2(count) != 0,
{
    let pi = pow2(i);
    let pc = pow2(count);
    let more = pow2((count - i - 1) as nat);
    lemma_pow2_pos(i);
    lemma_pow2_pos(count);
    lemma_pow2_pos((count - i - 1) as nat);
    lemma_pow2_unfold(i + 1);
    vstd::arithmetic::power2::lemma_pow2_adds(i + 1, (count - i - 1) as nat);
    assert(pc == pow2(i + 1) * more);
    if len % pc == 0 {
        lemma_fundamental_div_mod(len as int, pc as int);
        let m = len as int / pc as int;
        assert(rest * pi == pi * (2 * (more * m))) by (nonlinear_arith)
            requires
                len == rest * pi,
                len == pc * m,
                pc == pow2(i + 1) * more,
                pow2(i + 1) == 2 * pi,
        ;
        assert(rest == 2 * (more * m)) by (nonlinear_arith)
            requires
                rest * pi == pi * (2 * (more * m)),
                pi > 0,
        ;
        assert(false);
    }
}

/// A number with an odd or zero factor next to `2^i` is no higher power of two.
proof fn lemma_not_power(len: nat, rest: nat, i: nat, count: nat)
    requires
        i < count,
        len == rest * pow2(i),
        rest == 0 || rest % 2 != 0,
    ensures
        len != pow2(count),
{
    lemma_pow2_pos(count);
    if rest == 0 {
        assert(len == 0) by (nonlinear_arith)
            requires
                len == rest * pow2(i),
                rest == 0,
        ;
    } else {
        lemma_not_multiple(len, rest, i, count);
        if len == pow2(count) {
            assert(len % len == 0) by (nonlinear_arith)
                requires
                    len > 0,
            ;
        }
    }
}

/// A copy of a table.
pub fn copy_table(table: &Vec<Fe>) -> (copy: Vec<Fe>)
    ensures
        copy@ == table@,
{
    let mut copy: Vec<Fe> = Vec::new();
    let mut i: usize = 0;
    while i < table.len()
        invariant
            i <= table.len(),
            copy@ == table@.take(i as int),
        decreases table.len() - i,
    {
        copy.push(table[i]);
        i = i + 1;
        proof {
            assert(table@.take(i as int) =~= table@.take(i - 1).push(table@[i - 1]));
        }
    }
    proof {
        assert(table@.take(i as int) =~= table@);
    }
    copy
}

/// One step of the search for a variable's weight: while fewer than `k`
/// halvings are done, the current weight is even and half of it still divides
/// the length as the invariant needs.
proof fn lemma_halving(len: nat, stride: nat, i: nat, k: nat)
    requires
        i < k,
        len == stride * pow2(i),
        len > 0,
        len % pow2(k) == 0,
    ensures
        stride % 2 == 0,
        len == (stride / 2) * pow2(i + 1),
{
    let pi = pow2(i);
    let pk = pow2(k);
    lemma_pow2_pos(i);
    lemma_pow2_pos(k);
    lemma_pow2_unfold(i + 1);
    vstd::arithmetic::power2::lemma_pow2_adds(i + 1, (k - i - 1) as nat);
    let rest = pow2((k - i - 1) as nat);
    lemma_pow2_pos((k - i - 1) as nat);
    assert(pk == 2 * pi * rest) by (nonlinear_arith)
        requires
            pk == pow2(i + 1) * rest,
            pow2(i + 1) == 2 * pi,
    ;
    lemma_fundamental_div_mod(len as int, pk as int);
    let m = len as int / pk as int;
    assert(len == pk * m);
    assert(stride * pi == pi * (2 * rest * m)) by (nonlinear_arith)
        requires
            len == stride * pi,
            len == pk * m,
            pk == 2 * pi * rest,
    ;
    assert(stride == 2 * rest * m) by (nonlinear_arith)
        requires
            stride * pi == pi * (2 * rest * m),
            pi > 0,
    ;
    assert(stride == 2 * (rest * m)) by (nonlinear_arith)
        requires
            stride == 2 * rest * m,
    ;
    assert(len == (stride / 2) * pow2(i + 1)) by (nonlinear_arith)
        requires
            len == stride * pi,
            stride == 2 * (rest * m),
            stride / 2 == rest * m,
            pow2(i + 1) == 2 * pi,
    ;
}

/// A table of positive length that `2^n` divides, with `n > 0`, has even
/// length, `2^(n-1)` divides its half, and binding its first variable is in
/// order.
proof fn lemma_halving_step(len: nat, n: nat)
    requires
        n > 0,
        len > 0,
        len % pow2(n) == 0,
    ensures
        len % 2 == 0,
        len / 2 > 0,
        len % (2 * (len / 2)) == 0,
        (len / 2) % pow2((n - 1) as nat) == 0,
{
    let p = pow2(n);
    let h = pow2((n - 1) as nat);
    lemma_pow2_pos(n);
    lemma_pow2_pos((n - 1) as nat);
    lemma_pow2_unfold(n);
    lemma_fundamental_div_mod(len as int, p as int);
    let m = len as int / p as int;
    assert(len == 2 * (h * m)) by (nonlinear_arith)
        requires
            len == p * m,
            p == 2 * h,
    ;
    assert(len as int / 2 == h * m);
    lemma_fundamental_div_mod_converse(len as int / 2, h as int, m, 0);
    assert(2 * (len / 2) == len);
    assert(len % len == 0) by (nonlinear_arith)
        requires
            len > 0,
    ;
}

/// A table of length `2^n`, with `n > 0`, has even length, and its half has
/// length `2^(n-1)`.
proof fn lemma_first_step(len: nat, n: nat)
    requires
        n > 0,
        len == pow2(n),
    ensures
        len / 2 > 0,
        len % (2 * (len / 2)) == 0,
        len / 2 == pow2((n - 1) as nat),
{
    lemma_pow2_pos((n - 1) as nat);
    lemma_pow2_unfold(n);
    let h = pow2((n - 1) as nat);
    assert(len == 2 * h);
    assert(len / 2 == h);
    assert(2 * (len / 2) == len);
    assert(len % len == 0) by (nonlinear_arith)
        requires
            len > 0,
    ;
}

} // verus!
