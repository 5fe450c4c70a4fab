//! The GKR protocol: the prover reduces a claim about the output of a layered
//! circuit, layer by layer, to a claim about its inputs, and the verifier
//! follows the reduction without evaluating the circuit.
//!
//! For each layer the prover runs a sum-check on the layer polynomial
//! `add(b, c) * (W(b) + W(c)) + mul(b, c) * (W(b) * W(c))`, where `W` holds the
//! values of the layer below, and then claims the two values `W(r_b)` and
//! `W(r_c)` at the halves of the sum-check's challenges. Two fresh challenges
//! `alpha` and `beta` merge the two claims into the single claim
//! `alpha * W(r_b) + beta * W(r_c)` for the next layer, whose wiring
//! predicates the prover takes with their selector variables bound to `r_b`
//! and to `r_c` and merged with the same `alpha` and `beta`. Every layer
//! closes with one more challenge, drawn after the claims are merged, which
//! is the starting challenge of the next layer's check.
//!
//! The verifier checks each layer against the wiring predicates at the
//! layer's starting challenge followed by the sum-check's challenges, and
//! below the output layer it scales the two terms by the `alpha` and `beta`
//! that it draws in that same layer. The prover's polynomial for such a layer
//! is built before they are drawn, from the challenges of the layer above, so
//! the proofs of `prove` for circuits of two or more layers do not pass that
//! check, but for an accident of the digests. What does hold of the prover's
//! proofs is proved in `completeness`, `output_layer` and `layer_sum`: every
//! layer polynomial sums to its claim, the sum-check's verifier accepts the
//! prover's rounds, and the output layer passes its check.

use crate::composed_polynomial::{
    factors_have_len, products_have_len, sum_eval, ProductPoly, SumPoly,
};
use crate::field::{
    field_add, field_mul, lemma_elements_agree, lemma_neutral, lemma_view_injective, modulus, Fe,
};
use crate::gkr_circuit::{
    apply_op, circuit_values, layered, lemma_wiring_len, selector_count, well_formed, wiring_len,
    wiring_table, Circuit, Layer, Operation,
};
use crate::multilinear::{
    add_tables, bind_leading, bind_variable, copy_table, divisible_by_pow2, evaluate_at,
    halved, has_variables, lemma_bind_leading_len, lemma_variable_count_pow2, scale_table, variable_count,
    MultilinearPoly,
};
use crate::sum_check::{
    gkr_prove, gkr_verify, lemma_prove_rounds_len, prove_rounds, summable, table_len,
    round_accepts, verify_rounds, SumCheckProof, SumCheckVerification,
};
use crate::transcript::{
    challenge_of, encode_elements, encode_one, fq_vec_to_bytes, sha3_256, Transcript,
};
use crate::univariate::UnivariatePoly;
use vstd::arithmetic::div_mod::{lemma_fundamental_div_mod, lemma_fundamental_div_mod_converse};
use vstd::arithmetic::power2::{
    lemma2_to64, lemma_pow2_adds, lemma_pow2_pos, lemma_pow2_unfold, pow2,
};
use vstd::prelude::*;
use vstd::slice::{slice_subrange, slice_to_vec};

verus! {

/// The table that combines every entry of `a` with every entry of `b`: entry
/// `i * |b| + j` is `a[i] + b[j]` or `a[i] * b[j]`.
pub open spec fn outer_table(a: Seq<nat>, b: Seq<nat>, op: Operation) -> Seq<nat> {
    Seq::new(a.len() * b.len(), |k: int| apply_op(op, a[k / b.len() as int], b[k % b.len() as int]))
}

/// The layer polynomial of the output layer: the wiring predicates with their
/// first variable bound to `r`, each multiplied by the matching table of
/// `w_b` and `w_c`.
pub open spec fn initial_fbc(r: nat, gates: Seq<Operation>, w_b: Seq<nat>, w_c: Seq<nat>) -> Seq<
    Seq<Seq<nat>>,
> {
    let stride = wiring_len(gates.len()) / 2;
    seq![
        seq![
            bind_variable(wiring_table(gates, Operation::Add), stride, r),
            outer_table(w_b, w_c, Operation::Add),
        ],
        seq![
            bind_variable(wiring_table(gates, Operation::Mul), stride, r),
            outer_table(w_b, w_c, Operation::Mul),
        ],
    ]
}

/// A wiring predicate with its gate variables, which lead, bound once to
/// `r_b` and once to `r_c`, the two scaled by `alpha` and `beta` and added.
pub open spec fn merged_wiring(
    gates: Seq<Operation>,
    op: Operation,
    r_b: Seq<nat>,
    r_c: Seq<nat>,
    alpha: nat,
    beta: nat,
) -> Seq<nat> {
    add_tables(
        scale_table(bind_leading(wiring_table(gates, op), r_b), alpha),
        scale_table(bind_leading(wiring_table(gates, op), r_c), beta),
    )
}

/// The layer polynomial of a layer below the output: the merged wiring
/// predicates, each multiplied by the matching table of `w_b` and `w_c`.
pub open spec fn merged_fbc(
    gates: Seq<Operation>,
    w_b: Seq<nat>,
    w_c: Seq<nat>,
    r_b: Seq<nat>,
    r_c: Seq<nat>,
    alpha: nat,
    beta: nat,
) -> Seq<Seq<Seq<nat>>> {
    seq![
        seq![
            merged_wiring(gates, Operation::Add, r_b, r_c, alpha, beta),
            outer_table(w_b, w_c, Operation::Add),
        ],
        seq![
            merged_wiring(gates, Operation::Mul, r_b, r_c, alpha, beta),
            outer_table(w_b, w_c, Operation::Mul),
        ],
    ]
}

/// What merging the two claims of a layer gives.
pub struct MergedClaims {
    pub alpha: nat,
    pub beta: nat,
    /// The claim for the next layer: `alpha * o_1 + beta * o_2`.
    pub claim: nat,
    /// The transcript after both challenges.
    pub state: Seq<u8>,
}

/// The merge of the claims `o_1` and `o_2`: `o_1` is absorbed and `alpha`
/// drawn, then `o_2` is absorbed and `beta` drawn.
pub open spec fn merge_claims(state: Seq<u8>, o_1: nat, o_2: nat) -> MergedClaims {
    let absorbed_1 = state + encode_elements(seq![o_1]);
    let alpha = challenge_of(absorbed_1);
    let absorbed_2 = sha3_256(absorbed_1) + encode_elements(seq![o_2]);
    let beta = challenge_of(absorbed_2);
    MergedClaims {
        alpha,
        beta,
        claim: field_add(field_mul(alpha, o_1), field_mul(beta, o_2)),
        state: sha3_256(absorbed_2),
    }
}

/// The value that the verifier expects the sum-check of a layer to end in.
/// `a_r` and `m_r` are the wiring predicates at the verifier's point.
pub open spec fn expected_claim(
    layer_id: nat,
    a_r: nat,
    m_r: nat,
    o_1: nat,
    o_2: nat,
    alpha: nat,
    beta: nat,
) -> nat {
    let sum = field_add(o_1, o_2);
    let product = field_mul(o_1, o_2);
    if layer_id == 0 {
        field_add(field_mul(a_r, sum), field_mul(m_r, product))
    } else {
        field_add(
            field_mul(field_mul(alpha, a_r), sum),
            field_mul(field_mul(beta, m_r), product),
        )
    }
}

/// The point at which the verifier takes the wiring predicates of a layer:
/// the layer's starting challenge, then the two halves of the sum-check's
/// challenges.
pub open spec fn wiring_point(init: nat, challenges: Seq<nat>) -> Seq<nat> {
    let half = challenges.len() / 2;
    seq![init] + challenges.take(half as int) + challenges.skip(half as int)
}

/// What the verifier computes for one layer after its sum-check.
pub struct VerifierClaim {
    /// The value that the sum-check must have ended in.
    pub expected: nat,
    pub merged: MergedClaims,
}

/// The verifier's claims for layer `layer_id`, with the transcript in `state`.
pub open spec fn verifier_claim(
    gates: Seq<Operation>,
    init: nat,
    challenges: Seq<nat>,
    o_1: nat,
    o_2: nat,
    state: Seq<u8>,
    layer_id: nat,
) -> VerifierClaim {
    let point = wiring_point(init, challenges);
    let a_r = evaluate_at(wiring_table(gates, Operation::Add), point);
    let m_r = evaluate_at(wiring_table(gates, Operation::Mul), point);
    let merged = merge_claims(state, o_1, o_2);
    VerifierClaim {
        expected: expected_claim(layer_id, a_r, m_r, o_1, o_2, merged.alpha, merged.beta),
        merged,
    }
}

/// What opening the protocol gives.
pub struct InitialClaim {
    /// The value of the output polynomial at `challenge`.
    pub claim: nat,
    pub challenge: nat,
    pub state: Seq<u8>,
}

/// The opening of the protocol: the output values are absorbed, a challenge
/// is drawn, and the value of the output polynomial there is absorbed.
pub open spec fn initial_claim(state: Seq<u8>, output: Seq<nat>) -> InitialClaim {
    let absorbed = state + encode_elements(output);
    let challenge = challenge_of(absorbed);
    let claim = evaluate_at(output, seq![challenge]);
    InitialClaim { claim, challenge, state: sha3_256(absorbed) + encode_elements(seq![claim]) }
}

/// Opens the protocol on the output polynomial; returns the first claim and
/// the challenge it was taken at.
pub fn initiate_protocol(transcript: &mut Transcript, output_poly: &MultilinearPoly) -> (opened: (
    Fe,
    Fe,
))
    requires
        output_poly.evaluation.len() == 2,
    ensures
        opened.0@ == initial_claim(old(transcript)@, output_poly@).claim,
        opened.1@ == initial_claim(old(transcript)@, output_poly@).challenge,
        final(transcript)@ == initial_claim(old(transcript)@, output_poly@).state,
{
    let bytes = fq_vec_to_bytes(output_poly.evaluation.as_slice());
    transcript.append(bytes.as_slice());
    let random_challenge = transcript.get_random_challenge();
    let mut point: Vec<Fe> = Vec::new();
    point.push(random_challenge);
    let point = point.as_slice();
    proof {
        assert(point.deep_view() =~= seq![random_challenge@]);
        lemma_pow2_unfold(1);
        assert(pow2(0) == 1) by {
            vstd::arithmetic::power2::lemma2_to64();
        }
    }
    let m_0 = output_poly.evaluate(point);
    let claim_bytes = encode_one(m_0);
    transcript.append(claim_bytes.as_slice());
    (m_0, random_challenge)
}

/// An index into a table of `rows * columns` entries splits into a row and a
/// column.
proof fn lemma_outer_index(rows: int, columns: int, k: int)
    requires
        0 <= k < rows * columns,
        0 <= rows,
        0 <= columns,
    ensures
        0 <= k / columns < rows,
        0 <= k % columns < columns,
{
    assert(columns > 0) by (nonlinear_arith)
        requires
            0 <= k < rows * columns,
            0 <= rows,
            0 <= columns,
    ;
    lemma_fundamental_div_mod(k, columns);
    let q = k / columns;
    let r = k % columns;
    assert(0 <= q < rows) by (nonlinear_arith)
        requires
            k == columns * q + r,
            0 <= r < columns,
            0 <= k < rows * columns,
    ;
}

/// Entry `i * |b| + j` of the table that combines `a` with `b` is `a[i]`
/// combined with `b[j]`.
pub proof fn lemma_outer_entry(a: Seq<nat>, b: Seq<nat>, op: Operation, i: int, j: int)
    requires
        0 <= i < a.len(),
        0 <= j < b.len(),
    ensures
        0 <= i * b.len() + j < outer_table(a, b, op).len(),
        outer_table(a, b, op)[i * b.len() + j] == apply_op(op, a[i], b[j]),
{
    let columns = b.len() as int;
    lemma_fundamental_div_mod_converse(i * columns + j, columns, i, j);
    assert(0 <= i * columns) by (nonlinear_arith)
        requires
            0 <= i,
            0 <= columns,
    ;
    assert(i * columns + j < a.len() * columns) by (nonlinear_arith)
        requires
            0 <= i < a.len(),
            0 <= j < columns,
    ;
}

/// Combining a table with the one-entry table of the neutral element of the
/// operation, zero for addition and one for multiplication, leaves it
/// unchanged.
pub proof fn lemma_outer_neutral(a: Seq<nat>, op: Operation)
    requires
        forall|i: int| 0 <= i < a.len() ==> (#[trigger] a[i]) < modulus(),
    ensures
        outer_table(
            a,
            seq![
                match op {
                    Operation::Add => 0nat,
                    Operation::Mul => 1nat,
                },
            ],
            op,
        ) == a,
{
    let neutral = match op {
        Operation::Add => 0nat,
        Operation::Mul => 1nat,
    };
    let b = seq![neutral];
    let table = outer_table(a, b, op);
    assert(a.len() * 1 == a.len()) by (nonlinear_arith);
    assert forall|k: int| 0 <= k < table.len() implies #[trigger] table[k] == a[k] by {
        lemma_fundamental_div_mod_converse(k, 1, k, 0);
        lemma_neutral(a[k]);
        assert(b[0] == neutral);
    }
    assert(table =~= a);
}

/// The table that combines every entry of `poly_a` with every entry of
/// `poly_b` by `op`.
pub fn add_mul_polynomials(poly_a: &[Fe], poly_b: &[Fe], op: Operation) -> (poly: MultilinearPoly)
    requires
        poly_a.len() * poly_b.len() <= usize::MAX,
    ensures
        poly@ == outer_table(poly_a.deep_view(), poly_b.deep_view(), op),
        poly.evaluation.len() == poly_a.len() * poly_b.len(),
{
    let rows = poly_a.len();
    let columns = poly_b.len();
    let mut new_eval: Vec<Fe> = Vec::new();
    let mut i: usize = 0;
    while i < rows
        invariant
            i <= rows,
            rows == poly_a.len(),
            columns == poly_b.len(),
            rows * columns <= usize::MAX,
            new_eval.len() == i * columns,
            forall|k: int|
                0 <= k < new_eval.len() ==> (#[trigger] new_eval@[k])@ == apply_op(
                    op,
                    poly_a@[k / columns as int]@,
                    poly_b@[k % columns as int]@,
                ),
        decreases rows - i,
    {
        let mut j: usize = 0;
        while j < columns
            invariant
                i < rows,
                j <= columns,
                rows == poly_a.len(),
                columns == poly_b.len(),
                rows * columns <= usize::MAX,
                new_eval.len() == i * columns + j,
                forall|k: int|
                    0 <= k < new_eval.len() ==> (#[trigger] new_eval@[k])@ == apply_op(
                        op,
                        poly_a@[k / columns as int]@,
                        poly_b@[k % columns as int]@,
                    ),
            decreases columns - j,
        {
            proof {
                lemma_fundamental_div_mod_converse(
                    i * columns + j,
                    columns as int,
                    i as int,
                    j as int,
                );
                assert(i * columns + j < rows * columns) by (nonlinear_arith)
                    requires
                        i < rows,
                        j < columns,
                ;
            }
            new_eval.push(op.apply(poly_a[i], poly_b[j]));
            j = j + 1;
        }
        proof {
            assert(i * columns + columns == (i + 1) * columns) by (nonlinear_arith);
        }
        i = i + 1;
    }
    let poly = MultilinearPoly::new(new_eval);
    proof {
        let expected = outer_table(poly_a.deep_view(), poly_b.deep_view(), op);
        assert(poly@.len() == rows * columns);
        assert forall|k: int| 0 <= k < poly@.len() implies #[trigger] poly@[k] == expected[k] by {
            lemma_outer_index(rows as int, columns as int, k);
        }
        assert(poly@ =~= outer_table(poly_a.deep_view(), poly_b.deep_view(), op));
    }
    poly
}

/// The layer polynomial of the output layer, for the sum-check that reduces
/// the claim at `random_challenge`.
pub fn get_fbc_poly(random_challenge: Fe, layer: &Layer, w_b: &[Fe], w_c: &[Fe]) -> (fbc: SumPoly)
    requires
        layer@.len() > 0,
        wiring_len(layer@.len()) <= usize::MAX,
        w_b.len() * w_c.len() <= usize::MAX,
    ensures
        fbc@ == initial_fbc(random_challenge@, layer@, w_b.deep_view(), w_c.deep_view()),
{
    proof {
        lemma_pow2_unfold(1);
        assert(pow2(0) == 1) by {
            vstd::arithmetic::power2::lemma2_to64();
        }
        lemma_wiring_len(layer@.len());
    }
    let add_i = layer.get_add_mul_i(Operation::Add).partial_evaluate(0, &random_challenge);
    let mul_i = layer.get_add_mul_i(Operation::Mul).partial_evaluate(0, &random_challenge);
    let summed_w_poly = add_mul_polynomials(w_b, w_c, Operation::Add);
    let multiplied_w_poly = add_mul_polynomials(w_b, w_c, Operation::Mul);
    let add_eval_product = ProductPoly { polys: vec![add_i, summed_w_poly] };
    let mul_eval_product = ProductPoly { polys: vec![mul_i, multiplied_w_poly] };
    let fbc = SumPoly::new(vec![add_eval_product, mul_eval_product]);
    proof {
        let expected = initial_fbc(
            random_challenge@,
            layer@,
            w_b.deep_view(),
            w_c.deep_view(),
        );
        assert(fbc@[0] =~= expected[0]);
        assert(fbc@[1] =~= expected[1]);
        assert(fbc@ =~= expected);
    }
    fbc
}

/// The layer polynomial of a layer below the output, for the sum-check that
/// reduces the merged claim `alpha * W(r_b) + beta * W(r_c)`.
pub fn get_merged_fbc_poly(
    layer: &Layer,
    w_b: &[Fe],
    w_c: &[Fe],
    r_b: &[Fe],
    r_c: &[Fe],
    alpha: Fe,
    beta: Fe,
) -> (fbc: SumPoly)
    requires
        layer@.len() > 0,
        wiring_len(layer@.len()) <= usize::MAX,
        w_b.len() * w_c.len() <= usize::MAX,
        r_b.len() == r_c.len(),
        wiring_len(layer@.len()) % pow2(r_b.len() as nat) == 0,
    ensures
        fbc@ == merged_fbc(
            layer@,
            w_b.deep_view(),
            w_c.deep_view(),
            r_b.deep_view(),
            r_c.deep_view(),
            alpha@,
            beta@,
        ),
{
    proof {
        lemma_wiring_len(layer@.len());
    }
    let add_i = layer.get_add_mul_i(Operation::Add);
    let mul_i = layer.get_add_mul_i(Operation::Mul);
    let add_i_rb = add_i.multi_partial_evaluate(r_b).scale(alpha);
    let add_i_rc = add_i.multi_partial_evaluate(r_c).scale(beta);
    let mul_i_rb = mul_i.multi_partial_evaluate(r_b).scale(alpha);
    let mul_i_rc = mul_i.multi_partial_evaluate(r_c).scale(beta);
    let summed_w_poly = add_mul_polynomials(w_b, w_c, Operation::Add);
    let multiplied_w_poly = add_mul_polynomials(w_b, w_c, Operation::Mul);
    let summed_add_i = add_i_rb.add(&add_i_rc);
    let summed_mul_i = mul_i_rb.add(&mul_i_rc);
    let add_product_poly = ProductPoly { polys: vec![summed_add_i, summed_w_poly] };
    let mul_product_poly = ProductPoly { polys: vec![summed_mul_i, multiplied_w_poly] };
    let fbc = SumPoly::new(vec![add_product_poly, mul_product_poly]);
    proof {
        let expected = merged_fbc(
            layer@,
            w_b.deep_view(),
            w_c.deep_view(),
            r_b.deep_view(),
            r_c.deep_view(),
            alpha@,
            beta@,
        );
        assert(fbc@[0] =~= expected[0]);
        assert(fbc@[1] =~= expected[1]);
        assert(fbc@ =~= expected);
    }
    fbc
}

/// Merges the two claims of a layer: returns `alpha`, `beta` and the claim
/// for the next layer.
fn merge(transcript: &mut Transcript, o_1: Fe, o_2: Fe) -> (merged: (Fe, Fe, Fe))
    ensures
        merged.0@ == merge_claims(old(transcript)@, o_1@, o_2@).alpha,
        merged.1@ == merge_claims(old(transcript)@, o_1@, o_2@).beta,
        merged.2@ == merge_claims(old(transcript)@, o_1@, o_2@).claim,
        final(transcript)@ == merge_claims(old(transcript)@, o_1@, o_2@).state,
{
    let first = encode_one(o_1);
    transcript.append(first.as_slice());
    let alpha = transcript.get_random_challenge();
    let second = encode_one(o_2);
    transcript.append(second.as_slice());
    let beta = transcript.get_random_challenge();
    let claim = alpha.mul(o_1).add(beta.mul(o_2));
    (alpha, beta, claim)
}

/// The verifier's part of a layer after its sum-check: returns the value that
/// the sum-check must have ended in, the claim for the next layer, `alpha`
/// and `beta`.
pub fn get_verifier_claim(
    layer: &Layer,
    init_random_challenge: Fe,
    sumcheck_random_challenges: &[Fe],
    o_1: Fe,
    o_2: Fe,
    transcript: &mut Transcript,
    layer_id: usize,
) -> (claims: (Fe, Fe, Fe, Fe))
    requires
        wiring_len(layer@.len()) == pow2(1 + sumcheck_random_challenges.len() as nat),
        wiring_len(layer@.len()) <= usize::MAX,
    ensures
        claims.0@ == verifier_claim(
            layer@,
            init_random_challenge@,
            sumcheck_random_challenges.deep_view(),
            o_1@,
            o_2@,
            old(transcript)@,
            layer_id as nat,
        ).expected,
        claims.1@ == merge_claims(old(transcript)@, o_1@, o_2@).claim,
        claims.2@ == merge_claims(old(transcript)@, o_1@, o_2@).alpha,
        claims.3@ == merge_claims(old(transcript)@, o_1@, o_2@).beta,
        final(transcript)@ == merge_claims(old(transcript)@, o_1@, o_2@).state,
{
    let count = sumcheck_random_challenges.len();
    let half = count / 2;
    let mut all_random_challenges: Vec<Fe> = Vec::new();
    all_random_challenges.push(init_random_challenge);
    let mut i: usize = 0;
    while i < half
        invariant
            i <= half,
            half == count / 2,
            count == sumcheck_random_challenges.len(),
            all_random_challenges@ == seq![init_random_challenge]
                + sumcheck_random_challenges@.take(i as int),
        decreases half - i,
    {
        all_random_challenges.push(sumcheck_random_challenges[i]);
        i = i + 1;
        proof {
            assert(sumcheck_random_challenges@.take(i as int)
                =~= sumcheck_random_challenges@.take(i - 1).push(
                sumcheck_random_challenges@[i - 1],
            ));
            assert(all_random_challenges@ =~= seq![init_random_challenge]
                + sumcheck_random_challenges@.take(i as int));
        }
    }
    let mut j: usize = half;
    while j < count
        invariant
            half <= j <= count,
            half == count / 2,
            count == sumcheck_random_challenges.len(),
            all_random_challenges@ == seq![init_random_challenge]
                + sumcheck_random_challenges@.take(half as int)
                + sumcheck_random_challenges@.subrange(half as int, j as int),
        decreases count - j,
    {
        all_random_challenges.push(sumcheck_random_challenges[j]);
        j = j + 1;
        proof {
            assert(sumcheck_random_challenges@.subrange(half as int, j as int)
                =~= sumcheck_random_challenges@.subrange(half as int, j - 1).push(
                sumcheck_random_challenges@[j - 1],
            ));
            assert(all_random_challenges@ =~= seq![init_random_challenge]
                + sumcheck_random_challenges@.take(half as int)
                + sumcheck_random_challenges@.subrange(half as int, j as int));
        }
    }
    let point = all_random_challenges.as_slice();
    proof {
        assert(sumcheck_random_challenges@.subrange(half as int, count as int)
            =~= sumcheck_random_challenges@.skip(half as int));
        assert(point.deep_view() =~= wiring_point(
            init_random_challenge@,
            sumcheck_random_challenges.deep_view(),
        ));
    }
    let add_i = layer.get_add_mul_i(Operation::Add);
    let mul_i = layer.get_add_mul_i(Operation::Mul);
    let a_r = add_i.evaluate(point);
    let m_r = mul_i.evaluate(point);
    let (alpha, beta, next_claim) = merge(transcript, o_1, o_2);
    let sum = o_1.add(o_2);
    let product = o_1.mul(o_2);
    let current_claim = if layer_id == 0 {
        a_r.mul(sum).add(m_r.mul(product))
    } else {
        alpha.mul(a_r).mul(sum).add(beta.mul(m_r).mul(product))
    };
    (current_claim, next_claim, alpha, beta)
}

/// A proof that a circuit gives certain outputs.
#[derive(Clone, Debug, PartialEq, Eq)]
pub struct Proof {
    /// The output values, padded with a zero to two entries, as a polynomial.
    pub output_poly: MultilinearPoly,
    /// For each layer, from the output down, the round polynomials of its
    /// sum-check.
    pub proof_polynomials: Vec<Vec<UnivariatePoly>>,
    /// For each layer, the claimed values of the layer below at the two
    /// halves of the sum-check's challenges.
    pub claimed_evaluations: Vec<(Fe, Fe)>,
}

/// What a proof holds.
pub struct ProofView {
    pub output: Seq<nat>,
    pub polys: Seq<Seq<Seq<nat>>>,
    pub claims: Seq<(nat, nat)>,
}

impl View for Proof {
    type V = ProofView;

    open spec fn view(&self) -> ProofView {
        ProofView {
            output: self.output_poly@,
            polys: self.proof_polynomials.deep_view(),
            claims: self.claimed_evaluations.deep_view(),
        }
    }
}

/// What one layer of the prover hands to the next.
struct Claims {
    /// The claim that the next sum-check reduces.
    claim: Fe,
    /// The challenge that closed the layer.
    challenge: Fe,
    /// The first half of the layer's sum-check challenges.
    r_b: Vec<Fe>,
    /// The second half of the layer's sum-check challenges.
    r_c: Vec<Fe>,
    alpha: Fe,
    beta: Fe,
}

/// What one layer of the prover hands to the next, as numbers.
pub struct ClaimsView {
    pub claim: nat,
    pub challenge: nat,
    pub r_b: Seq<nat>,
    pub r_c: Seq<nat>,
    pub alpha: nat,
    pub beta: nat,
}

impl View for Claims {
    type V = ClaimsView;

    closed spec fn view(&self) -> ClaimsView {
        ClaimsView {
            claim: self.claim@,
            challenge: self.challenge@,
            r_b: self.r_b.deep_view(),
            r_c: self.r_c.deep_view(),
            alpha: self.alpha@,
            beta: self.beta@,
        }
    }
}

/// The polynomial that the sum-check of layer `idx` runs on. `idx` counts from
/// the output layer, which has the initial form; the layers below it have the
/// merged form. `w` holds the values of the layer below.
pub open spec fn layer_polynomial(gates: Seq<Operation>, w: Seq<nat>, idx: nat, at: ClaimsView) -> Seq<
    Seq<Seq<nat>>,
> {
    if idx == 0 {
        initial_fbc(at.challenge, gates, w, w)
    } else {
        merged_fbc(gates, w, w, at.r_b, at.r_c, at.alpha, at.beta)
    }
}

/// What the prover does for one layer.
pub struct LayerProof {
    /// The round polynomials of the layer's sum-check.
    pub polys: Seq<Seq<nat>>,
    /// The value of the layer below at the first half of the challenges.
    pub o_1: nat,
    /// The value of the layer below at the second half of the challenges.
    pub o_2: nat,
    pub next: ClaimsView,
    pub state: Seq<u8>,
}

/// The prover's work on layer `idx`, with the transcript in `state`: the
/// sum-check on the layer polynomial, the two claimed values, their merge, and
/// the challenge that closes the layer.
#[verifier::opaque]
pub open spec fn layer_proof(
    gates: Seq<Operation>,
    w: Seq<nat>,
    idx: nat,
    at: ClaimsView,
    state: Seq<u8>,
) -> LayerProof {
    let fbc = layer_polynomial(gates, w, idx, at);
    let rounds = prove_rounds(
        fbc,
        state + encode_elements(seq![at.claim]),
        variable_count(table_len(fbc)),
    );
    let half = rounds.challenges.len() / 2;
    let r_b = rounds.challenges.take(half as int);
    let r_c = rounds.challenges.skip(half as int);
    let o_1 = evaluate_at(w, r_b);
    let o_2 = evaluate_at(w, r_c);
    let merged = merge_claims(rounds.state, o_1, o_2);
    LayerProof {
        polys: rounds.polys,
        o_1,
        o_2,
        next: ClaimsView {
            claim: merged.claim,
            challenge: challenge_of(merged.state),
            r_b,
            r_c,
            alpha: merged.alpha,
            beta: merged.beta,
        },
        state: sha3_256(merged.state),
    }
}

/// What the prover does for a run of layers.
pub struct LayerProofs {
    pub polys: Seq<Seq<Seq<nat>>>,
    pub claims: Seq<(nat, nat)>,
}

/// The prover's work on the layers from `idx` down to the inputs. `values`
/// holds the values of the circuit, the inputs at index 0.
pub open spec fn layers_proof(
    layers: Seq<Seq<Operation>>,
    values: Seq<Seq<nat>>,
    idx: nat,
    at: ClaimsView,
    state: Seq<u8>,
) -> LayerProofs
    decreases layers.len() - idx,
{
    if idx >= layers.len() {
        LayerProofs { polys: Seq::empty(), claims: Seq::empty() }
    } else {
        let below = layers.len() - 1 - idx;
        let step = layer_proof(layers[below], values[below], idx, at, state);
        let rest = layers_proof(layers, values, idx + 1, step.next, step.state);
        LayerProofs {
            polys: seq![step.polys] + rest.polys,
            claims: seq![(step.o_1, step.o_2)] + rest.claims,
        }
    }
}

/// The output values as the prover commits to them: a single output is
/// padded with a zero.
pub open spec fn padded_output(output: Seq<nat>) -> Seq<nat> {
    if output.len() == 1 {
        output.push(0)
    } else {
        output
    }
}

/// The claims that the first layer starts from.
pub open spec fn opening_claims(opened: InitialClaim) -> ClaimsView {
    ClaimsView {
        claim: opened.claim,
        challenge: opened.challenge,
        r_b: Seq::empty(),
        r_c: Seq::empty(),
        alpha: 0,
        beta: 0,
    }
}

/// The proof that the prover gives for a circuit on `inputs`.
pub open spec fn honest_proof(layers: Seq<Seq<Operation>>, inputs: Seq<nat>) -> ProofView {
    let values = circuit_values(layers, inputs);
    let output = padded_output(values.last());
    let opened = initial_claim(Seq::empty(), output);
    let rest = layers_proof(layers, values, 0, opening_claims(opened), opened.state);
    ProofView { output, polys: rest.polys, claims: rest.claims }
}

/// The prover is deterministic: any two proofs that it gives for one circuit
/// on the same inputs hold the same field elements in the same places, limb
/// for limb, and so agree byte for byte.
pub proof fn lemma_proofs_agree(
    first: Proof,
    second: Proof,
    layers: Seq<Seq<Operation>>,
    inputs: Seq<nat>,
)
    requires
        first@ == honest_proof(layers, inputs),
        second@ == honest_proof(layers, inputs),
    ensures
        first@ == second@,
        first.output_poly.evaluation@ == second.output_poly.evaluation@,
        first.claimed_evaluations@ == second.claimed_evaluations@,
        first.proof_polynomials@.len() == second.proof_polynomials@.len(),
        forall|k: int|
            0 <= k < first.proof_polynomials@.len() ==> (#[trigger] first.proof_polynomials@[k])@.len()
                == second.proof_polynomials@[k]@.len(),
        forall|k: int, j: int|
            0 <= k < first.proof_polynomials@.len() && 0 <= j < first.proof_polynomials@[k]@.len()
                ==> (#[trigger] first.proof_polynomials@[k]@[j]).coefficient@
                == second.proof_polynomials@[k]@[j].coefficient@,
{
    let (a, b) = (first.output_poly.evaluation@, second.output_poly.evaluation@);
    assert(a.len() == first.output_poly@.len());
    assert(b.len() == second.output_poly@.len());
    assert forall|i: int| 0 <= i < a.len() implies (#[trigger] a[i])@ == b[i]@ by {
        assert(first.output_poly@[i] == a[i]@);
        assert(second.output_poly@[i] == b[i]@);
    }
    lemma_elements_agree(a, b);
    let (c, d) = (first.claimed_evaluations@, second.claimed_evaluations@);
    let (cv, dv) = (first.claimed_evaluations.deep_view(), second.claimed_evaluations.deep_view());
    assert(c.len() == cv.len() && d.len() == dv.len());
    assert forall|i: int| 0 <= i < c.len() implies c[i] == d[i] by {
        assert(cv[i] == (c[i].0@, c[i].1@));
        assert(dv[i] == (d[i].0@, d[i].1@));
        lemma_view_injective(c[i].0, d[i].0);
        lemma_view_injective(c[i].1, d[i].1);
    }
    assert(c =~= d);
    let (p, q) = (first.proof_polynomials@, second.proof_polynomials@);
    let (pv, qv) = (first.proof_polynomials.deep_view(), second.proof_polynomials.deep_view());
    assert(p.len() == pv.len() && q.len() == qv.len());
    assert forall|k: int| 0 <= k < p.len() implies (#[trigger] p[k])@.len() == q[k]@.len() by {
        assert(pv[k] == p[k].deep_view());
        assert(qv[k] == q[k].deep_view());
        assert(p[k].deep_view().len() == p[k]@.len());
        assert(q[k].deep_view().len() == q[k]@.len());
    }
    assert forall|k: int, j: int|
        0 <= k < p.len() && 0 <= j < p[k]@.len() implies (#[trigger] p[k]@[j]).coefficient@
        == q[k]@[j].coefficient@ by {
        assert(pv[k] == p[k].deep_view());
        assert(qv[k] == q[k].deep_view());
        assert(p[k].deep_view()[j] == p[k]@[j]@);
        assert(q[k].deep_view()[j] == q[k]@[j]@);
        let (x, y) = (p[k]@[j].coefficient@, q[k]@[j].coefficient@);
        assert(x.len() == p[k]@[j]@.len());
        assert(y.len() == q[k]@[j]@.len());
        assert forall|i: int| 0 <= i < x.len() implies (#[trigger] x[i])@ == y[i]@ by {
            assert(p[k]@[j]@[i] == x[i]@);
            assert(q[k]@[j]@[i] == y[i]@);
        }
        lemma_elements_agree(x, y);
    }
}

/// Halving a table of `2^count * len` entries `count` times leaves `len`.
pub proof fn lemma_halved_pow2(len: nat, count: nat)
    ensures
        halved(pow2(count) * len, count) == len,
    decreases count,
{
    if count == 0 {
        assert(pow2(0) == 1) by {
            lemma2_to64();
        }
        assert(pow2(0) * len == len) by (nonlinear_arith)
            requires
                pow2(0) == 1,
        ;
    } else {
        lemma_pow2_unfold(count);
        let p = pow2((count - 1) as nat);
        assert((pow2(count) * len) / 2 == p * len) by (nonlinear_arith)
            requires
                pow2(count) == 2 * p,
        ;
        lemma_halved_pow2(len, (count - 1) as nat);
    }
}

/// The layer polynomial of a well-formed circuit can be summed: with `n`
/// values in the layer below, all its tables have `n * n` entries.
pub proof fn lemma_layer_polynomial_shape(
    gates: Seq<Operation>,
    w: Seq<nat>,
    idx: nat,
    at: ClaimsView,
)
    requires
        gates.len() == pow2(idx),
        w.len() == 2 * gates.len(),
        idx > 0 ==> at.r_b.len() == idx && at.r_c.len() == idx,
    ensures
        summable(layer_polynomial(gates, w, idx, at)),
        table_len(layer_polynomial(gates, w, idx, at)) == w.len() * w.len(),
        variable_count(w.len() * w.len()) == 2 * (idx + 1),
        w.len() == pow2(idx + 1),
        idx > 0 ==> wiring_len(gates.len()) % pow2(idx) == 0,
{
    let g = gates.len();
    let n = w.len();
    let square = n * n;
    lemma_pow2_unfold(idx + 1);
    lemma_pow2_pos(idx);
    assert(n == pow2(idx + 1));
    lemma_pow2_adds(idx + 1, idx + 1);
    assert(square == pow2(2 * (idx + 1)));
    lemma_variable_count_pow2(2 * (idx + 1));
    let f = layer_polynomial(gates, w, idx, at);
    let add = Operation::Add;
    let mul = Operation::Mul;
    assert(outer_table(w, w, add).len() == square);
    assert(outer_table(w, w, mul).len() == square);
    if idx == 0 {
        assert(pow2(0) == 1) by {
            lemma2_to64();
        }
        assert(g == 1 && n == 2);
        assert(square == 4) by (nonlinear_arith)
            requires
                square == n * n,
                n == 2,
        ;
        assert(wiring_len(1) == 8) by (nonlinear_arith)
            requires
                wiring_len(1) == 2 * ((2 * 1) * (2 * 1)),
        ;
        assert(f[0][0].len() == 4);
        assert(f[1][0].len() == 4);
    } else {
        lemma_pow2_unfold(idx);
        lemma_pow2_pos((idx - 1) as nat);
        assert(g >= 2);
        assert(selector_count(g) == g);
        assert(square == (2 * g) * (2 * g));
        assert(wiring_len(g) == g * square);
        lemma_halved_pow2(square, idx);
        assert(halved(wiring_len(g), idx) == square);
        lemma_bind_leading_len(wiring_table(gates, add), at.r_b);
        lemma_bind_leading_len(wiring_table(gates, add), at.r_c);
        lemma_bind_leading_len(wiring_table(gates, mul), at.r_b);
        lemma_bind_leading_len(wiring_table(gates, mul), at.r_c);
        assert(f[0][0].len() == square);
        assert(f[1][0].len() == square);
        assert((g * square) % g == 0) by (nonlinear_arith)
            requires
                g > 0,
        ;
    }
    assert(f.len() == 2);
    assert(f[0].len() == 2 && f[1].len() == 2);
    assert(f[0][1].len() == square);
    assert(f[1][1].len() == square);
    assert forall|k: int| 0 <= k < f.len() implies factors_have_len(#[trigger] f[k], square) by {
        assert forall|i: int| 0 <= i < f[k].len() implies (#[trigger] f[k][i]).len() == square by {
            if k == 0 {
                if i == 0 {
                } else {
                    assert(i == 1);
                }
            } else {
                assert(k == 1);
                if i == 0 {
                } else {
                    assert(i == 1);
                }
            }
        }
    }
}

/// The prover's work on layer `idx`: returns the round polynomials, the two
/// claimed values, and what the layer hands to the next.
fn prove_layer(
    layer: &Layer,
    w_i: &Vec<Fe>,
    idx: usize,
    at: &Claims,
    transcript: &mut Transcript,
) -> (out: (Vec<UnivariatePoly>, Fe, Fe, Claims))
    requires
        layer@.len() == pow2(idx as nat),
        w_i.len() == 2 * layer@.len(),
        wiring_len(layer@.len()) <= usize::MAX,
        idx > 0 ==> at@.r_b.len() == idx && at@.r_c.len() == idx,
    ensures
        out.0.deep_view() == layer_proof(
            layer@,
            w_i.deep_view(),
            idx as nat,
            at@,
            old(transcript)@,
        ).polys,
        out.1@ == layer_proof(layer@, w_i.deep_view(), idx as nat, at@, old(transcript)@).o_1,
        out.2@ == layer_proof(layer@, w_i.deep_view(), idx as nat, at@, old(transcript)@).o_2,
        out.3@ == layer_proof(layer@, w_i.deep_view(), idx as nat, at@, old(transcript)@).next,
        final(transcript)@ == layer_proof(
            layer@,
            w_i.deep_view(),
            idx as nat,
            at@,
            old(transcript)@,
        ).state,
        out.3@.r_b.len() == idx + 1,
        out.3@.r_c.len() == idx + 1,
{
    reveal(layer_proof);
    let ghost w = w_i.deep_view();
    let ghost fbc = layer_polynomial(layer@, w, idx as nat, at@);
    let ghost start = transcript@ + encode_elements(seq![at@.claim]);
    let ghost rounds = prove_rounds(fbc, start, variable_count(table_len(fbc)));
    proof {
        lemma_layer_polynomial_shape(layer@, w, idx as nat, at@);
        lemma_pow2_pos(idx as nat);
        lemma_wiring_len(layer@.len());
        lemma_prove_rounds_len(fbc, start, variable_count(table_len(fbc)));
        assert(at.r_b.deep_view().len() == at.r_b@.len());
        assert(at.r_c.deep_view().len() == at.r_c@.len());
        assert(w.len() == w_i@.len());
    }
    let values = w_i.as_slice();
    proof {
        assert(values.deep_view() =~= w);
    }
    let fbc_poly = if idx == 0 {
        get_fbc_poly(at.challenge, layer, values, values)
    } else {
        let r_b = at.r_b.as_slice();
        let r_c = at.r_c.as_slice();
        proof {
            assert(r_b.deep_view() =~= at@.r_b);
            assert(r_c.deep_view() =~= at@.r_c);
        }
        get_merged_fbc_poly(layer, values, values, r_b, r_c, at.alpha, at.beta)
    };
    let sum_check_proof = gkr_prove(at.claim, &fbc_poly, transcript);
    let SumCheckProof { proof_polynomials, random_challenges } = sum_check_proof;
    let next_poly = MultilinearPoly::new(copy_table(w_i));
    proof {
        assert(next_poly@ =~= w);
        assert(random_challenges.deep_view().len() == random_challenges@.len());
        assert(random_challenges.len() == 2 * (idx + 1));
    }
    let half = random_challenges.len() / 2;
    let all = random_challenges.as_slice();
    let r_b = slice_subrange(all, 0, half);
    let r_c = slice_subrange(all, half, random_challenges.len());
    proof {
        assert(r_b.deep_view() =~= rounds.challenges.take(half as int));
        assert(r_c.deep_view() =~= rounds.challenges.skip(half as int));
    }
    let o_1 = next_poly.evaluate(r_b);
    let o_2 = next_poly.evaluate(r_c);
    let (alpha, beta, claim) = merge(transcript, o_1, o_2);
    let challenge = transcript.get_random_challenge();
    let next = Claims { claim, challenge, r_b: slice_to_vec(r_b), r_c: slice_to_vec(r_c), alpha, beta };
    proof {
        assert(next.r_b.deep_view() =~= r_b.deep_view());
        assert(next.r_c.deep_view() =~= r_c.deep_view());
    }
    (proof_polynomials, o_1, o_2, next)
}

/// Proves what the circuit gives on `inputs`. The circuit must be well formed,
/// which `Circuit::is_well_formed` tests, and have two inputs for each gate of
/// its lowest layer. The single output is padded with a zero, and the proof
/// holds one sum-check and one pair of claimed values for each layer, from
/// the output down.
pub fn prove(circuit: &mut Circuit, inputs: &[Fe]) -> (proof: Proof)
    requires
        well_formed(old(circuit)@),
        inputs.len() == 2 * old(circuit)@[0].len(),
    ensures
        *final(circuit) == *old(circuit),
        proof@ == honest_proof(old(circuit)@, inputs.deep_view()),
        proof.output_poly@.len() == 2,
        proof.output_poly@[1] == 0,
{
    let mut transcript = Transcript::new();
    let circuit_evaluations = circuit.evaluate(inputs);
    let depth = circuit.layers.len();
    let ghost layers = circuit@;
    let ghost values = circuit_evaluations.deep_view();
    proof {
        assert(layers.len() == depth);
        assert(pow2(0) == 1) by {
            lemma2_to64();
        }
        assert(layers[depth - 1].len() == 1);
        assert(values.last() == circuit_evaluations@[depth as int].deep_view());
    }
    let mut w_0 = copy_table(&circuit_evaluations[depth]);
    let ghost output = w_0.deep_view();
    proof {
        assert(output =~= values.last());
    }
    if w_0.len() == 1 {
        w_0.push(Fe::zero());
    }
    proof {
        assert(w_0.deep_view() =~= padded_output(output));
    }
    let output_poly = MultilinearPoly::new(w_0);
    let (claimed_sum, random_challenge) = initiate_protocol(&mut transcript, &output_poly);
    let mut at = Claims {
        claim: claimed_sum,
        challenge: random_challenge,
        r_b: Vec::new(),
        r_c: Vec::new(),
        alpha: Fe::zero(),
        beta: Fe::zero(),
    };
    let ghost first = at@;
    let ghost start = transcript@;
    let ghost whole = layers_proof(layers, values, 0, first, start);
    let mut proof_polys: Vec<Vec<UnivariatePoly>> = Vec::new();
    let mut claimed_evaluations: Vec<(Fe, Fe)> = Vec::new();
    let mut idx: usize = 0;
    proof {
        assert(first == opening_claims(initial_claim(Seq::empty(), output_poly@))) by {
            assert(at.r_b.deep_view() =~= Seq::<nat>::empty());
            assert(at.r_c.deep_view() =~= Seq::<nat>::empty());
        }
        assert(proof_polys.deep_view() + whole.polys =~= whole.polys);
        assert(claimed_evaluations.deep_view() + whole.claims =~= whole.claims);
    }
    while idx < depth
        invariant
            idx <= depth,
            depth == circuit.layers.len(),
            *circuit == *old(circuit),
            well_formed(circuit@),
            layers == circuit@,
            values == circuit_evaluations.deep_view(),
            circuit_evaluations.len() == depth + 1,
            circuit_evaluations@[0].len() == inputs.len(),
            inputs.len() == 2 * layers[0].len(),
            forall|i: int|
                1 <= i <= depth ==> (#[trigger] circuit_evaluations@[i]).len() == layers[i
                    - 1].len(),
            idx > 0 ==> at@.r_b.len() == idx && at@.r_c.len() == idx,
            whole == layers_proof(layers, values, 0, first, start),
            proof_polys.deep_view() + layers_proof(
                layers,
                values,
                idx as nat,
                at@,
                transcript@,
            ).polys == whole.polys,
            claimed_evaluations.deep_view() + layers_proof(
                layers,
                values,
                idx as nat,
                at@,
                transcript@,
            ).claims == whole.claims,
        decreases depth - idx,
    {
        let below = depth - 1 - idx;
        let layer = &circuit.layers[below];
        let w_i = &circuit_evaluations[below];
        let ghost here = layers_proof(layers, values, idx as nat, at@, transcript@);
        let ghost step = layer_proof(layers[below as int], values[below as int], idx as nat, at@, transcript@);
        let ghost before_polys = proof_polys.deep_view();
        let ghost before_claims = claimed_evaluations.deep_view();
        proof {
            assert(layers[below as int] == layer@);
            assert(values[below as int] == w_i.deep_view());
            assert(layers[below as int].len() == pow2((depth - 1 - below) as nat));
            if below > 0 {
                assert(circuit_evaluations@[below as int].len() == layers[below - 1].len());
                assert(layers[below - 1].len() == pow2((depth - 1 - (below - 1)) as nat));
                lemma_pow2_unfold((idx + 1) as nat);
            }
        }
        let (polys, o_1, o_2, next) = prove_layer(layer, w_i, idx, &at, &mut transcript);
        proof_polys.push(polys);
        claimed_evaluations.push((o_1, o_2));
        at = next;
        idx = idx + 1;
        proof {
            let rest = layers_proof(layers, values, idx as nat, at@, transcript@);
            assert(here.polys == seq![step.polys] + rest.polys);
            assert(here.claims == seq![(step.o_1, step.o_2)] + rest.claims);
            assert(proof_polys.deep_view() =~= before_polys.push(step.polys));
            assert(claimed_evaluations.deep_view() =~= before_claims.push((step.o_1, step.o_2)));
            assert(proof_polys.deep_view() + rest.polys =~= before_polys + here.polys);
            assert(claimed_evaluations.deep_view() + rest.claims =~= before_claims + here.claims);
        }
    }
    proof {
        let rest = layers_proof(layers, values, idx as nat, at@, transcript@);
        assert(proof_polys.deep_view() + rest.polys =~= proof_polys.deep_view());
        assert(claimed_evaluations.deep_view() + rest.claims =~= claimed_evaluations.deep_view());
    }
    Proof { output_poly, proof_polynomials: proof_polys, claimed_evaluations }
}

/// What the verifier carries from one layer to the next.
pub struct Checked {
    /// The claim that the next sum-check must reduce.
    pub claim: Fe,
    /// The challenge that the next layer's wiring point starts with.
    pub challenge: Fe,
    pub alpha: Fe,
    pub beta: Fe,
    /// The sum-check challenges of the layer before the last one checked.
    pub previous: Vec<Fe>,
    /// The sum-check challenges of the last layer checked.
    pub last: Vec<Fe>,
}

/// What the verifier carries from one layer to the next, as numbers.
pub struct CheckedView {
    pub claim: nat,
    pub challenge: nat,
    pub alpha: nat,
    pub beta: nat,
    pub previous: Seq<nat>,
    pub last: Seq<nat>,
}

impl View for Checked {
    type V = CheckedView;

    open spec fn view(&self) -> CheckedView {
        CheckedView {
            claim: self.claim@,
            challenge: self.challenge@,
            alpha: self.alpha@,
            beta: self.beta@,
            previous: self.previous.deep_view(),
            last: self.last.deep_view(),
        }
    }
}

/// The verifier's check of layer `idx`, with the transcript in `state`, on
/// the layer's round polynomials and claimed values. The layer passes when its
/// sum-check passes, the challenges with the starting challenge make a point
/// of the wiring predicates, and the sum-check ends in the expected value. It
/// then gives what the next layer starts from, and the transcript after the
/// challenge that closes the layer.
#[verifier::opaque]
pub open spec fn layer_check(
    gates: Seq<Operation>,
    idx: nat,
    at: CheckedView,
    state: Seq<u8>,
    polys: Seq<Seq<nat>>,
    o_1: nat,
    o_2: nat,
) -> Option<(CheckedView, Seq<u8>)> {
    let rounds = verify_rounds(polys, at.claim, state + encode_elements(seq![at.claim]));
    let claims = verifier_claim(gates, at.challenge, rounds.challenges, o_1, o_2, rounds.state, idx);
    if rounds.verified && wiring_len(gates.len()) == pow2(1 + rounds.challenges.len())
        && claims.expected == rounds.final_claim {
        Some(
            (
                CheckedView {
                    claim: claims.merged.claim,
                    challenge: challenge_of(claims.merged.state),
                    alpha: claims.merged.alpha,
                    beta: claims.merged.beta,
                    previous: at.last,
                    last: rounds.challenges,
                },
                sha3_256(claims.merged.state),
            ),
        )
    } else {
        None
    }
}

/// The verifier's checks of the layers from `idx` down to the inputs: what
/// the last layer leaves, where every layer passes.
pub open spec fn layers_check(
    layers: Seq<Seq<Operation>>,
    proof: ProofView,
    idx: nat,
    at: CheckedView,
    state: Seq<u8>,
) -> Option<CheckedView>
    decreases layers.len() - idx,
{
    if idx >= layers.len() {
        Some(at)
    } else {
        match layer_check(
            layers[layers.len() - 1 - idx],
            idx,
            at,
            state,
            proof.polys[idx as int],
            proof.claims[idx as int].0,
            proof.claims[idx as int].1,
        ) {
            None => None,
            Some(next) => layers_check(layers, proof, idx + 1, next.0, next.1),
        }
    }
}

/// The final check against the inputs. The layer polynomial of the lowest
/// layer is built on the inputs, with the halves of the challenges of the
/// layer before the last (none, for a circuit of one layer) and the last
/// `alpha` and `beta`; it must have a variable for each challenge of the last
/// layer, and its value at those challenges must be the claim that is left.
pub open spec fn reconciles(gates: Seq<Operation>, inputs: Seq<nat>, at: CheckedView) -> bool {
    let half = at.previous.len() / 2;
    let r_1 = at.previous.take(half as int);
    let r_2 = at.previous.skip(half as int);
    let fbc = merged_fbc(gates, inputs, inputs, r_1, r_2, at.alpha, at.beta);
    &&& r_1.len() == r_2.len()
    &&& wiring_len(gates.len()) % pow2(r_1.len()) == 0
    &&& products_have_len(fbc, pow2(at.last.len()))
    &&& sum_eval(fbc, at.last) == at.claim
}

/// What the verifier starts the first layer from.
pub open spec fn opening_check(opened: InitialClaim) -> CheckedView {
    CheckedView {
        claim: opened.claim,
        challenge: opened.challenge,
        alpha: 0,
        beta: 0,
        previous: Seq::empty(),
        last: Seq::empty(),
    }
}

/// Whether the verifier accepts `proof` for the circuit on `inputs`: the
/// proof has two output values and an entry for every layer, every layer
/// passes its check, and the final check against the inputs holds.
pub open spec fn accepts(proof: ProofView, layers: Seq<Seq<Operation>>, inputs: Seq<nat>) -> bool {
    let opened = initial_claim(Seq::empty(), proof.output);
    &&& proof.output.len() == 2
    &&& proof.polys.len() == layers.len()
    &&& proof.claims.len() == layers.len()
    &&& match layers_check(layers, proof, 0, opening_check(opened), opened.state) {
        None => false,
        Some(at) => reconciles(layers[0], inputs, at),
    }
}

/// What the verifier accepts has the right shape, and the first round
/// polynomial of its output layer adds up, at 0 and at 1, to the value of the
/// output polynomial at the opening challenge: a proof that fails either is
/// rejected.
pub proof fn lemma_accepted_opening(
    proof: ProofView,
    layers: Seq<Seq<Operation>>,
    inputs: Seq<nat>,
)
    requires
        accepts(proof, layers, inputs),
        layers.len() >= 1,
    ensures
        proof.output.len() == 2,
        proof.polys.len() == layers.len(),
        proof.claims.len() == layers.len(),
        proof.polys[0].len() > 0 ==> round_accepts(
            proof.polys[0][0],
            initial_claim(Seq::empty(), proof.output).claim,
        ),
{
    reveal(layer_check);
    let opened = initial_claim(Seq::empty(), proof.output);
    let at = opening_check(opened);
    let first = layer_check(
        layers[layers.len() - 1],
        0,
        at,
        opened.state,
        proof.polys[0],
        proof.claims[0].0,
        proof.claims[0].1,
    );
    assert(layers_check(layers, proof, 0, at, opened.state) is Some);
    assert(first is Some);
}

/// More challenges than a machine word has bits cannot make a point of a
/// table that fits in memory.
proof fn lemma_too_many_variables(count: nat)
    requires
        count >= 64,
    ensures
        pow2(count) > usize::MAX,
{
    lemma2_to64();
    if count > 64 {
        vstd::arithmetic::power2::lemma_pow2_strictly_increases(64, count);
    }
}

/// The verifier's check of layer `idx`: returns what the next layer starts
/// from, or nothing where the layer does not pass.
pub fn check_layer(
    layer: &Layer,
    idx: usize,
    at: Checked,
    transcript: &mut Transcript,
    polys: &Vec<UnivariatePoly>,
    o_1: Fe,
    o_2: Fe,
) -> (out: Option<Checked>)
    requires
        wiring_len(layer@.len()) <= usize::MAX,
    ensures
        match out {
            None => layer_check(
                layer@,
                idx as nat,
                at@,
                old(transcript)@,
                polys.deep_view(),
                o_1@,
                o_2@,
            ) is None,
            Some(next) => layer_check(
                layer@,
                idx as nat,
                at@,
                old(transcript)@,
                polys.deep_view(),
                o_1@,
                o_2@,
            ) == Some((next@, final(transcript)@)),
        },
{
    reveal(layer_check);
    let Checked { claim: current_claim, challenge: init, alpha: _, beta: _, previous: _, last } = at;
    let sum_check_verify = gkr_verify(polys, current_claim, transcript);
    if !sum_check_verify.verified {
        return None;
    }
    let SumCheckVerification { verified: _, random_challenges, final_claimed_sum } =
        sum_check_verify;
    let count = random_challenges.len();
    proof {
        assert(random_challenges.deep_view().len() == count);
    }
    if count >= 64 {
        proof {
            lemma_too_many_variables(1 + count as nat);
        }
        return None;
    }
    if !has_variables(layer.wiring_len(), 1 + count) {
        return None;
    }
    let challenges = random_challenges.as_slice();
    proof {
        assert(challenges.deep_view() =~= random_challenges.deep_view());
    }
    let (claim, next_claim, alpha, beta) = get_verifier_claim(
        layer,
        init,
        challenges,
        o_1,
        o_2,
        transcript,
        idx,
    );
    if !claim.equals(&final_claimed_sum) {
        return None;
    }
    let challenge = transcript.get_random_challenge();
    Some(Checked { claim: next_claim, challenge, alpha, beta, previous: last, last: random_challenges })
}

/// The final check of the verifier against the inputs.
fn reconcile(bottom: &Layer, inputs: &[Fe], at: &Checked) -> (accepted: bool)
    requires
        bottom@.len() >= 1,
        wiring_len(bottom@.len()) <= usize::MAX,
        inputs.len() == 2 * bottom@.len(),
    ensures
        accepted == reconciles(bottom@, inputs.deep_view(), at@),
{
    let half = at.previous.len() / 2;
    let previous = at.previous.as_slice();
    let r_1 = slice_subrange(previous, 0, half);
    let r_2 = slice_subrange(previous, half, at.previous.len());
    proof {
        assert(at.previous.deep_view().len() == at.previous@.len());
        assert(r_1.deep_view() =~= at@.previous.take(half as int));
        assert(r_2.deep_view() =~= at@.previous.skip(half as int));
        lemma_wiring_len(bottom@.len());
    }
    if r_1.len() != r_2.len() {
        return false;
    }
    if !divisible_by_pow2(bottom.wiring_len(), r_1.len()) {
        return false;
    }
    let input_fbc_poly = get_merged_fbc_poly(bottom, inputs, inputs, r_1, r_2, at.alpha, at.beta);
    let ghost fbc = input_fbc_poly@;
    let point = at.last.as_slice();
    let count = point.len();
    proof {
        assert(point.deep_view() =~= at@.last);
        assert(fbc.len() == 2);
        assert(fbc[0].len() == 2 && fbc[1].len() == 2);
        assert(input_fbc_poly.polys.deep_view().len() == input_fbc_poly.polys@.len());
        assert(fbc[0] == input_fbc_poly.polys@[0]@);
        assert(fbc[1] == input_fbc_poly.polys@[1]@);
        assert(input_fbc_poly.polys@[0].polys.deep_view().len()
            == input_fbc_poly.polys@[0].polys@.len());
        assert(input_fbc_poly.polys@[1].polys.deep_view().len()
            == input_fbc_poly.polys@[1].polys@.len());
        assert(fbc[0][0] == input_fbc_poly.polys@[0].polys@[0]@);
        assert(fbc[0][1] == input_fbc_poly.polys@[0].polys@[1]@);
        assert(fbc[1][0] == input_fbc_poly.polys@[1].polys@[0]@);
        assert(fbc[1][1] == input_fbc_poly.polys@[1].polys@[1]@);
    }
    let fits = has_variables(input_fbc_poly.polys[0].polys[0].evaluation.len(), count)
        && has_variables(input_fbc_poly.polys[0].polys[1].evaluation.len(), count)
        && has_variables(input_fbc_poly.polys[1].polys[0].evaluation.len(), count)
        && has_variables(input_fbc_poly.polys[1].polys[1].evaluation.len(), count);
    if !fits {
        proof {
            if products_have_len(fbc, pow2(count as nat)) {
                assert(factors_have_len(fbc[0], pow2(count as nat)));
                assert(factors_have_len(fbc[1], pow2(count as nat)));
                assert(fbc[0][0].len() == pow2(count as nat));
                assert(fbc[0][1].len() == pow2(count as nat));
                assert(fbc[1][0].len() == pow2(count as nat));
                assert(fbc[1][1].len() == pow2(count as nat));
            }
        }
        return false;
    }
    proof {
        assert forall|k: int| 0 <= k < fbc.len() implies factors_have_len(
            #[trigger] fbc[k],
            pow2(count as nat),
        ) by {
            assert forall|i: int| 0 <= i < fbc[k].len() implies (#[trigger] fbc[k][i]).len()
                == pow2(count as nat) by {
                assert(k == 0 || k == 1);
                assert(i == 0 || i == 1);
            }
        }
    }
    let input_layer_claim = input_fbc_poly.evaluate(point);
    input_layer_claim.equals(&at.claim)
}

/// Checks `proof` against the circuit and its `inputs`: accepts exactly when
/// the proof has two output values and an entry for every layer, every layer
/// passes its check, and the final check against the inputs holds. The
/// circuit must be well formed and have two inputs for each gate of its
/// lowest layer.
///
/// Below the output layer the check of a layer scales its two terms by the
/// `alpha` and `beta` drawn in that layer, and the final check takes the
/// lowest layer's polynomial at the challenges of the last sum-check. The
/// proofs of `prove` do not pass these but for an accident of the digests.
pub fn verify(proof: Proof, circuit: Circuit, inputs: &[Fe]) -> (accepted: bool)
    requires
        well_formed(circuit@),
        inputs.len() == 2 * circuit@[0].len(),
    ensures
        accepted == accepts(proof@, circuit@, inputs.deep_view()),
{
    let depth = circuit.layers.len();
    let ghost layers = circuit@;
    let ghost given = proof@;
    proof {
        assert(proof.output_poly@.len() == proof.output_poly.evaluation@.len());
        assert(proof.proof_polynomials.deep_view().len() == proof.proof_polynomials@.len());
        assert(proof.claimed_evaluations.deep_view().len() == proof.claimed_evaluations@.len());
        assert(layers.len() == depth);
    }
    if proof.output_poly.evaluation.len() != 2 || proof.proof_polynomials.len() != depth
        || proof.claimed_evaluations.len() != depth {
        return false;
    }
    let mut transcript = Transcript::new();
    let (current_claim, current_random_challenge) = initiate_protocol(
        &mut transcript,
        &proof.output_poly,
    );
    let mut at = Checked {
        claim: current_claim,
        challenge: current_random_challenge,
        alpha: Fe::zero(),
        beta: Fe::zero(),
        previous: Vec::new(),
        last: Vec::new(),
    };
    let ghost opened = initial_claim(Seq::empty(), given.output);
    let ghost whole = layers_check(layers, given, 0, opening_check(opened), opened.state);
    proof {
        assert(at.previous.deep_view() =~= Seq::<nat>::empty());
        assert(at.last.deep_view() =~= Seq::<nat>::empty());
        assert(at@ == opening_check(opened));
    }
    let mut i: usize = 0;
    while i < depth
        invariant
            i <= depth,
            depth == circuit.layers.len(),
            depth == proof.proof_polynomials.len(),
            depth == proof.claimed_evaluations.len(),
            layers == circuit@,
            given == proof@,
            given.output.len() == 2,
            given.polys.len() == depth,
            given.claims.len() == depth,
            well_formed(layers),
            opened == initial_claim(Seq::empty(), given.output),
            whole == layers_check(layers, given, 0, opening_check(opened), opened.state),
            whole == layers_check(layers, given, i as nat, at@, transcript@),
        decreases depth - i,
    {
        let layer = &circuit.layers[depth - 1 - i];
        let (o_1, o_2) = proof.claimed_evaluations[i];
        proof {
            assert(layers[depth - 1 - i] == layer@);
            assert(given.polys[i as int] == proof.proof_polynomials@[i as int].deep_view());
            assert(given.claims[i as int] == (o_1@, o_2@));
        }
        match check_layer(layer, i, at, &mut transcript, &proof.proof_polynomials[i], o_1, o_2) {
            None => {
                return false;
            },
            Some(next) => {
                at = next;
            },
        }
        i = i + 1;
    }
    proof {
        assert(layers[0] == circuit.layers@[0]@);
        lemma_pow2_pos((depth - 1) as nat);
    }
    reconcile(&circuit.layers[0], inputs, &at)
}

} // verus!
