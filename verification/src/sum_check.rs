//! The sum-check protocol for a sum of products of multilinear polynomials,
//! with the verifier's challenges drawn from a Fiat-Shamir transcript.
//!
//! Prover and verifier first absorb the claimed sum. In each round the prover
//! sends the polynomial in the first free variable that is left when the others
//! are summed over the boolean hypercube; both sides absorb its coefficients
//! and draw the challenge that the variable is bound to.

use crate::composed_polynomial::{
    bind_products, factors_have_len, products_have_len, ProductPoly, SumPoly,
};
use crate::field::{field_add, field_sub, Fe};
use crate::multilinear::{bind_variable, variable_count};
use crate::transcript::{
    challenge_of, encode_elements, encode_one, fq_vec_to_bytes, sha3_256, Transcript,
};
use crate::univariate::{poly_add, poly_eval, poly_mul_linear, UnivariatePoly};
use vstd::arithmetic::power2::{lemma_pow2_pos, lemma_pow2_unfold, pow2};
use vstd::prelude::*;

verus! {

/// The most coefficients a round polynomial may have: the layer polynomials
/// of the protocol are products of two multilinear factors, of degree two in
/// each variable.
pub const MAX_ROUND_COEFFICIENTS: usize = 3;

/// The product of the factors as a polynomial in the first variable, with the
/// other variables fixed to the hypercube point of index `x`.
pub open spec fn product_line(factors: Seq<Seq<nat>>, half: nat, x: int) -> Seq<nat>
    decreases factors.len(),
{
    if factors.len() == 0 {
        seq![1nat]
    } else {
        let g = factors.last();
        poly_mul_linear(
            product_line(factors.drop_last(), half, x),
            g[x],
            field_sub(g[x + half], g[x]),
        )
    }
}

/// The sum of the lines of the first `count` hypercube points.
pub open spec fn product_round(factors: Seq<Seq<nat>>, half: nat, count: nat) -> Seq<nat>
    decreases count,
{
    if count == 0 {
        Seq::empty()
    } else {
        poly_add(
            product_round(factors, half, (count - 1) as nat),
            product_line(factors, half, count - 1),
        )
    }
}

/// The round polynomial of a sum of products whose tables have `2 * half`
/// entries: the sum over all points of the other variables, as a polynomial in
/// the first.
pub open spec fn sum_round(products: Seq<Seq<Seq<nat>>>, half: nat) -> Seq<nat>
    decreases products.len(),
{
    if products.len() == 0 {
        Seq::empty()
    } else {
        poly_add(sum_round(products.drop_last(), half), product_round(products.last(), half, half))
    }
}

/// The number of entries of the tables of a sum of products.
pub open spec fn table_len(products: Seq<Seq<Seq<nat>>>) -> nat {
    products[0][0].len()
}

/// The polynomial can be summed: it has a factor, all its tables have one
/// length, and that length is a power of two.
pub open spec fn summable(products: Seq<Seq<Seq<nat>>>) -> bool {
    &&& products.len() > 0
    &&& products[0].len() > 0
    &&& products_have_len(products, table_len(products))
    &&& table_len(products) == pow2(variable_count(table_len(products)))
    &&& forall|k: int| 0 <= k < products.len() ==> (#[trigger] products[k]).len() < usize::MAX
}

/// What one round of the prover gives.
pub struct RoundStep {
    /// The round polynomial.
    pub poly: Seq<nat>,
    /// The challenge drawn after absorbing it.
    pub challenge: nat,
    /// The polynomial with its first variable bound to the challenge.
    pub bound: Seq<Seq<Seq<nat>>>,
    /// The transcript after the round.
    pub state: Seq<u8>,
}

/// One round of the prover on `products`, with the transcript in `state`.
pub open spec fn round_step(products: Seq<Seq<Seq<nat>>>, state: Seq<u8>) -> RoundStep {
    let half = table_len(products) / 2;
    let poly = sum_round(products, half);
    let absorbed = state + encode_elements(poly);
    let challenge = challenge_of(absorbed);
    RoundStep {
        poly,
        challenge,
        bound: bind_products(products, half, challenge),
        state: sha3_256(absorbed),
    }
}

/// What the rounds of the prover give.
pub struct ProverRounds {
    pub polys: Seq<Seq<nat>>,
    pub challenges: Seq<nat>,
    pub state: Seq<u8>,
}

/// `rounds` rounds of the prover on `products`, with the transcript in `state`.
pub open spec fn prove_rounds(products: Seq<Seq<Seq<nat>>>, state: Seq<u8>, rounds: nat) -> ProverRounds
    decreases rounds,
{
    if rounds == 0 {
        ProverRounds { polys: Seq::empty(), challenges: Seq::empty(), state }
    } else {
        let step = round_step(products, state);
        let rest = prove_rounds(step.bound, step.state, (rounds - 1) as nat);
        ProverRounds {
            polys: seq![step.poly] + rest.polys,
            challenges: seq![step.challenge] + rest.challenges,
            state: rest.state,
        }
    }
}

/// The prover sends one polynomial and draws one challenge in each round.
pub proof fn lemma_prove_rounds_len(products: Seq<Seq<Seq<nat>>>, state: Seq<u8>, rounds: nat)
    ensures
        prove_rounds(products, state, rounds).polys.len() == rounds,
        prove_rounds(products, state, rounds).challenges.len() == rounds,
    decreases rounds,
{
    if rounds > 0 {
        let step = round_step(products, state);
        lemma_prove_rounds_len(step.bound, step.state, (rounds - 1) as nat);
    }
}

/// What the rounds of the verifier give.
pub struct VerifierRounds {
    /// Whether every round polynomial passed its check.
    pub verified: bool,
    /// The challenges drawn, one for each round that passed.
    pub challenges: Seq<nat>,
    /// The claim that is left: the last round polynomial at the last challenge.
    pub final_claim: nat,
    pub state: Seq<u8>,
}

/// Whether a round polynomial is acceptable for `claim`: it has at most three
/// coefficients, and its values at 0 and 1 add up to the claim.
pub open spec fn round_accepts(poly: Seq<nat>, claim: nat) -> bool {
    poly.len() <= MAX_ROUND_COEFFICIENTS && field_add(poly_eval(poly, 0), poly_eval(poly, 1))
        == claim
}

/// The rounds of the verifier on the round polynomials `polys` for `claim`,
/// with the transcript in `state`. The verifier stops at the first round
/// polynomial that is not acceptable.
pub open spec fn verify_rounds(polys: Seq<Seq<nat>>, claim: nat, state: Seq<u8>) -> VerifierRounds
    decreases polys.len(),
{
    if polys.len() == 0 {
        VerifierRounds { verified: true, challenges: Seq::empty(), final_claim: claim, state }
    } else if !round_accepts(polys[0], claim) {
        VerifierRounds { verified: false, challenges: Seq::empty(), final_claim: claim, state }
    } else {
        let absorbed = state + encode_elements(polys[0]);
        let challenge = challenge_of(absorbed);
        let rest = verify_rounds(
            polys.skip(1),
            poly_eval(polys[0], challenge),
            sha3_256(absorbed),
        );
        VerifierRounds {
            verified: rest.verified,
            challenges: seq![challenge] + rest.challenges,
            final_claim: rest.final_claim,
            state: rest.state,
        }
    }
}

/// The prover's side of a sum-check: the round polynomials, and the challenges
/// that the variables were bound to.
#[derive(Clone, Debug, PartialEq, Eq)]
pub struct SumCheckProof {
    pub proof_polynomials: Vec<UnivariatePoly>,
    pub random_challenges: Vec<Fe>,
}

/// The verifier's side of a sum-check.
#[derive(Clone, Debug, PartialEq, Eq)]
pub struct SumCheckVerification {
    pub verified: bool,
    pub random_challenges: Vec<Fe>,
    pub final_claimed_sum: Fe,
}

/// The line of one product at the hypercube point of index `x`.
fn product_line_poly(product: &ProductPoly, half: usize, x: usize) -> (line: UnivariatePoly)
    requires
        x < half,
        factors_have_len(product@, (2 * half) as nat),
        product@.len() < usize::MAX,
    ensures
        line@ == product_line(product@, half as nat, x as int),
{
    let mut coefficient: Vec<Fe> = Vec::new();
    coefficient.push(Fe::one());
    let mut line = UnivariatePoly::new(coefficient);
    let mut k: usize = 0;
    proof {
        assert(product@.take(0).len() == 0);
        assert(line@ =~= seq![1nat]);
        assert(product.polys.deep_view().len() == product.polys@.len());
    }
    while k < product.polys.len()
        invariant
            k <= product.polys.len(),
            product.polys.len() < usize::MAX,
            x < half,
            factors_have_len(product@, (2 * half) as nat),
            line.coefficient.len() == k + 1,
            line@ == product_line(product@.take(k as int), half as nat, x as int),
        decreases product.polys.len() - k,
    {
        proof {
            assert(product@[k as int] == product.polys@[k as int]@);
            assert(product@[k as int].len() == product.polys@[k as int].evaluation.len());
            let done = product@.take(k + 1);
            assert(done.drop_last() =~= product@.take(k as int));
            assert(done.last() == product.polys@[k as int]@);
        }
        let table = &product.polys[k].evaluation;
        let lo = table[x];
        let hi = table[x + half];
        line = line.mul_linear(lo, hi.sub(lo));
        proof {
            assert(line.coefficient.deep_view().len() == line.coefficient@.len());
        }
        k = k + 1;
    }
    proof {
        assert(product@.take(k as int) =~= product@);
    }
    line
}

/// The round polynomial of one product.
fn product_round_poly(product: &ProductPoly, half: usize) -> (round: UnivariatePoly)
    requires
        factors_have_len(product@, (2 * half) as nat),
        product@.len() < usize::MAX,
    ensures
        round@ == product_round(product@, half as nat, half as nat),
{
    let mut round = UnivariatePoly::new(Vec::new());
    let mut x: usize = 0;
    proof {
        assert(round@ =~= Seq::<nat>::empty());
    }
    while x < half
        invariant
            x <= half,
            factors_have_len(product@, (2 * half) as nat),
            product@.len() < usize::MAX,
            round@ == product_round(product@, half as nat, x as nat),
        decreases half - x,
    {
        let line = product_line_poly(product, half, x);
        round = round.add(&line);
        x = x + 1;
    }
    round
}

/// The round polynomial of a sum of products whose tables have `2 * half`
/// entries.
pub fn round_polynomial(poly: &SumPoly, half: usize) -> (round: UnivariatePoly)
    requires
        products_have_len(poly@, (2 * half) as nat),
        forall|k: int| 0 <= k < poly@.len() ==> (#[trigger] poly@[k]).len() < usize::MAX,
    ensures
        round@ == sum_round(poly@, half as nat),
{
    let mut round = UnivariatePoly::new(Vec::new());
    let mut k: usize = 0;
    proof {
        assert(round@ =~= Seq::<nat>::empty());
        assert(poly@.take(0).len() == 0);
    }
    while k < poly.polys.len()
        invariant
            k <= poly.polys.len(),
            products_have_len(poly@, (2 * half) as nat),
            forall|k: int| 0 <= k < poly@.len() ==> (#[trigger] poly@[k]).len() < usize::MAX,
            round@ == sum_round(poly@.take(k as int), half as nat),
        decreases poly.polys.len() - k,
    {
        proof {
            assert(poly@[k as int] == poly.polys@[k as int]@);
            let done = poly@.take(k + 1);
            assert(done.drop_last() =~= poly@.take(k as int));
            assert(done.last() == poly.polys@[k as int]@);
        }
        let term = product_round_poly(&poly.polys[k], half);
        round = round.add(&term);
        k = k + 1;
    }
    proof {
        assert(poly@.take(k as int) =~= poly@);
    }
    round
}

/// Binding the first variable keeps the shape of a sum of products and halves
/// its tables.
pub proof fn lemma_bound_shape(products: Seq<Seq<Seq<nat>>>, x: nat)
    requires
        summable(products),
        table_len(products) >= 2,
    ensures
        summable(bind_products(products, table_len(products) / 2, x)),
        table_len(bind_products(products, table_len(products) / 2, x)) == table_len(products) / 2,
        variable_count(table_len(products)) == 1 + variable_count(table_len(products) / 2),
        table_len(products) % 2 == 0,
{
    let len = table_len(products);
    let half = len / 2;
    let n = variable_count(len);
    let bound = bind_products(products, half, x);
    lemma_pow2_unfold(n);
    lemma_pow2_pos((n - 1) as nat);
    assert(half == pow2((n - 1) as nat));
    assert(variable_count(half) == n - 1);
    assert(bound[0] == crate::composed_polynomial::bind_factors(products[0], half, x));
    assert(bound[0][0] == bind_variable(products[0][0], half, x));
    assert forall|k: int| 0 <= k < bound.len() implies factors_have_len(#[trigger] bound[k], half)
        && (#[trigger] bound[k]).len() < usize::MAX by {
        assert(factors_have_len(products[k], len));
        assert forall|i: int| 0 <= i < bound[k].len() implies (#[trigger] bound[k][i]).len()
            == half by {
            assert(products[k][i].len() == len);
            assert(bound[k][i] == bind_variable(products[k][i], half, x));
        }
    }
}

/// One round of the prover.
fn prove_round(poly: &SumPoly, len: usize, transcript: &mut Transcript) -> (out: (
    UnivariatePoly,
    Fe,
    SumPoly,
))
    requires
        summable(poly@),
        len == table_len(poly@),
        len >= 2,
    ensures
        out.0@ == round_step(poly@, old(transcript)@).poly,
        out.1@ == round_step(poly@, old(transcript)@).challenge,
        out.2@ == round_step(poly@, old(transcript)@).bound,
        final(transcript)@ == round_step(poly@, old(transcript)@).state,
{
    proof {
        lemma_bound_shape(poly@, 0);
        assert forall|k: int, i: int| 0 <= k < poly@.len() && 0 <= i < poly@[k].len() implies (
        #[trigger] poly@[k][i]).len() as int % (2 * (len / 2)) == 0 by {
            assert(factors_have_len(poly@[k], len as nat));
            assert(2 * (len / 2) == len);
            assert(len as int % len as int == 0) by (nonlinear_arith)
                requires
                    len > 0,
            ;
        }
    }
    let half = len / 2;
    let round = round_polynomial(poly, half);
    let bytes = fq_vec_to_bytes(round.coefficient.as_slice());
    transcript.append(bytes.as_slice());
    let challenge = transcript.get_random_challenge();
    let bound = poly.bind(half, challenge);
    (round, challenge, bound)
}

/// The prover's side of the sum-check for `claimed_sum` as the sum of `poly`
/// over the boolean hypercube.
pub fn gkr_prove(claimed_sum: Fe, poly: &SumPoly, transcript: &mut Transcript) -> (proof:
    SumCheckProof)
    requires
        summable(poly@),
    ensures
        proof.proof_polynomials.deep_view() == prove_rounds(
            poly@,
            old(transcript)@ + encode_elements(seq![claimed_sum@]),
            variable_count(table_len(poly@)),
        ).polys,
        proof.random_challenges.deep_view() == prove_rounds(
            poly@,
            old(transcript)@ + encode_elements(seq![claimed_sum@]),
            variable_count(table_len(poly@)),
        ).challenges,
        final(transcript)@ == prove_rounds(
            poly@,
            old(transcript)@ + encode_elements(seq![claimed_sum@]),
            variable_count(table_len(poly@)),
        ).state,
{
    let claim_bytes = encode_one(claimed_sum);
    transcript.append(claim_bytes.as_slice());
    let ghost start = transcript@;
    let ghost rounds = variable_count(table_len(poly@));
    let mut polys: Vec<UnivariatePoly> = Vec::new();
    let mut challenges: Vec<Fe> = Vec::new();
    proof {
        assert(poly@[0] == poly.polys@[0]@);
        assert(poly@[0][0] == poly.polys@[0].polys@[0]@);
        assert(poly.polys.deep_view().len() == poly.polys@.len());
        assert(poly.polys@[0].polys.deep_view().len() == poly.polys@[0].polys@.len());
        assert(poly.polys@[0].polys@[0].evaluation.deep_view().len()
            == poly.polys@[0].polys@[0].evaluation@.len());
        lemma_pow2_pos(rounds);
    }
    let mut len = poly.polys[0].polys[0].evaluation.len();
    if len < 2 {
        proof {
            assert(polys.deep_view() =~= Seq::<Seq<nat>>::empty());
            assert(challenges.deep_view() =~= Seq::<nat>::empty());
        }
        return SumCheckProof { proof_polynomials: polys, random_challenges: challenges };
    }
    proof {
        lemma_bound_shape(poly@, round_step(poly@, start).challenge);
    }
    let first = prove_round(poly, len, transcript);
    let (round, challenge, bound) = first;
    polys.push(round);
    challenges.push(challenge);
    let mut current = bound;
    len = len / 2;
    proof {
        let rest = prove_rounds(current@, transcript@, (rounds - 1) as nat);
        assert(polys.deep_view() + rest.polys =~= prove_rounds(poly@, start, rounds).polys);
        assert(challenges.deep_view() + rest.challenges =~= prove_rounds(
            poly@,
            start,
            rounds,
        ).challenges);
    }
    while len >= 2
        invariant
            summable(current@),
            len == table_len(current@),
            variable_count(len as nat) <= rounds,
            polys.deep_view() + prove_rounds(
                current@,
                transcript@,
                variable_count(len as nat),
            ).polys == prove_rounds(poly@, start, rounds).polys,
            challenges.deep_view() + prove_rounds(
                current@,
                transcript@,
                variable_count(len as nat),
            ).challenges == prove_rounds(poly@, start, rounds).challenges,
            prove_rounds(current@, transcript@, variable_count(len as nat)).state == prove_rounds(
                poly@,
                start,
                rounds,
            ).state,
        decreases len,
    {
        let ghost before_polys = polys.deep_view();
        let ghost before_challenges = challenges.deep_view();
        let ghost step = round_step(current@, transcript@);
        let ghost here = prove_rounds(current@, transcript@, variable_count(len as nat));
        proof {
            lemma_bound_shape(current@, step.challenge);
        }
        let next = prove_round(&current, len, transcript);
        let (round, challenge, bound) = next;
        polys.push(round);
        challenges.push(challenge);
        current = bound;
        len = len / 2;
        proof {
            let rest = prove_rounds(current@, transcript@, variable_count(len as nat));
            assert(polys.deep_view() =~= before_polys.push(step.poly));
            assert(challenges.deep_view() =~= before_challenges.push(step.challenge));
            assert(here.polys == seq![step.poly] + rest.polys);
            assert(polys.deep_view() + rest.polys =~= before_polys + here.polys);
            assert(challenges.deep_view() + rest.challenges =~= before_challenges
                + here.challenges);
        }
    }
    proof {
        let rest = prove_rounds(current@, transcript@, variable_count(len as nat));
        assert(variable_count(len as nat) == 0);
        assert(polys.deep_view() + rest.polys =~= polys.deep_view());
        assert(challenges.deep_view() + rest.challenges =~= challenges.deep_view());
    }
    SumCheckProof { proof_polynomials: polys, random_challenges: challenges }
}

/// The verifier's side of the sum-check: checks the round polynomials against
/// `claimed_sum` and draws the challenges.
pub fn gkr_verify(
    round_polys: &Vec<UnivariatePoly>,
    claimed_sum: Fe,
    transcript: &mut Transcript,
) -> (result: SumCheckVerification)
    ensures
        result.verified == verify_rounds(
            round_polys.deep_view(),
            claimed_sum@,
            old(transcript)@ + encode_elements(seq![claimed_sum@]),
        ).verified,
        result.random_challenges.deep_view() == verify_rounds(
            round_polys.deep_view(),
            claimed_sum@,
            old(transcript)@ + encode_elements(seq![claimed_sum@]),
        ).challenges,
        result.final_claimed_sum@ == verify_rounds(
            round_polys.deep_view(),
            claimed_sum@,
            old(transcript)@ + encode_elements(seq![claimed_sum@]),
        ).final_claim,
        final(transcript)@ == verify_rounds(
            round_polys.deep_view(),
            claimed_sum@,
            old(transcript)@ + encode_elements(seq![claimed_sum@]),
        ).state,
{
    let claim_bytes = encode_one(claimed_sum);
    transcript.append(claim_bytes.as_slice());
    let ghost start = transcript@;
    let ghost all = round_polys.deep_view();
    let ghost whole = verify_rounds(all, claimed_sum@, start);
    let mut claim = claimed_sum;
    let mut challenges: Vec<Fe> = Vec::new();
    let mut i: usize = 0;
    proof {
        assert(all.skip(0) =~= all);
        assert(challenges.deep_view() + whole.challenges =~= whole.challenges);
    }
    while i < round_polys.len()
        invariant
            i <= round_polys.len(),
            all == round_polys.deep_view(),
            start == old(transcript)@ + encode_elements(seq![claimed_sum@]),
            whole == verify_rounds(all, claimed_sum@, start),
            verify_rounds(all.skip(i as int), claim@, transcript@).verified == whole.verified,
            challenges.deep_view() + verify_rounds(
                all.skip(i as int),
                claim@,
                transcript@,
            ).challenges == whole.challenges,
            verify_rounds(all.skip(i as int), claim@, transcript@).final_claim == whole.final_claim,
            verify_rounds(all.skip(i as int), claim@, transcript@).state == whole.state,
        decreases round_polys.len() - i,
    {
        let poly = &round_polys[i];
        let ghost here = verify_rounds(all.skip(i as int), claim@, transcript@);
        let ghost before = challenges.deep_view();
        proof {
            assert(all.skip(i as int).len() > 0);
            assert(all.skip(i as int)[0] == poly@);
            assert(all.skip(i as int).skip(1) =~= all.skip(i + 1));
            assert(poly.coefficient.deep_view().len() == poly.coefficient@.len());
        }
        let sum = poly.evaluate(Fe::zero()).add(poly.evaluate(Fe::one()));
        if poly.coefficient.len() > MAX_ROUND_COEFFICIENTS || !sum.equals(&claim) {
            proof {
                assert(!round_accepts(poly@, claim@));
                assert(before + here.challenges =~= before);
            }
            return SumCheckVerification {
                verified: false,
                random_challenges: challenges,
                final_claimed_sum: claim,
            };
        }
        proof {
            assert(round_accepts(poly@, claim@));
        }
        let bytes = fq_vec_to_bytes(poly.coefficient.as_slice());
        transcript.append(bytes.as_slice());
        let challenge = transcript.get_random_challenge();
        claim = poly.evaluate(challenge);
        challenges.push(challenge);
        i = i + 1;
        proof {
            let rest = verify_rounds(all.skip(i as int), claim@, transcript@);
            assert(challenges.deep_view() =~= before.push(challenge@));
            assert(here.challenges == seq![challenge@] + rest.challenges);
            assert(challenges.deep_view() + rest.challenges =~= before + here.challenges);
        }
    }
    proof {
        let rest = verify_rounds(all.skip(i as int), claim@, transcript@);
        assert(all.skip(i as int).len() == 0);
        assert(challenges.deep_view() + rest.challenges =~= challenges.deep_view());
    }
    SumCheckVerification { verified: true, random_challenges: challenges, final_claimed_sum: claim }
}

} // verus!
