//! The Fiat-Shamir transcript: an absorber of protocol messages from which the
//! verifier's challenges are derived.
//!
//! The state is the digest of everything up to the last challenge followed by
//! the bytes absorbed since. A challenge is the SHA3-256 digest of the state,
//! read as a little-endian integer and reduced into the field; the digest then
//! becomes the new state, so every challenge depends on all earlier messages.

use crate::field::{le_bytes, le_bytes_value, modulus, Fe, FE_BYTES};
use sha3::{Digest, Sha3_256};
use vstd::prelude::*;

verus! {

/// The SHA3-256 digest of a byte string.
pub uninterp spec fn sha3_256(data: Seq<u8>) -> Seq<u8>;

/// The challenge that a transcript in state `state` gives.
pub open spec fn challenge_of(state: Seq<u8>) -> nat {
    le_bytes_value(sha3_256(state)) % modulus()
}

/// The encoding of a sequence of field elements: their 32-byte little-endian
/// encodings, one after the other.
pub open spec fn encode_elements(values: Seq<nat>) -> Seq<u8>
    decreases values.len(),
{
    if values.len() == 0 {
        Seq::empty()
    } else {
        encode_elements(values.drop_last()) + le_bytes(values.last(), FE_BYTES as nat)
    }
}

/// `256^n`.
pub open spec fn byte_power(n: nat) -> nat
    decreases n,
{
    if n == 0 {
        1
    } else {
        256 * byte_power((n - 1) as nat)
    }
}

/// The `n` low bytes of a number determine it up to multiples of `256^n`.
proof fn lemma_le_bytes_injective(a: nat, b: nat, n: nat)
    requires
        le_bytes(a, n) == le_bytes(b, n),
    ensures
        a % byte_power(n) == b % byte_power(n),
        byte_power(n) > 0,
    decreases n,
{
    if n > 0 {
        let rest = (n - 1) as nat;
        let first_a = seq![(a % 256) as u8];
        let first_b = seq![(b % 256) as u8];
        assert(le_bytes(a, n) == first_a + le_bytes(a / 256, rest));
        assert(le_bytes(b, n) == first_b + le_bytes(b / 256, rest));
        assert((first_a + le_bytes(a / 256, rest))[0] == (a % 256) as u8);
        assert((first_b + le_bytes(b / 256, rest))[0] == (b % 256) as u8);
        assert(a % 256 == b % 256);
        assert(le_bytes(a / 256, rest) =~= le_bytes(a, n).skip(1));
        assert(le_bytes(b / 256, rest) =~= le_bytes(b, n).skip(1));
        lemma_le_bytes_injective(a / 256, b / 256, rest);
        let p = byte_power(rest) as int;
        let (qa, qb) = ((a / 256) as int, (b / 256) as int);
        vstd::arithmetic::div_mod::lemma_fundamental_div_mod(qa, p);
        vstd::arithmetic::div_mod::lemma_fundamental_div_mod(qb, p);
        let low = a as int % 256 + 256 * (qa % p);
        assert(0 <= low < 256 * p) by (nonlinear_arith)
            requires
                low == a as int % 256 + 256 * (qa % p),
                0 <= a as int % 256 < 256,
                0 <= qa % p < p,
        ;
        assert(a as int == (256 * p) * (qa / p) + low) by (nonlinear_arith)
            requires
                a as int == 256 * qa + a as int % 256,
                qa == p * (qa / p) + qa % p,
                low == a as int % 256 + 256 * (qa % p),
        ;
        assert(b as int == (256 * p) * (qb / p) + low) by (nonlinear_arith)
            requires
                b as int == 256 * qb + b as int % 256,
                qb == p * (qb / p) + qb % p,
                low == a as int % 256 + 256 * (qa % p),
                a as int % 256 == b as int % 256,
                qa % p == qb % p,
        ;
        vstd::arithmetic::div_mod::lemma_fundamental_div_mod_converse(
            a as int,
            256 * p,
            qa / p,
            low,
        );
        vstd::arithmetic::div_mod::lemma_fundamental_div_mod_converse(
            b as int,
            256 * p,
            qb / p,
            low,
        );
    }
}

/// The encoding of a sequence of elements has 32 bytes for each element.
pub proof fn lemma_encoding_len(values: Seq<nat>)
    ensures
        encode_elements(values).len() == 32 * values.len(),
    decreases values.len(),
{
    if values.len() > 0 {
        lemma_encoding_len(values.drop_last());
        lemma_le_bytes_len(values.last(), 32);
    }
}

/// A number has as many low bytes as are asked for.
proof fn lemma_le_bytes_len(value: nat, n: nat)
    ensures
        le_bytes(value, n).len() == n,
    decreases n,
{
    if n > 0 {
        lemma_le_bytes_len(value / 256, (n - 1) as nat);
    }
}

/// The encoding is free of collisions: two sequences of elements with the
/// same encoding are the same sequence.
pub proof fn lemma_encoding_injective(a: Seq<nat>, b: Seq<nat>)
    requires
        encode_elements(a) == encode_elements(b),
        forall|i: int| 0 <= i < a.len() ==> (#[trigger] a[i]) < modulus(),
        forall|i: int| 0 <= i < b.len() ==> (#[trigger] b[i]) < modulus(),
    ensures
        a == b,
    decreases a.len(),
{
    lemma_encoding_len(a);
    lemma_encoding_len(b);
    assert(a.len() == b.len());
    if a.len() > 0 {
        let (head_a, head_b) = (encode_elements(a.drop_last()), encode_elements(b.drop_last()));
        let (tail_a, tail_b) = (le_bytes(a.last(), 32), le_bytes(b.last(), 32));
        lemma_encoding_len(a.drop_last());
        lemma_encoding_len(b.drop_last());
        lemma_le_bytes_len(a.last(), 32);
        lemma_le_bytes_len(b.last(), 32);
        let cut = head_a.len() as int;
        assert(head_a =~= (head_a + tail_a).take(cut));
        assert(head_b =~= (head_b + tail_b).take(cut));
        assert(tail_a =~= (head_a + tail_a).skip(cut));
        assert(tail_b =~= (head_b + tail_b).skip(cut));
        lemma_encoding_injective(a.drop_last(), b.drop_last());
        lemma_le_bytes_injective(a.last(), b.last(), 32);
        assert(byte_power(32) > modulus()) by {
            reveal_with_fuel(byte_power, 33);
        }
        vstd::arithmetic::div_mod::lemma_small_mod(a.last(), byte_power(32));
        vstd::arithmetic::div_mod::lemma_small_mod(b.last(), byte_power(32));
        assert(a =~= a.drop_last().push(a.last()));
        assert(b =~= b.drop_last().push(b.last()));
    }
}

/// The Fiat-Shamir transcript.
pub struct Transcript {
    state: Vec<u8>,
}

impl View for Transcript {
    type V = Seq<u8>;

    /// The state: the last digest, followed by what was absorbed since.
    closed spec fn view(&self) -> Seq<u8> {
        self.state@
    }
}

impl Transcript {
    /// A transcript that has absorbed nothing.
    pub fn new() -> (t: Transcript)
        ensures
            t@ == Seq::<u8>::empty(),
    {
        Transcript { state: Vec::new() }
    }

    /// Absorbs `preimage`.
    pub fn append(&mut self, preimage: &[u8])
        ensures
            final(self)@ == old(self)@ + preimage@,
    {
        let mut i: usize = 0;
        while i < preimage.len()
            invariant
                i <= preimage.len(),
                self.state@ == old(self).state@ + preimage@.take(i as int),
            decreases preimage.len() - i,
        {
            self.state.push(preimage[i]);
            i = i + 1;
            proof {
                assert(preimage@.take(i as int) =~= preimage@.take(i - 1).push(preimage@[i - 1]));
                assert(self.state@ =~= old(self).state@ + preimage@.take(i as int));
            }
        }
        proof {
            assert(preimage@.take(i as int) =~= preimage@);
        }
    }

    /// Derives the next challenge from everything absorbed so far.
    pub fn get_random_challenge(&mut self) -> (challenge: Fe)
        ensures
            challenge@ == challenge_of(old(self)@),
            final(self)@ == sha3_256(old(self)@),
    {
        let digest = sha3_256_digest(&self.state);
        let challenge = Fe::from_le_bytes_mod_order(&digest);
        self.state = digest;
        challenge
    }
}

/// The bytes that the transcript absorbs for a sequence of field elements.
pub fn fq_vec_to_bytes(values: &[Fe]) -> (bytes: Vec<u8>)
    ensures
        bytes@ == encode_elements(values.deep_view()),
{
    let mut bytes: Vec<u8> = Vec::new();
    let mut i: usize = 0;
    while i < values.len()
        invariant
            i <= values.len(),
            bytes@ == encode_elements(values.deep_view().take(i as int)),
        decreases values.len() - i,
    {
        let mut encoded = values[i].to_bytes_le();
        bytes.append(&mut encoded);
        i = i + 1;
        proof {
            let now = values.deep_view().take(i as int);
            assert(now.drop_last() =~= values.deep_view().take(i - 1));
            assert(now.last() == values@[i - 1]@);
        }
    }
    proof {
        assert(values.deep_view().take(i as int) =~= values.deep_view());
    }
    bytes
}

/// The bytes that the transcript absorbs for a single field element.
pub fn encode_one(value: Fe) -> (bytes: Vec<u8>)
    ensures
        bytes@ == encode_elements(seq![value@]),
{
    let mut values: Vec<Fe> = Vec::new();
    values.push(value);
    let slice = values.as_slice();
    proof {
        assert(slice.deep_view() =~= seq![value@]);
    }
    fq_vec_to_bytes(slice)
}

/// SHA3-256 of `data`, computed by the `sha3` crate's `Sha3_256::digest`.
#[verifier::external_body]
fn sha3_256_digest(data: &Vec<u8>) -> (digest: Vec<u8>)
    ensures
        digest@ == sha3_256(data@),
{
    Sha3_256::digest(data.as_slice()).to_vec()
}

} // verus!
