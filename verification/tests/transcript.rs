use gkr::field::Fe;
use gkr::transcript::{fq_vec_to_bytes, Transcript};

#[test]
fn first_challenge_of_an_empty_transcript() {
    let mut transcript = Transcript::new();
    let challenge = transcript.get_random_challenge();
    // SHA3-256 of the empty string, little-endian, modulo the field order.
    assert_eq!(
        challenge.to_bytes_le(),
        vec![
            96, 2, 74, 32, 169, 146, 182, 42, 196, 246, 213, 237, 14, 247, 84, 203, 151, 40, 126,
            204, 45, 246, 248, 65, 89, 56, 217, 105, 13, 170, 223, 25
        ]
    );
}

#[test]
fn challenges_chain_through_the_digest() {
    let mut transcript = Transcript::new();
    transcript.append(&fq_vec_to_bytes(&[Fe::from_u64(7)]));
    let first = transcript.get_random_challenge();
    let second = transcript.get_random_challenge();
    assert_eq!(
        first.to_bytes_le(),
        vec![
            7, 38, 36, 36, 13, 216, 218, 229, 248, 28, 87, 188, 133, 79, 85, 100, 154, 144, 151, 55,
            37, 34, 222, 147, 184, 8, 202, 43, 169, 71, 12, 41
        ]
    );
    assert_eq!(
        second.to_bytes_le(),
        vec![
            0, 194, 203, 216, 143, 149, 82, 72, 102, 217, 36, 46, 234, 100, 96, 77, 133, 69, 44,
            130, 175, 193, 93, 54, 252, 154, 128, 248, 17, 91, 194, 37
        ]
    );
}

#[test]
fn appending_in_pieces_is_appending_at_once() {
    let mut whole = Transcript::new();
    whole.append(&[1, 2, 3, 4, 5]);
    let mut pieces = Transcript::new();
    pieces.append(&[1, 2]);
    pieces.append(&[]);
    pieces.append(&[3, 4, 5]);
    assert_eq!(whole.get_random_challenge(), pieces.get_random_challenge());
}

#[test]
fn challenge_depends_on_what_was_absorbed() {
    let mut one = Transcript::new();
    one.append(&[1]);
    let mut two = Transcript::new();
    two.append(&[2]);
    assert_ne!(one.get_random_challenge(), two.get_random_challenge());
}

#[test]
fn elements_are_encoded_in_order() {
    let bytes = fq_vec_to_bytes(&[Fe::from_u64(1), Fe::from_u64(0x0203)]);
    let mut expected = vec![0u8; 64];
    expected[0] = 1;
    expected[32] = 3;
    expected[33] = 2;
    assert_eq!(bytes, expected);
    assert_eq!(fq_vec_to_bytes(&[]), Vec::<u8>::new());
}
