use gkr::field::Fe;

fn fe(x: u64) -> Fe {
    Fe::from_u64(x)
}

const MODULUS_MINUS_ONE: [u8; 32] = [
    70, 253, 124, 216, 22, 140, 32, 60, 141, 202, 113, 104, 145, 106, 129, 151, 93, 88, 129, 129,
    182, 69, 80, 184, 41, 160, 49, 225, 114, 78, 100, 48,
];

#[test]
fn small_values_add_subtract_and_multiply() {
    assert_eq!(fe(2).add(fe(3)), fe(5));
    assert_eq!(fe(6).mul(fe(7)), fe(42));
    assert_eq!(fe(9).sub(fe(4)), fe(5));
    assert_eq!(Fe::zero(), fe(0));
    assert_eq!(Fe::one(), fe(1));
    assert_ne!(fe(2).add(fe(3)), fe(2));
    assert_ne!(fe(6).mul(fe(7)), fe(6));
    assert_ne!(fe(9).sub(fe(4)), fe(9));
}

#[test]
fn arithmetic_wraps_at_the_modulus() {
    let minus_one = fe(0).sub(fe(1));
    assert_eq!(minus_one.to_bytes_le(), MODULUS_MINUS_ONE.to_vec());
    assert_eq!(minus_one.add(fe(1)), fe(0));
    assert_eq!(minus_one.add(fe(3)), fe(2));
    assert_eq!(minus_one.mul(minus_one), fe(1));
    assert_eq!(fe(4).sub(fe(9)).add(fe(5)), fe(0));
}

#[test]
fn products_beyond_one_limb() {
    let big = fe(u64::MAX);
    let square = big.mul(big);
    assert_eq!(
        square.to_bytes_le(),
        vec![
            1, 0, 0, 0, 0, 0, 0, 0, 254, 255, 255, 255, 255, 255, 255, 255, 0, 0, 0, 0, 0, 0, 0, 0,
            0, 0, 0, 0, 0, 0, 0, 0
        ]
    );
    let fourth = square.mul(square);
    assert_eq!(
        fourth.to_bytes_le(),
        vec![
            158, 13, 143, 197, 141, 67, 93, 211, 57, 11, 199, 245, 40, 235, 120, 10, 50, 70, 121,
            120, 111, 163, 110, 102, 43, 223, 7, 154, 193, 119, 10, 14
        ]
    );
}

#[test]
fn bytes_are_little_endian_and_fixed_width() {
    assert_eq!(
        fe(0x0102030405060708).to_bytes_le(),
        vec![
            8, 7, 6, 5, 4, 3, 2, 1, 0, 0, 0, 0, 0, 0, 0, 0, 0, 0, 0, 0, 0, 0, 0, 0, 0, 0, 0, 0, 0,
            0, 0, 0
        ]
    );
    assert_eq!(fe(0).to_bytes_le(), vec![0u8; 32]);
}

#[test]
fn bytes_are_reduced_modulo_the_field_order() {
    assert_eq!(Fe::from_le_bytes_mod_order(&vec![]), fe(0));
    assert_eq!(Fe::from_le_bytes_mod_order(&vec![7]), fe(7));
    assert_eq!(Fe::from_le_bytes_mod_order(&vec![1, 1]), fe(257));
    assert_eq!(
        Fe::from_le_bytes_mod_order(&MODULUS_MINUS_ONE.to_vec()),
        fe(0).sub(fe(1))
    );

    let mut modulus = MODULUS_MINUS_ONE.to_vec();
    modulus[0] += 1;
    assert_eq!(Fe::from_le_bytes_mod_order(&modulus), fe(0));

    assert_eq!(
        Fe::from_le_bytes_mod_order(&vec![255u8; 32]).to_bytes_le(),
        vec![
            156, 13, 143, 197, 141, 67, 93, 211, 61, 11, 199, 245, 40, 235, 120, 10, 44, 70, 121,
            120, 111, 163, 110, 102, 47, 223, 7, 154, 193, 119, 10, 14
        ]
    );

    let long: Vec<u8> = (1..=40).collect();
    assert_eq!(
        Fe::from_le_bytes_mod_order(&long).to_bytes_le(),
        vec![
            229, 244, 230, 157, 200, 249, 171, 208, 220, 25, 48, 114, 150, 242, 154, 47, 93, 216,
            172, 215, 177, 20, 133, 142, 138, 97, 186, 249, 151, 149, 178, 5
        ]
    );
}

#[test]
fn equals_agrees_with_equality() {
    assert!(fe(5).equals(&fe(2).add(fe(3))));
    assert!(!fe(5).equals(&fe(6)));
    let round_trip = Fe::from_le_bytes_mod_order(&fe(0).sub(fe(12)).to_bytes_le());
    assert!(round_trip.equals(&fe(0).sub(fe(12))));
}
