use ccspeaks::dfpwm::{
    AudioIterator, Dfpwm, Modulator, RAIL_HIGH, RAIL_LOW, STRENGTH_FLOOR, STRENGTH_MAX,
};

#[test]
fn dfpwm_encode() {
    let input: Vec<i8> = vec![
        4, 4, 3, 3, 3, 3, 3, 2, 2, 2, 2, 2, 1, 1, 1, 0, 0, 0, 0, 0, 0, 0, -1, -1, -1, -1, -1, -2, -2,
        -2, -2, -2, -3, -3, -3, -4, -4, -4, -4, -4, -5, -5, -5, -5, -5, -6, -6, -6, -7, -7, -7, -7,
        -7, -7, -7, -7, -7, -8, -8, -8, -8, -8, -8, -8, -8, -8, -8, -8, -8, -8, -8, -8, -8, -7, -7,
        -7, -7, -7, -7, -7, -7, -7, -6, -6, -6, -6, -6, -6, -6, -6, -6, -5, -5, -5, -5, -5, -5, -5,
        -4, -4, -4, -4, -4, -3, -3, -3, -3, -3, -3, -3, -2, -2, -2, -2, -2, -1, -1, -1, -1, -1, 0, 0,
        0, 0, 0, 0, 0, 0, 0, 1, 1, 1, 1, 1, 2, 2, 2, 2, 2, 2, 2, 3, 3, 3, 3, 3, 3, 3, 3, 3, 4, 4, 4,
        4, 4, 4, 4, 4, 4, 4, 4, 4, 4, 4, 4, 5, 5, 5, 5, 5, 5, 5, 5, 4, 4, 4, 4, 4, 4, 4, 4, 4, 3, 3,
        3, 3, 3, 3, 3, 2, 2, 2, 2, 2, 2, 2, 1, 1, 1, 1, 1, 0, 0, 0, 0, 0, 0, 0, 0, 0, 0, 0, -1, -1,
        -1, -1, -1, -1, -1, -2, -2, -2, -2, -2, -2, -2, -2, -2, -3, -3, -3, -3, -3, -3, -3, -4, -4,
        -4, -4, -4, -4, -4, -4, -4, -4, -4, -4, -4, -4, -4, -4, -4, -4, -4, -4, -4, -4, -4, -4, -4,
        -4, -3, -3, -3, -3, -3, -3, -3, -3, -3, -3, -3, -2, -2, -2, -2, -2, -1, -1, -1, -1, -1, 0, 0,
        0, 0, 0, 0, 0, 0, 0, 0, 0, 1, 1, 1, 1, 1, 2, 2, 2, 2, 2, 3, 3, 3, 4, 4, 4, 4, 4, 4, 4, 5, 5,
        5, 5, 5, 5, 5, 5, 5, 5, 5, 6, 6, 6, 6, 6, 6, 6, 6, 6, 6, 6, 6, 6, 6, 6, 6, 6, 6, 5, 5, 5, 5,
        5, 5, 5, 5, 5, 5, 5, 5, 5, 5, 5, 4, 4, 4, 4, 4, 3, 3, 3, 3, 3, 3, 3, 2, 2, 2, 2, 2, 1, 1, 1,
        1, 1, 0, 0, 0, 0, 0, 0, 0, -1, -1, -1, -1, -1, -2, -2, -2, -2, -2, -3, -3, -3, -3, -3, -4,
        -4, -4, -4, -4, -5, -5, -5, -5, -5, -5, -5, -6, -6, -6, -6, -6, -6, -6, -6, -6, -6, -6, -7,
        -7, -7, -7, -7, -7, -6, -6, -6, -6, -6, -6, -6, -6, -6, -6, -6, -5, -5, -5, -5, -5, -5, -5,
        -5, -5, -5, -5, -4, -4, -4, -4, -4, -4, -4, -4, -4, -3, -3, -3, -3, -3, -2, -2, -2, -2, -2,
        -1, -1, -1, -1, -1, 0, 0, 0, 0, 0, 0, 0, 0, 0, 0, 0, 1, 1, 1, 1, 1, 2, 2, 2, 2, 2, 2, 2, 3,
        3, 3, 3, 3, 3, 3, 4, 4, 4, 4, 4, 4, 4, 4, 4, 4, 4, 4, 4, 4, 4, 4, 4, 4, 4, 4, 4, 4, 4, 4, 4,
        4, 4, 4, 4, 4, 4, 4, 3, 3, 3, 3, 3, 3, 3, 3, 3, 2, 2, 2, 2, 2, 2, 2, 2, 2, 1, 1, 1, 1, 1, 1,
        1, 1, 1, 0, 0, 0, 0, 0, 0, 0, 0, 0, 0, 0, 0, 0, -1, -1, -1, -1, -1, -1, -1, -2, -2, -2, -2,
        -2, -2, -2, -2, -2, -3, -3, -3, -3, -3, -3, -3, -3, -3, -3, -3, -3, -3, -3, -3, -3, -3, -3,
        -3, -3, -3, -3, -3, -3, -3, -3, -3, -3, -3, -3, -3, -3, -2, -2, -2, -2, -2, -2, -2, -1, -1,
        -1, -1, -1, -1, -1, -1, -1, -1, -1, 0, 0, 0, 0, 0, 0, 0, 0, 0, 0, 0, 1, 1, 1, 1, 1, 1, 1, 2,
        2, 2, 2, 2, 3, 3, 3, 3, 3, 3, 3, 4, 4, 4, 4, 4, 4, 4, 4, 4, 5, 5, 5, 5, 5, 5, 5, 5, 5, 5, 5,
        5, 5, 5, 5, 5, 5, 5, 5, 5, 5, 5, 5, 5, 5, 5, 4, 4, 4, 4, 4, 4, 4, 4, 4, 3, 3, 3, 3, 3, 2, 2,
        2, 2, 2, 2, 2, 1, 1, 1, 1, 1, 0, 0, 0, 0, 0, 0, 0, 0, 0, 0, 0, -1, -1, -1, -1, -1, -2, -2,
        -2, -2, -2, -3, -3, -3, -3, -3, -4, -4, -4, -4, -4, -5, -5, -5, -5, -5, -5, -5, -5, -5, -5,
        -5, -6, -6, -6, -6, -6, -6, -6, -6, -6, -6, -6, -6, -6, -6, -6, -6, -6, -6, -6, -6, -6, -6,
        -6, -6, -6, -6, -6, -6, -5, -5, -5, -5, -5, -5, -5, -4, -4, -4, -4, -4, -4, -4, -3, -3, -3,
        -3, -3, -3, -3, -2, -2, -2, -2, -2, -2, -2, -1, -1, -1, -1, -1, -1, -1, 0, 0, 0, 0, 0, 0, 0,
        0, 0, 0, 0, 0, 0, 1, 1, 1, 1, 1, 1, 1, 1, 1, 2, 2, 2, 2, 2, 2, 2, 3, 3, 3, 3, 3, 3, 3, 3, 3,
        3, 3, 3, 3, 3, 3, 3, 3, 3, 3, 3, 3, 3, 3, 3, 3, 3, 3, 3, 3, 3, 3, 3, 3, 3, 3, 3, 3, 3, 3, 3,
        2, 2, 2, 2, 2, 2, 2, 2, 2, 1, 1, 1, 1, 1, 1, 1, 1, 1, 0, 0, 0, 0, 0, 0, 0, 0, 0, 0, 0, 0, 0,
        0, 0, -1, -1, -1, -1, -1, -1, -1, -2, -2, -2, -2, -2, -2, -2, -2, -2, -2, -2, -2, -2, -2, -2,
        -2, -2, -2, -2, -2, -2, -2, -2, -2, -2, -2, -2, -2, -2, -2, -2, -2, -2, -2, -2, -2, -2, -2,
        -2, -2, -1, -1, -1, -1, -1, -1, -1, 0, 0, 0, 0, 0, 0, 0, 0, 0, 0, 0, 0, 0, 1, 1, 1, 1, 1, 1,
        1, 2, 2, 2, 2, 2, 2, 2, 3,
    ];
    let output: Vec<i8> = vec![
        87, 74, 42, -91, -92, -108, 84, -87, -86, 86, -83, 90, -83, -43, 90, -85, -42, 106, -43, -86,
        106, -107, 42, -107, 74, -87, 74, -91, 74, -91, -86, -86, 106, 85, 107, -83, 106, -83, -83,
        86, -75, -86, 42, 85, -107, 82, 41, -91, 82, 74, 41, -107, -86, -44, -86, 86, -75, 106, -83,
        -75, -86, -75, 90, -83, -86, -86, -86, 82, -91, 74, -107, -86, 82, -87, 82, 85, 85, 85, -83,
        86, -75, -86, -43, 90, -83, 90, 85, 85, -107, 42, -91, 82, -86, 82, 74, 41, 85, -87, -86,
        -86, 106, -75, 90, -83, 86, -85, 106, -43, 106, 85, 85, 85, 85, -107, 42, 85, -86, 42, -107,
        -86, -86, -86, -86, 106, -75, -86, 86, -85,
    ];
    let output: Vec<u8> = output.into_iter().map(|x| x as u8).collect();
    let actual_output: Vec<u8> = input.to_dfpwm().collect();

    if output != actual_output {
        panic!("Mismatch:\nExpected: {:?}\n     Got: {:?}", output, actual_output);
    }
}

#[test]
fn first_byte_of_a_falling_signal() {
    let levels: Vec<i8> = vec![4, 4, 3, 3, 3, 3, 3, 2];
    let mut encoder = levels.to_dfpwm();
    assert_eq!(encoder.next(), Some(87));
    assert_eq!(encoder.next(), None);
}

#[test]
fn empty_input_gives_no_bytes() {
    let levels: Vec<i8> = Vec::new();
    assert_eq!(levels.to_dfpwm().collect(), Vec::<u8>::new());
    let mut encoder = Dfpwm::new(Vec::new());
    assert_eq!(encoder.next(), None);
    assert_eq!(encoder.next(), None);
}

#[test]
fn output_has_one_byte_per_eight_levels_rounded_up() {
    for n in 0..40usize {
        let levels: Vec<i8> = (0..n).map(|i| ((i * 37) % 256) as u8 as i8).collect();
        assert_eq!(levels.to_dfpwm().collect().len(), (n + 7) / 8);
    }
}

#[test]
fn partial_last_byte_fills_low_bits_first() {
    let levels: Vec<i8> = vec![4, 4, 3];
    assert_eq!(levels.to_dfpwm().collect(), vec![0b0000_0111u8]);
    let levels: Vec<i8> = vec![100; 9];
    assert_eq!(levels.to_dfpwm().collect(), vec![255u8, 1]);
    let levels: Vec<i8> = vec![127; 20];
    assert_eq!(levels.to_dfpwm().collect(), vec![255u8, 255, 15]);
    let levels: Vec<i8> = vec![-128; 20];
    assert_eq!(levels.to_dfpwm().collect(), vec![0u8, 0, 0]);
}

#[test]
fn encoding_the_same_input_twice_gives_the_same_bytes() {
    let levels: Vec<i8> = (0..100usize).map(|i| ((i * 91 + 13) % 256) as u8 as i8).collect();
    let first = levels.clone().to_dfpwm().collect();
    let second = Dfpwm::new(levels).collect();
    assert_eq!(first, second);
}

#[test]
fn next_and_collect_agree() {
    let levels: Vec<i8> = (0..27usize).map(|i| ((i * 53 + 7) % 256) as u8 as i8).collect();
    let whole = levels.clone().to_dfpwm().collect();
    let mut encoder = levels.clone().to_dfpwm();
    let mut pulled: Vec<u8> = Vec::new();
    while let Some(byte) = encoder.next() {
        pulled.push(byte);
    }
    assert_eq!(pulled, whole);
    let mut encoder = levels.to_dfpwm();
    assert_eq!(encoder.next(), Some(whole[0]));
    assert_eq!(encoder.collect(), whole[1..].to_vec());
}

#[test]
fn modulator_decides_sample_by_sample() {
    let mut modulator = Modulator::new();
    let bits: Vec<bool> =
        [4i8, 4, 3, 3, 3, 3, 3, 2].iter().map(|level| modulator.encode_sample(*level)).collect();
    assert_eq!(bits, vec![true, true, true, false, true, false, true, false]);
}

#[test]
fn a_level_on_the_high_rail_is_decided_as_set() {
    let mut modulator = Modulator::new();
    let mut last = false;
    for _ in 0..2000 {
        last = modulator.encode_sample(127);
    }
    assert!(last);
    assert!(modulator.encode_sample(127));
    assert!(!modulator.encode_sample(126));
}

#[test]
fn a_fresh_modulator_is_at_rest() {
    let modulator = Modulator::new();
    assert_eq!(modulator.charge(), 0);
    assert_eq!(modulator.strength(), 0);
    assert!(!modulator.previous_bit());
}

#[test]
fn one_step_follows_the_update_rules() {
    let mut modulator = Modulator::new();
    assert!(modulator.encode_sample(4));
    assert_eq!((modulator.charge(), modulator.strength(), modulator.previous_bit()), (1, 8, true));
    assert!(modulator.encode_sample(4));
    assert_eq!((modulator.charge(), modulator.strength(), modulator.previous_bit()), (2, 9, true));
    assert!(modulator.encode_sample(3));
    assert_eq!((modulator.charge(), modulator.strength(), modulator.previous_bit()), (3, 10, true));
    assert!(!modulator.encode_sample(3));
    assert_eq!((modulator.charge(), modulator.strength(), modulator.previous_bit()), (2, 9, false));
}

#[test]
fn strength_stays_between_floor_and_maximum() {
    assert_eq!((STRENGTH_FLOOR, STRENGTH_MAX), (8, 1023));
    let mut modulator = Modulator::new();
    for i in 0..5000usize {
        let level = if i < 2500 { 127 } else { ((i * 97) % 256) as u8 as i8 };
        modulator.encode_sample(level);
        assert!(modulator.strength() >= STRENGTH_FLOOR);
        assert!(modulator.strength() <= STRENGTH_MAX);
    }
    let mut modulator = Modulator::new();
    for _ in 0..1100 {
        modulator.encode_sample(127);
    }
    assert_eq!(modulator.strength(), STRENGTH_MAX);
    modulator.encode_sample(-128);
    assert_eq!(modulator.strength(), STRENGTH_MAX - 1);
}

#[test]
fn charge_stays_within_the_rails_and_never_stalls() {
    assert_eq!((RAIL_LOW, RAIL_HIGH), (-128, 127));
    let mut modulator = Modulator::new();
    for i in 0..3000usize {
        let level = ((i * 61 + i / 7) % 256) as u8 as i8;
        let before = modulator.charge();
        let bit = modulator.encode_sample(level);
        let after = modulator.charge();
        assert!((RAIL_LOW..=RAIL_HIGH).contains(&after));
        if bit {
            assert!(after > before || before == RAIL_HIGH);
        } else {
            assert!(after < before || before == RAIL_LOW);
        }
    }
}

#[test]
fn each_bit_of_a_byte_is_the_decision_for_its_sample() {
    let levels: Vec<i8> = (0..21usize).map(|i| ((i * 45 + 3) % 256) as u8 as i8).collect();
    let bytes = levels.clone().to_dfpwm().collect();
    let mut modulator = Modulator::new();
    for (i, level) in levels.iter().enumerate() {
        let bit = modulator.encode_sample(*level);
        assert_eq!((bytes[i / 8] >> (i % 8)) & 1 == 1, bit);
    }
    assert_eq!(bytes[2] >> 5, 0);
}

#[test]
fn encoding_a_prefix_gives_a_prefix_of_the_encoding() {
    let levels: Vec<i8> = (0..50usize).map(|i| ((i * 29 + 11) % 256) as u8 as i8).collect();
    let whole = levels.clone().to_dfpwm().collect();
    for k in 0..=6usize {
        let prefix: Vec<i8> = levels[..8 * k].to_vec();
        assert_eq!(prefix.to_dfpwm().collect(), whole[..k].to_vec());
    }
}
