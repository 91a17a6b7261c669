use nostr_pow::difficulty::{check_pow_difficulty, count_leading_zero_bits};

fn digest_from(prefix: &[u8], fill: u8) -> [u8; 32] {
    let mut digest = [fill; 32];
    digest[..prefix.len()].copy_from_slice(prefix);
    digest
}

#[test]
fn zero_difficulty_is_always_met() {
    assert!(check_pow_difficulty(&[0xff; 32], 0));
    assert!(check_pow_difficulty(&[0x00; 32], 0));
    assert!(check_pow_difficulty(&digest_from(&[0x80], 0x55), 0));
}

#[test]
fn half_zero_second_byte_meets_twelve_but_not_thirteen() {
    let digest = digest_from(&[0x00, 0x0f], 0xff);
    for difficulty in 0..=12u8 {
        assert!(check_pow_difficulty(&digest, difficulty), "difficulty {}", difficulty);
    }
    for difficulty in 13..=255u8 {
        assert!(!check_pow_difficulty(&digest, difficulty), "difficulty {}", difficulty);
    }
    assert_eq!(count_leading_zero_bits(&digest), 12);
}

#[test]
fn two_zero_bytes_meet_up_to_sixteen() {
    let digest = digest_from(&[0x00, 0x00], 0xff);
    for difficulty in 0..=16u8 {
        assert!(check_pow_difficulty(&digest, difficulty), "difficulty {}", difficulty);
    }
    for difficulty in 17..=255u8 {
        assert!(!check_pow_difficulty(&digest, difficulty), "difficulty {}", difficulty);
    }
    assert_eq!(count_leading_zero_bits(&digest), 16);
}

#[test]
fn every_leading_byte_value_is_counted_exactly() {
    for value in 0..=255u8 {
        let digest = digest_from(&[value], 0xff);
        let expected = value.leading_zeros();
        assert_eq!(count_leading_zero_bits(&digest), expected);
        for difficulty in 0..=16u8 {
            assert_eq!(
                check_pow_difficulty(&digest, difficulty),
                u32::from(difficulty) <= expected,
                "value {} difficulty {}",
                value,
                difficulty
            );
        }
    }
}

#[test]
fn every_bit_position_is_a_boundary() {
    for position in 0..256usize {
        let mut digest = [0u8; 32];
        digest[position / 8] = 0x80 >> (position % 8);
        assert_eq!(count_leading_zero_bits(&digest), position as u32);
        for difficulty in 0..=255u8 {
            assert_eq!(
                check_pow_difficulty(&digest, difficulty),
                usize::from(difficulty) <= position,
                "position {} difficulty {}",
                position,
                difficulty
            );
        }
    }
}

#[test]
fn bits_after_the_first_set_bit_do_not_count() {
    let digest = digest_from(&[0x00, 0x10, 0x00, 0x00], 0x00);
    assert_eq!(count_leading_zero_bits(&digest), 11);
    assert!(check_pow_difficulty(&digest, 11));
    assert!(!check_pow_difficulty(&digest, 12));
    assert!(!check_pow_difficulty(&digest, 16));
    assert!(!check_pow_difficulty(&digest, 24));
}

#[test]
fn all_zero_digest_meets_every_difficulty() {
    let digest = [0u8; 32];
    assert_eq!(count_leading_zero_bits(&digest), 256);
    for difficulty in 0..=255u8 {
        assert!(check_pow_difficulty(&digest, difficulty));
    }
}

#[test]
fn count_agrees_with_the_sdk() {
    let mut state: u32 = 0x1234_5678;
    for round in 0..2000u32 {
        let mut digest = [0u8; 32];
        for byte in digest.iter_mut() {
            state = state.wrapping_mul(1_664_525).wrapping_add(1_013_904_223);
            *byte = (state >> 24) as u8;
        }
        let zero_bytes = (round % 5) as usize;
        for byte in digest.iter_mut().take(zero_bytes) {
            *byte = 0;
        }
        let expected = nostr_sdk::nips::nip13::get_leading_zero_bits(digest);
        assert_eq!(count_leading_zero_bits(&digest), u32::from(expected));
        for difficulty in [0u8, 1, 7, 8, 9, 15, 16, 17, 31, 32, 33, 40] {
            assert_eq!(check_pow_difficulty(&digest, difficulty), expected >= difficulty);
        }
    }
}
