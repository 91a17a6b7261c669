use std::collections::HashSet;

use nostr_pow::difficulty::{check_pow_difficulty, count_leading_zero_bits};
use nostr_pow::error::PowError;
use nostr_pow::event::{find_nonce_tag, FinalizedEvent, UnsignedEventSkeleton};
use nostr_pow::search::{conclude, find_nonce, mine};

fn strings(fields: &[&str]) -> Vec<String> {
    fields.iter().map(|field| field.to_string()).collect()
}

fn small_skeleton() -> UnsignedEventSkeleton {
    UnsignedEventSkeleton {
        author_public_key: [0u8; 32],
        created_at: 0,
        kind: 1,
        tags: Vec::new(),
        content: "test".to_string(),
    }
}

fn tagged_skeleton() -> UnsignedEventSkeleton {
    UnsignedEventSkeleton {
        author_public_key: [0x42u8; 32],
        created_at: 1_700_000_000,
        kind: 1,
        tags: vec![
            strings(&["t", "pow"]),
            strings(&["nonce", "0", "0"]),
            strings(&["p", "someone"]),
        ],
        content: "Hello, World!".to_string(),
    }
}

fn sha256(data: &[u8]) -> [u8; 32] {
    let hash = <nostr_sdk::hashes::sha256::Hash as nostr_sdk::hashes::Hash>::hash(data);
    <nostr_sdk::hashes::sha256::Hash as nostr_sdk::hashes::Hash>::to_byte_array(hash)
}

fn nonce_of(event: &FinalizedEvent) -> u128 {
    let position = find_nonce_tag(&event.tags);
    assert!(position < event.tags.len());
    let tag = &event.tags[position];
    assert_eq!(tag.len(), 3);
    assert_eq!(tag[0], "nonce");
    tag[1].parse::<u128>().unwrap()
}

fn assert_valid(skeleton: &UnsignedEventSkeleton, event: &FinalizedEvent, difficulty: u8) {
    assert!(check_pow_difficulty(&event.identifier, difficulty));
    assert!(count_leading_zero_bits(&event.identifier) >= u32::from(difficulty));
    assert_eq!(sha256(&event.canonical_preimage()), event.identifier);
    assert!(event.has_valid_identifier());
    assert_eq!(event.author_public_key, skeleton.author_public_key);
    assert_eq!(event.created_at, skeleton.created_at);
    assert_eq!(event.kind, skeleton.kind);
    assert_eq!(event.content, skeleton.content);
    let nonce = nonce_of(event);
    assert!(nonce >= 1);
    let position = find_nonce_tag(&event.tags);
    assert_eq!(position, find_nonce_tag(&skeleton.tags));
    assert_eq!(event.tags[position][2], difficulty.to_string());
    let again = skeleton.finalize(nonce, difficulty).unwrap();
    assert_eq!(&again, event);
}

#[test]
fn mined_events_meet_the_difficulty_and_carry_their_own_digest() {
    for skeleton in [small_skeleton(), tagged_skeleton()] {
        for difficulty in 0..=12u8 {
            let event = mine(&skeleton, u32::from(difficulty)).unwrap();
            assert_valid(&skeleton, &event, difficulty);
        }
    }
}

#[test]
fn a_harder_target_is_still_found() {
    let skeleton = tagged_skeleton();
    let event = mine(&skeleton, 15).unwrap();
    assert_valid(&skeleton, &event, 15);
}

#[test]
fn zero_difficulty_succeeds_at_once() {
    let skeleton = small_skeleton();
    let event = mine(&skeleton, 0).unwrap();
    assert_valid(&skeleton, &event, 0);
    let first = find_nonce(&skeleton, 0, 2).unwrap();
    assert_eq!(nonce_of(&first), 1);
    assert_eq!(first.tags, vec![strings(&["nonce", "1", "0"])]);
}

#[test]
fn end_to_end_example() {
    let skeleton = small_skeleton();
    let event = mine(&skeleton, 8).unwrap();
    assert_eq!(event.identifier[0], 0x00);
    let nonce = nonce_of(&event);
    let mut expected = b"[0,\"0000000000000000000000000000000000000000000000000000000000000000\",0,1,[[\"nonce\",\"".to_vec();
    expected.extend_from_slice(nonce.to_string().as_bytes());
    expected.extend_from_slice(b"\",\"8\"]],\"test\"]");
    assert_eq!(event.canonical_preimage(), expected);
    assert_eq!(sha256(&expected), event.identifier);
    assert_valid(&skeleton, &event, 8);
}

#[test]
fn the_smallest_solution_is_found_in_a_range_that_holds_only_it() {
    let skeleton = small_skeleton();
    let event = find_nonce(&skeleton, 8, 325).unwrap();
    assert_eq!(nonce_of(&event), 324);
    assert_eq!(event.identifier[0], 0x00);
    assert_eq!(find_nonce(&skeleton, 8, 324), Err(PowError::PowNotFound));
}

#[test]
fn an_exhausted_range_is_reported() {
    let skeleton = small_skeleton();
    assert_eq!(find_nonce(&skeleton, 40, 1000), Err(PowError::PowNotFound));
    assert_eq!(find_nonce(&skeleton, 0, 1), Err(PowError::PowNotFound));
    assert_eq!(find_nonce(&skeleton, 0, 0), Err(PowError::PowNotFound));
    assert_eq!(find_nonce(&skeleton, 255, 64), Err(PowError::PowNotFound));
}

#[test]
fn a_difficulty_above_the_range_is_rejected() {
    let skeleton = small_skeleton();
    assert_eq!(mine(&skeleton, 256), Err(PowError::InvalidDifficulty));
    assert_eq!(mine(&skeleton, 1000), Err(PowError::InvalidDifficulty));
    assert_eq!(mine(&skeleton, u32::MAX), Err(PowError::InvalidDifficulty));
}

#[test]
fn conclude_checks_what_was_reported() {
    let skeleton = small_skeleton();
    assert_eq!(conclude(&skeleton, 8, None), Err(PowError::PowNotFound));
    assert_eq!(conclude(&skeleton, 8, Some(1)), Err(PowError::WorkerFault));
    assert_eq!(conclude(&skeleton, 8, Some(2)), Err(PowError::WorkerFault));
    let event = conclude(&skeleton, 8, Some(324)).unwrap();
    assert_eq!(nonce_of(&event), 324);
    assert_valid(&skeleton, &event, 8);
    let easy = conclude(&skeleton, 0, Some(1)).unwrap();
    assert_eq!(nonce_of(&easy), 1);
    assert_eq!(easy.tags, vec![strings(&["nonce", "1", "0"])]);
}

#[test]
fn changing_one_byte_of_the_skeleton_changes_the_identifier() {
    let base = tagged_skeleton();
    let nonce = 4242u128;
    let difficulty = 8u8;
    let mut seen: HashSet<[u8; 32]> = HashSet::new();
    assert!(seen.insert(base.finalize(nonce, difficulty).unwrap().identifier));
    let mut samples = 0;
    for i in 0..32usize {
        let mut changed = base.clone();
        changed.author_public_key[i] ^= 0x01;
        assert!(seen.insert(changed.finalize(nonce, difficulty).unwrap().identifier));
        samples += 1;
    }
    for bit in 0..40u32 {
        let mut changed = base.clone();
        changed.created_at ^= 1u64 << bit;
        assert!(seen.insert(changed.finalize(nonce, difficulty).unwrap().identifier));
        samples += 1;
    }
    for bit in 0..16u32 {
        let mut changed = base.clone();
        changed.kind ^= 1u16 << bit;
        assert!(seen.insert(changed.finalize(nonce, difficulty).unwrap().identifier));
        samples += 1;
    }
    let content = base.content.clone().into_bytes();
    for i in 0..content.len() {
        for flip in [0x01u8, 0x02] {
            let mut bytes = content.clone();
            bytes[i] ^= flip;
            let mut changed = base.clone();
            changed.content = String::from_utf8(bytes).unwrap();
            assert!(seen.insert(changed.finalize(nonce, difficulty).unwrap().identifier));
            samples += 1;
        }
    }
    assert!(samples >= 100);
    assert_eq!(seen.len(), samples + 1);
}

#[test]
fn eight_workers_and_one_worker_both_find_a_valid_nonce() {
    let skeleton = tagged_skeleton();
    let difficulty = 10u8;
    let many = rayon::ThreadPoolBuilder::new().num_threads(8).build().unwrap();
    let one = rayon::ThreadPoolBuilder::new().num_threads(1).build().unwrap();
    let from_many = many.install(|| mine(&skeleton, u32::from(difficulty))).unwrap();
    let from_one = one.install(|| mine(&skeleton, u32::from(difficulty))).unwrap();
    assert_valid(&skeleton, &from_many, difficulty);
    assert_valid(&skeleton, &from_one, difficulty);
}

#[test]
fn one_call_returns_one_winner() {
    let skeleton = tagged_skeleton();
    let pool = rayon::ThreadPoolBuilder::new().num_threads(8).build().unwrap();
    for _ in 0..25 {
        let event = pool.install(|| mine(&skeleton, 4)).unwrap();
        assert_valid(&skeleton, &event, 4);
        let nonce_tags = event
            .tags
            .iter()
            .filter(|tag| tag.first().map(|name| name == "nonce").unwrap_or(false))
            .count();
        assert_eq!(nonce_tags, 1);
        assert_eq!(event.tags.len(), skeleton.tags.len());
    }
}

#[test]
fn a_nonce_tag_is_appended_to_a_skeleton_without_one() {
    let skeleton = UnsignedEventSkeleton {
        author_public_key: [7u8; 32],
        created_at: 99,
        kind: 7,
        tags: vec![strings(&["e", "x"])],
        content: "+".to_string(),
    };
    let event = mine(&skeleton, 6).unwrap();
    assert_eq!(event.tags.len(), 2);
    assert_eq!(event.tags[0], strings(&["e", "x"]));
    assert_eq!(event.tags[1][0], "nonce");
    assert_eq!(event.tags[1][2], "6");
    assert_valid(&skeleton, &event, 6);
}
