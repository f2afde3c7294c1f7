use cortex::index::HashedToken;
use cortex::lattice::HLLSet;
use cortex::lut::TfLut;
use std::collections::HashMap;

fn position(token: &[u8]) -> (u32, u32) {
    let mut h: u64 = 0xcbf2_9ce4_8422_2325;
    for &b in token {
        h = (h ^ b as u64).wrapping_mul(0x0000_0100_0000_01b3);
    }
    h ^= h >> 29;
    ((h % 1024) as u32, ((h >> 10) % 32) as u32)
}

fn hasher(token: &Vec<u8>) -> (u64, (u32, u32)) {
    (0, position(token))
}

fn sketch(tokens: &[&[u8]]) -> HLLSet {
    let ps: Vec<(u32, u32)> = tokens.iter().map(|t| position(t)).collect();
    HLLSet::from_positions(&ps)
}

/// Brute-force a pair of distinct tokens that hash to the same bit.
fn collision_pair() -> (Vec<u8>, Vec<u8>) {
    let mut seen: HashMap<(u32, u32), Vec<u8>> = HashMap::new();
    for i in 0..200_000u32 {
        let token = format!("tok{i}").into_bytes();
        let pos = position(&token);
        if let Some(first) = seen.get(&pos) {
            return (first.clone(), token);
        }
        seen.insert(pos, token);
    }
    panic!("no collision found");
}

#[test]
fn single_candidate_bits_resolve_without_tf() {
    let mut lut = TfLut::new();
    lut.observe(&[b"alpha".to_vec(), b"beta".to_vec(), b"gamma".to_vec()], &hasher);
    let doc = sketch(&[b"alpha".as_slice(), b"beta".as_slice()]);
    let restored = lut.materialize(&doc);
    assert!(restored.contains(&b"alpha".to_vec()));
    assert!(restored.contains(&b"beta".to_vec()));
    assert!(!restored.contains(&b"gamma".to_vec()));
}

#[test]
fn tf_only_breaks_collision_ties() {
    let (a, b) = collision_pair();
    let mut lut = TfLut::new();
    // a is observed three times, b once; both collide on one bit.
    lut.observe(&[a.clone(), a.clone(), a.clone(), b.clone()], &hasher);
    let doc = sketch(&[a.as_slice()]);
    let restored = lut.materialize(&doc);
    // The bit resolves to exactly one token: the higher-TF one.
    assert_eq!(restored, vec![a.clone()]);
    assert!(!restored.contains(&b));
    assert_eq!(lut.tf(&a), 3);
    assert_eq!(lut.tf(&b), 1);
}

#[test]
fn register_is_idempotent() {
    let mut lut = TfLut::new();
    lut.register(b"x".to_vec(), &hasher);
    lut.register(b"x".to_vec(), &hasher);
    assert_eq!(lut.len(), 1);
    assert!(lut.known(b"x"));
}

#[test]
fn equal_frequencies_fall_back_to_byte_order() {
    let (a, b) = collision_pair();
    let first = if a < b { a.clone() } else { b.clone() };
    let mut lut = TfLut::default();
    lut.observe(&[b.clone(), a.clone()], &hasher);
    assert_eq!(lut.materialize(&sketch(&[a.as_slice()])), vec![first]);
}

#[test]
fn output_is_in_bit_order() {
    let mut lut = TfLut::new();
    lut.observe_hashed(&[
        HashedToken { bytes: b"high".to_vec(), hash: 1, position: (3, 0) },
        HashedToken { bytes: b"low".to_vec(), hash: 2, position: (0, 5) },
        HashedToken { bytes: b"high".to_vec(), hash: 1, position: (3, 0) },
    ]);
    let doc = HLLSet::from_bits(&[96, 5, 200]);
    assert_eq!(lut.materialize(&doc), vec![b"low".to_vec(), b"high".to_vec()]);
    assert_eq!(lut.coverage(&doc).resolved, 2);
    assert_eq!(lut.coverage(&doc).total, 3);
    assert_eq!(lut.tf(b"high"), 2);
}

#[test]
fn unknown_ids_have_no_frequency() {
    let mut lut = TfLut::new();
    assert!(lut.is_empty());
    assert_eq!(lut.tf(b"x"), 0);
    assert!(!lut.known(b"x"));
    lut.register(b"x".to_vec(), &hasher);
    assert_eq!(lut.tf(b"x"), 0);
    assert!(lut.known(b"x") && !lut.is_empty());
    let copy = lut.clone();
    lut.observe(&[b"x".to_vec()], &hasher);
    assert_eq!(copy.tf(b"x"), 0);
    assert_eq!(lut.tf(b"x"), 1);
}

#[test]
fn hashed_ids_can_be_registered_directly() {
    let mut lut = TfLut::new();
    lut.register_hashed(HashedToken { bytes: b"x".to_vec(), hash: 3, position: (0, 7) });
    assert_eq!(lut.materialize(&HLLSet::from_bits(&[7])), vec![b"x".to_vec()]);
}
