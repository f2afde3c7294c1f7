use cortex::index::{HashedToken, LutIndex};
use cortex::kstorage::{
    CatalogLutStorage, Coverage, KeyRef, TokenLutStorage, DEFAULT_CATALOG_SEEDS,
};
use cortex::lattice::{cell, register_and_bit, HLLSet, BITS_PER_REG};

/// A fixed 64-bit hash, with a seed.
fn hash(token: &[u8], seed: u64) -> u64 {
    let mut h: u64 = 0xcbf2_9ce4_8422_2325 ^ seed.wrapping_mul(0x9e37_79b9_7f4a_7c15);
    for &b in token {
        h = (h ^ b as u64).wrapping_mul(0x0000_0100_0000_01b3);
    }
    h ^ (h >> 29)
}

fn position(token: &[u8], seed: u64) -> (u32, u32) {
    locate(hash(token, seed))
}

fn hasher(token: &Vec<u8>) -> (u64, (u32, u32)) {
    (hash(token, 0), position(token, 0))
}

fn place(value: &Vec<u8>, seed: u64) -> (u32, u32) {
    position(value, seed)
}

/// The position that a hash decides.
fn locate(h: u64) -> (u32, u32) {
    ((h % 1024) as u32, ((h >> 10).trailing_zeros()).min(31))
}

fn tokens(list: &[&str]) -> Vec<Vec<u8>> {
    list.iter().map(|t| t.as_bytes().to_vec()).collect()
}

fn sketch(list: &[&str]) -> HLLSet {
    let ps: Vec<(u32, u32)> = list.iter().map(|t| position(t.as_bytes(), 0)).collect();
    HLLSet::from_positions(&ps)
}

fn confidence(c: Coverage) -> f64 {
    if c.total == 0 {
        1.0
    } else {
        c.resolved as f64 / c.total as f64
    }
}

#[test]
fn key_of_matches_hash_decomposition() {
    let storage = TokenLutStorage::from_tokens(&tokens(&["alpha", "beta"]), &hasher);
    let (reg, zeros) = position(b"alpha", 0);
    assert_eq!(
        storage.key_of(b"alpha", &hasher),
        KeyRef::Cell(reg * BITS_PER_REG + zeros)
    );
}

#[test]
fn key_ref_cells_and_quorum() {
    assert_eq!(KeyRef::Cell(7).cells(), vec![7]);
    assert_eq!(KeyRef::Cell(7).quorum(), None);
    let cells = KeyRef::Cells(vec![1, 2, 3], 2);
    assert_eq!(cells.cells(), vec![1, 2, 3]);
    assert_eq!(cells.quorum(), Some(2));
}

#[test]
fn confidence_is_one_on_covered_set() {
    let storage = TokenLutStorage::from_tokens(&tokens(&["alpha", "beta", "gamma"]), &hasher);
    let h = sketch(&["alpha", "beta", "gamma"]);
    assert_eq!(confidence(storage.coverage(&h)), 1.0);
    assert!(storage.coverage(&h).is_full());
}

#[test]
fn confidence_drops_on_unknown_bits() {
    let storage = TokenLutStorage::from_tokens(&tokens(&["alpha"]), &hasher);
    let h = sketch(&["alpha", "definitely-not-registered"]);
    assert!(confidence(storage.coverage(&h)) < 1.0);
    assert_eq!(storage.coverage(&h), Coverage { resolved: 1, total: 2 });
}

#[test]
fn catalog_key_is_multi_seed_with_quorum() {
    let storage = CatalogLutStorage::from_values(&[b"alice@example.com".to_vec()]);
    match storage.key_of(b"alice@example.com", &place) {
        KeyRef::Cells(cells, quorum) => {
            assert_eq!(cells.len(), 3);
            assert_eq!(quorum, 2);
        }
        other => panic!("expected Cells, got {other:?}"),
    }
}

#[test]
fn empty_sketch_is_fully_covered() {
    let storage = TokenLutStorage::new();
    assert_eq!(confidence(storage.coverage(&HLLSet::new())), 1.0);
    assert!(storage.candidates(&HLLSet::new()).is_empty());
}

#[test]
fn candidates_are_the_registered_tokens_of_active_bits() {
    let mut lut = LutIndex::new();
    lut.insert_token(HashedToken { bytes: b"b".to_vec(), hash: 1, position: (0, 3) });
    lut.insert_token(HashedToken { bytes: b"a".to_vec(), hash: 2, position: (0, 3) });
    lut.insert_token(HashedToken { bytes: b"c".to_vec(), hash: 3, position: (5, 1) });
    let storage = TokenLutStorage::from_lut(lut);
    let h = HLLSet::from_bits(&[3]);
    assert_eq!(storage.candidates(&h), vec![b"a".to_vec(), b"b".to_vec()]);
    assert_eq!(storage.lut().fiber(161), vec![b"c".to_vec()]);
    assert!(storage.lut().fiber(7).is_empty());
    assert_eq!(storage.into_lut().len(), 3);
}

#[test]
fn registration_is_exact_and_idempotent() {
    let mut storage = TokenLutStorage::default();
    storage.insert(b"x".to_vec(), &hasher);
    storage.register(b"x".to_vec(), &hasher);
    storage.insert_hashed(HashedToken { bytes: b"x".to_vec(), hash: 9, position: (1, 1) });
    assert_eq!(storage.lut().len(), 1);
    assert!(storage.registered(b"x"));
    assert_eq!(storage.key_at((1, 1)), KeyRef::Cell(33));
    // What is registered keeps its place.
    assert_eq!(storage.resolve_at(9, (1, 1)), None);
}

#[test]
fn colliding_tokens_are_told_apart() {
    let storage = TokenLutStorage::from_hashed(&[HashedToken {
        bytes: b"x".to_vec(),
        hash: 9,
        position: (1, 1),
    }]);
    let same_bit = |_: &Vec<u8>| (7u64, (1u32, 1u32));
    assert_eq!(storage.key_of(b"y", &same_bit), KeyRef::Cell(33));
    assert!(!storage.registered(b"y"), "a token on an occupied bit is not registered");
}

#[test]
fn content_addresses_resolve_to_tokens() {
    let storage = TokenLutStorage::from_tokens(&tokens(&["alpha", "beta"]), &hasher);
    assert_eq!(
        storage.resolve(hash(b"beta", 0), &locate),
        Some(b"beta".to_vec())
    );
    assert_eq!(storage.resolve(hash(b"gamma", 0), &locate), None);
}

#[test]
fn resolving_prefers_the_first_in_byte_order() {
    let storage = TokenLutStorage::from_hashed(&[
        HashedToken { bytes: b"zz".to_vec(), hash: 5, position: (2, 2) },
        HashedToken { bytes: b"z".to_vec(), hash: 5, position: (2, 2) },
        HashedToken { bytes: b"a".to_vec(), hash: 6, position: (2, 2) },
    ]);
    assert_eq!(storage.resolve_at(5, (2, 2)), Some(b"z".to_vec()));
    assert_eq!(storage.resolve_at(5, (2, 3)), None);
}

#[test]
fn catalog_registers_values_once_in_order() {
    let mut storage = CatalogLutStorage::default();
    assert_eq!(storage.seeds(), &DEFAULT_CATALOG_SEEDS);
    storage.insert(b"b".to_vec());
    storage.insert(b"a".to_vec());
    storage.register(b"b".to_vec());
    assert_eq!(storage.values(), &[b"b".to_vec(), b"a".to_vec()]);
    assert_eq!(storage.quorum(), 2);
    assert_eq!(CatalogLutStorage::with_seeds(&[4, 5]).quorum(), 1);
}

#[test]
fn catalog_candidates_need_a_quorum() {
    let storage = CatalogLutStorage::from_values(&[b"v".to_vec(), b"w".to_vec()]);
    let table = vec![vec![(0, 1), (0, 2), (0, 3)], vec![(0, 3), (1, 0), (1, 1)]];
    // v has two active cells of three, w has one.
    let h = HLLSet::from_bits(&[1, 3]);
    assert_eq!(storage.supported_values(&h, &table), vec![b"v".to_vec()]);
    assert_eq!(
        storage.standing_values(0, 3, &table),
        vec![b"v".to_vec(), b"w".to_vec()]
    );
    assert_eq!(storage.standing_values(1, 1, &table), vec![b"w".to_vec()]);
    assert!(storage.standing_values(9, 9, &table).is_empty());
    let wide = HLLSet::from_bits(&[1, 33, 900]);
    assert_eq!(
        storage.covered_bits(&wide, &table),
        Coverage { resolved: 2, total: 3 }
    );
}

#[test]
fn catalog_resolves_the_first_matching_hash() {
    let storage =
        CatalogLutStorage::from_values(&[b"u".to_vec(), b"v".to_vec(), b"w".to_vec()]);
    assert_eq!(storage.matching_value(7, &[1, 7, 7]), Some(b"v".to_vec()));
    assert_eq!(storage.matching_value(8, &[1, 7, 7]), None);
}

#[test]
fn addresses_and_positions_are_inverse() {
    assert_eq!(cell((1023, 31)), 32767);
    assert_eq!(register_and_bit(32767), (1023, 31));
    assert_eq!(register_and_bit(cell((759, 0))), (759, 0));
}

#[test]
fn catalog_queries_hash_each_value_under_each_seed() {
    let storage = CatalogLutStorage::from_values(&[b"alice".to_vec(), b"bob".to_vec()]);
    let ps: Vec<(u32, u32)> = storage.seeds().iter().map(|&s| position(b"alice", s)).collect();
    let h = HLLSet::from_positions(&ps);
    assert_eq!(storage.candidates(&h, &place), vec![b"alice".to_vec()]);
    assert!(storage.coverage(&h, &place).is_full());
    assert_eq!(
        storage.candidates_at(ps[2].0, ps[2].1, &place),
        vec![b"alice".to_vec()]
    );
    let seed0 = |v: &Vec<u8>| hash(v, 0);
    assert_eq!(storage.resolve(hash(b"bob", 0), &seed0), Some(b"bob".to_vec()));
    assert_eq!(storage.resolve(hash(b"bob", 1), &seed0), None);
    match storage.key_at(&ps) {
        KeyRef::Cells(cells, _) => assert_eq!(cells, storage.key_of(b"alice", &place).cells()),
        other => panic!("expected Cells, got {other:?}"),
    }
}

#[test]
fn tokens_are_listed_in_order_of_first_appearance() {
    let storage = TokenLutStorage::from_tokens(&tokens(&["gamma", "alpha", "gamma", "beta", "alpha"]), &hasher);
    let lut = storage.into_lut();
    assert_eq!(lut.len(), 3);
    assert_eq!(lut.token(0), b"gamma");
    assert_eq!(lut.token(1), b"alpha");
    assert_eq!(lut.token(2), b"beta");
}
