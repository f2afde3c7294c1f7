use cortex::index::{HashedToken, LutIndex};
use cortex::lattice::HLLSet;
use cortex::tid::{parse_token_id, token_in_bytes, tokens_in_bytes};
use cortex::tree::ContextTree;
use cortex::working_set::{
    context_tree_for, full_image, h_key, leaf_for, unified_context_for, view_record, NamedLut,
    WorkItem,
};
use cortex::TokenId;

const HA_IDS: &[TokenId] = &[0, 2, 5, 8];
const HB_IDS: &[TokenId] = &[1, 4];
const HC_IDS: &[TokenId] = &[3, 8, 12];

fn position(token: &[u8]) -> (u32, u32) {
    let mut h: u64 = 0xcbf2_9ce4_8422_2325;
    for &b in token {
        h = (h ^ b as u64).wrapping_mul(0x0000_0100_0000_01b3);
    }
    h ^= h >> 29;
    ((h % 1024) as u32, ((h >> 10) % 32) as u32)
}

fn key(tokens: &Vec<Vec<u8>>) -> String {
    format!("h:{tokens:?}")
}

fn digest(tokens: &Vec<Vec<u8>>) -> String {
    format!("v:{tokens:?}")
}

fn tid(n: TokenId) -> Vec<u8> {
    token_in_bytes(n)
}

fn lut(range: std::ops::Range<u32>) -> LutIndex {
    let mut l = LutIndex::new();
    for n in range {
        let bytes = token_in_bytes(n);
        let position = position(&bytes);
        l.insert_token(HashedToken { bytes, hash: 0, position });
    }
    l
}

fn hll(ids: &[TokenId]) -> HLLSet {
    let ps: Vec<(u32, u32)> = ids.iter().map(|&n| position(&token_in_bytes(n))).collect();
    HLLSet::from_positions(&ps)
}

fn family() -> Vec<NamedLut> {
    vec![
        NamedLut { name: "main".to_string(), lut: lut(0..8) },
        NamedLut { name: "extra".to_string(), lut: lut(3..10) },
    ]
}

#[test]
fn relational_view_carries_provenance_and_full_image_is_a_union() {
    let lut_main = lut(0..8);
    let lut_extra = lut(3..10);
    let ha = hll(HA_IDS);

    let v_main = view_record(&ha, HA_IDS, &lut_main, "main", &key, &digest);
    let v_extra = view_record(&ha, HA_IDS, &lut_extra, "extra", &key, &digest);

    assert_eq!(v_main.tokens, vec![tid(0), tid(2), tid(5)]);
    assert_eq!(v_extra.tokens, vec![tid(5), tid(8)]);
    assert_eq!(v_main.cache_key(), (h_key(HA_IDS, &key), "main".to_string()));

    let image = full_image(&ha, HA_IDS, &family(), &key, &digest);
    assert_eq!(image.tokens, vec![tid(0), tid(2), tid(5), tid(8)]);
    assert_eq!(image.cache_key(), (h_key(HA_IDS, &key), "all".to_string()));
}

#[test]
fn context_tree_is_reversible_and_diff_is_exact() {
    let luts = family();
    let ha = hll(HA_IDS);
    let hb = hll(HB_IDS);
    let hc = hll(HC_IDS);
    let a = WorkItem { sketch: &ha, ids: HA_IDS, luts: &luts };
    let b = WorkItem { sketch: &hb, ids: HB_IDS, luts: &luts };
    let c = WorkItem { sketch: &hc, ids: HC_IDS, luts: &luts };
    let leaf_c = leaf_for(&c, &key, &digest);

    let prev: ContextTree = context_tree_for(&[
        WorkItem { sketch: &ha, ids: HA_IDS, luts: &luts },
        b,
    ], &key, &digest);
    let now = context_tree_for(&[a, c], &key, &digest);

    // Reversibility: insert∘remove = id and remove∘insert = id.
    assert_eq!(
        prev.insert(leaf_c.clone()).remove(&h_key(HC_IDS, &key)),
        prev,
        "insert then remove = id"
    );
    assert_eq!(
        now.remove(&h_key(HC_IDS, &key)).insert(leaf_c),
        now,
        "remove then insert = id"
    );

    let diff = prev.diff(&now);
    assert_eq!(diff.added, vec![h_key(HC_IDS, &key)]);
    assert_eq!(diff.removed, vec![h_key(HB_IDS, &key)]);
    assert_eq!(diff.retained, vec![h_key(HA_IDS, &key)]);
}

#[test]
fn unified_context_combines_tree_matrix_and_views() {
    let luts = family();
    let ha = hll(HA_IDS);
    let hb = hll(HB_IDS);

    let ctx = unified_context_for(
        &[
            WorkItem { sketch: &ha, ids: HA_IDS, luts: &luts },
            WorkItem { sketch: &hb, ids: HB_IDS, luts: &luts },
        ],
        &key,
        &digest,
    );

    // Tree: one leaf per working-set item.
    assert_eq!(ctx.tree().leaves().len(), 2);
    // Matrix: the grow-only follow relation over each item's bigrams.
    assert!(ctx.matrix().grounded(HA_IDS[1]));
    assert!(ctx.matrix().grounded(HB_IDS[1]));
    // Views: the full image of each item, deduplicated on join.
    let tokens = ctx.full_image_tokens();
    for id in HA_IDS.iter().chain(HB_IDS.iter()) {
        assert!(tokens.contains(&tid(*id)), "missing token tid{id}");
    }
    // Joining the context with itself is the lattice idempotence.
    assert_eq!(ctx.join(&ctx).tree(), ctx.tree());
}

#[test]
fn leaves_name_each_lut_and_its_digest() {
    let luts = family();
    let ha = hll(HA_IDS);
    let item = WorkItem { sketch: &ha, ids: HA_IDS, luts: &luts };
    let leaf = leaf_for(&item, &key, &digest);
    assert_eq!(leaf.h, key(&tokens_in_bytes(HA_IDS)));
    assert_eq!(
        leaf.views,
        vec![
            ("main".to_string(), digest(&vec![tid(0), tid(2), tid(5)])),
            ("extra".to_string(), digest(&vec![tid(5), tid(8)])),
        ]
    );
}

#[test]
fn tokens_that_are_no_ids_stay_out_of_views() {
    let mut l = LutIndex::new();
    l.insert_token(HashedToken { bytes: b"hello".to_vec(), hash: 0, position: (0, 0) });
    l.insert_token(HashedToken { bytes: b"tid7".to_vec(), hash: 0, position: (0, 0) });
    let h = HLLSet::from_bits(&[0]);
    let v = view_record(&h, &[7], &l, "l", &key, &digest);
    assert_eq!(v.tokens, vec![b"tid7".to_vec()]);
}

#[test]
fn inscription_is_decimal_and_reads_back() {
    assert_eq!(token_in_bytes(0), b"tid0".to_vec());
    assert_eq!(token_in_bytes(48300), b"tid48300".to_vec());
    assert_eq!(parse_token_id(b"tid4294967295"), Some(4294967295));
    assert_eq!(parse_token_id(b"tid4294967296"), None);
    assert_eq!(parse_token_id(b"tid"), None);
    assert_eq!(parse_token_id(b"tid1x"), None);
    assert_eq!(parse_token_id(b"dit1"), None);
}
