use cortex::app::CortexApp;
use cortex::context::{can_address, ContextMatrix};
use cortex::grounding::recommend;
use cortex::index::{HashedToken, LutIndex};
use cortex::kstorage::CatalogLutStorage;
use cortex::lattice::{HLLSet, TOTAL_BITS};
use cortex::route::first_route;
use cortex::text::{parse_u32, trim};
use cortex::tree::{ContextTree, Leaf};

fn lut(entries: &[(&str, (u32, u32))]) -> LutIndex {
    let mut l = LutIndex::default();
    for (t, p) in entries {
        l.insert_token(HashedToken { bytes: t.as_bytes().to_vec(), hash: 0, position: *p });
    }
    l
}

fn leaf(h: &str, v: &str) -> Leaf {
    Leaf { h: h.to_string(), views: vec![("l".to_string(), v.to_string())] }
}

#[test]
fn observations_commute_on_values() {
    let mut a = ContextMatrix::new();
    a.observe(1, 2, 3);
    a.observe(2, 1, 5);
    let mut b = ContextMatrix::new();
    b.observe(2, 1, 5);
    b.observe(1, 2, 3);
    for x in [1, 2] {
        for y in [1, 2] {
            assert_eq!(a.cell(x, y), b.cell(x, y));
        }
    }
    let c = a.clone();
    a.observe(1, 2, 3);
    assert_eq!(a, c, "observing again changes nothing");
}

#[test]
fn merge_is_the_least_upper_bound() {
    let mut a = ContextMatrix::new();
    a.observe(1, 2, 3);
    let mut b = ContextMatrix::new();
    b.observe(1, 2, 7);
    b.observe(2, 3, 1);
    let m = a.merge(&b);
    assert_eq!(m.cell(1, 2), Some(7));
    assert_eq!(m.cell(2, 3), Some(1));
    assert_eq!(m.cell(1, 3), Some(0));
    assert_eq!(m.nodes(), &[1, 2, 3]);
}

#[test]
fn measured_paths_survive_merging() {
    let a = ContextMatrix::from_sequence(&[1, 2, 3]);
    let b = ContextMatrix::from_sequence(&[3, 4]);
    let m = a.merge(&b);
    assert_eq!(m.path(1, 3), vec![1, 2, 3]);
    assert_eq!(m.path(1, 4), vec![1, 2, 3, 4]);
}

#[test]
fn first_route_prefers_earlier_rows() {
    // 0 -> 1 -> 3 and 0 -> 2 -> 3.
    let mut cells = vec![0i64; 16];
    for (i, j) in [(0, 1), (0, 2), (1, 3), (2, 3)] {
        cells[i * 4 + j] = 1;
    }
    assert_eq!(first_route(&cells, 4, 0, 3), Some(vec![0, 1, 3]));
    assert_eq!(first_route(&cells, 4, 3, 0), None);
}

#[test]
fn retained_links_grow_with_the_matrix() {
    let a = ContextMatrix::from_sequence(&[1, 2]);
    let b = a.merge(&ContextMatrix::from_sequence(&[2, 3]));
    assert_eq!(recommend(&a, &[1, 2, 3]).r_link, 1);
    assert_eq!(recommend(&b, &[1, 2, 3]).r_link, 2);
}

#[test]
fn image_through_joined_luts_is_the_union() {
    let l1 = lut(&[("a", (0, 1)), ("b", (0, 2))]);
    let l2 = lut(&[("b", (0, 2)), ("c", (0, 1))]);
    let both = lut(&[("a", (0, 1)), ("b", (0, 2)), ("c", (0, 1))]);
    let h = HLLSet::from_bits(&[1]);
    let mut union = l1.materialize(&h);
    union.extend(l2.materialize(&h));
    union.sort();
    union.dedup();
    assert_eq!(both.materialize(&h), union);
    let g = HLLSet::from_bits(&[2]);
    let mut two = both.materialize(&h);
    two.extend(both.materialize(&g));
    two.sort();
    assert_eq!(both.materialize(&h.union(&g)), two);
}

#[test]
fn a_lut_comes_back_from_its_own_sketch() {
    let l = lut(&[("z", (9, 0)), ("a", (0, 1)), ("m", (0, 1))]);
    let h = HLLSet::from_positions(&[(9, 0), (0, 1)]);
    assert_eq!(
        l.materialize(&h),
        vec![b"a".to_vec(), b"m".to_vec(), b"z".to_vec()]
    );
    assert!(l.occupied(288) && !l.occupied(2));
    assert_eq!(l.index_of(b"m"), Some(2));
    assert_eq!(l.index_of(b"q"), None);
}

#[test]
fn support_grows_with_the_sketch() {
    let storage = CatalogLutStorage::from_values(&[b"v".to_vec()]);
    let table = vec![vec![(0, 1), (0, 2), (0, 3)]];
    assert!(storage.supported_values(&HLLSet::from_bits(&[1]), &table).is_empty());
    assert_eq!(storage.supported_values(&HLLSet::from_bits(&[1, 2]), &table).len(), 1);
    assert_eq!(storage.supported_values(&HLLSet::from_bits(&[1, 2, 3]), &table).len(), 1);
}

#[test]
fn tree_merge_unites_leaves() {
    let a = ContextTree::build(&[leaf("a", "1"), leaf("b", "2")]);
    let b = ContextTree::build(&[leaf("c", "3"), leaf("b", "2")]);
    assert_eq!(a.merge(&b), b.merge(&a));
    assert_eq!(a.merge(&a), a);
    assert_eq!(a.merge(&b).leaves().len(), 3);
    let clash = ContextTree::build(&[leaf("b", "other")]);
    assert_eq!(a.merge(&clash), a, "the first leaf of a key is kept");
}

#[test]
fn passes_commute_on_values() {
    let tf = vec![0u64; TOTAL_BITS as usize];
    let x = HLLSet::from_bits(&[1, 5]);
    let y = HLLSet::from_bits(&[5, 9]);
    let mut p = CortexApp::new();
    p.begin_turn(&[1], (&x, &x, &x), &tf, None);
    p.begin_turn(&[2], (&y, &y, &y), &tf, None);
    let mut q = CortexApp::new();
    q.begin_turn(&[2], (&y, &y, &y), &tf, None);
    q.begin_turn(&[1], (&x, &x, &x), &tf, None);
    assert_eq!(p.working_g1(), q.working_g1());
    assert_eq!(p.working_g1().positions(), &[1, 5, 9]);
    assert_eq!(p.tf_base().len(), 32768);
}

#[test]
fn small_matrices_can_be_addressed() {
    assert!(can_address(0) && can_address(65535));
    assert!(!can_address(usize::MAX));
}

#[test]
fn text_helpers_follow_unicode_whitespace() {
    assert_eq!(trim("\u{85}\u{3000} a b \u{2029}"), "a b");
    assert_eq!(trim(" \t"), "");
    let v: Vec<char> = "x042y".chars().collect();
    assert_eq!(parse_u32(&v, 1, 4), Some(42));
    assert_eq!(parse_u32(&v, 0, 4), None);
    assert_eq!(parse_u32(&v, 2, 2), None);
}
