use cortex::context::ContextMatrix;
use cortex::TokenId;

fn m1() -> ContextMatrix {
    let mut m = ContextMatrix::new();
    m.observe(1, 2, 1);
    m.observe(2, 3, 1);
    m
}

fn m2() -> ContextMatrix {
    let mut m = ContextMatrix::new();
    m.observe(2, 3, 1);
    m.observe(3, 4, 1);
    m
}

/// Nodes and weighted edges in a form that does not depend on node order.
fn canonical(m: &ContextMatrix) -> (Vec<TokenId>, Vec<(TokenId, TokenId, i64)>) {
    let mut nodes = m.nodes().to_vec();
    nodes.sort_unstable();
    let mut edges: Vec<(TokenId, TokenId, i64)> = m
        .edges()
        .into_iter()
        .map(|(a, b)| (a, b, m.cell(a, b).unwrap()))
        .collect();
    edges.sort_by(|x, y| (x.0, x.1).cmp(&(y.0, y.1)));
    (nodes, edges)
}

#[test]
fn observe_appends_nodes_and_sets_cells() {
    let m = m1();
    assert_eq!(m.nodes(), &[1, 2, 3]);
    assert!(m.grounded(2));
    assert!(!m.grounded(99));
    assert_eq!(m.cell(1, 2), Some(1));
    assert_eq!(m.cell(1, 3), Some(0), "both nodes, transition unobserved");
    assert_eq!(m.cell(99, 1), None);
}

#[test]
fn observe_is_monotone() {
    let mut m = ContextMatrix::new();
    m.observe(1, 2, 5);
    m.observe(1, 2, 20);
    assert_eq!(m.cell(1, 2), Some(20));
    m.observe(1, 2, 10);
    assert_eq!(m.cell(1, 2), Some(20), "never regresses");
}

#[test]
fn merge_is_a_crdt() {
    let a = m1();
    let b = m2();
    let c = ContextMatrix::from_sequence(&[5, 6, 7]);

    assert_eq!(canonical(&a.merge(&a)), canonical(&a), "idempotent");
    assert_eq!(
        canonical(&a.merge(&b)),
        canonical(&b.merge(&a)),
        "commutative"
    );
    let left = a.merge(&b).merge(&c);
    let right = a.merge(&b.merge(&c));
    assert_eq!(canonical(&left), canonical(&right), "associative");
}

#[test]
fn merge_never_regresses_a_cell() {
    let (a, b) = (m1(), m2());
    let merged = a.merge(&b);
    for x in [1, 2, 3] {
        for y in [1, 2, 3] {
            let v = merged.cell(x, y).unwrap_or(0);
            assert!(v >= a.cell(x, y).unwrap_or(0));
            assert!(v >= b.cell(x, y).unwrap_or(0));
        }
    }
}

#[test]
fn from_sequence_records_bigram_tf() {
    let m = ContextMatrix::from_sequence(&[1, 2, 1, 2, 3]);
    assert_eq!(m.cell(1, 2), Some(2));
    assert_eq!(m.cell(2, 1), Some(1));
    assert_eq!(m.cell(2, 3), Some(1));
}

#[test]
fn path_finds_measured_transitions() {
    let m = ContextMatrix::from_sequence(&[1, 2, 3, 4]);
    assert_eq!(m.path(1, 4), vec![1, 2, 3, 4]);
    assert_eq!(m.path(2, 4), vec![2, 3, 4]);
    assert!(m.path(4, 1).is_empty(), "no reverse edge");
    assert!(m.path(99, 1).is_empty(), "ungrounded start");
}

#[test]
fn prior_is_sorted_and_biased_by_outgoing_evidence() {
    let mut m = ContextMatrix::new();
    m.observe(9, 1, 2);
    m.observe(9, 2, 3);
    m.observe(1, 2, 4);
    let (nodes, bias) = m.prior();
    assert_eq!(nodes, vec![1, 2, 9]);
    // node 9: 2+3 = 5; node 1: 4; node 2: 0
    assert_eq!(bias, vec![4, 0, 5]);
}

#[test]
fn empty_matrix_has_nothing() {
    let m = ContextMatrix::default();
    assert!(m.is_empty());
    assert_eq!(m.len(), 0);
    assert!(m.edges().is_empty());
    assert_eq!(m.prior(), (vec![], vec![]));
    assert!(m.path(1, 1).is_empty());
}

#[test]
fn path_ends_where_it_starts_or_nowhere() {
    let m = ContextMatrix::from_sequence(&[1, 2, 3]);
    assert_eq!(m.path(2, 2), vec![2]);
    assert!(m.path(1, 99).is_empty(), "ungrounded end");
}

#[test]
fn path_is_the_shortest_one() {
    let mut m = ContextMatrix::from_sequence(&[1, 2, 3, 4, 5]);
    m.observe(2, 5, 1);
    assert_eq!(m.path(1, 5), vec![1, 2, 5]);
}

#[test]
fn edges_are_row_major_and_positive_only() {
    let mut m = ContextMatrix::new();
    m.observe(3, 1, 2);
    m.observe(1, 3, 0);
    m.observe(1, 2, 7);
    assert_eq!(m.edges(), vec![(3, 1), (1, 2)]);
    assert_eq!(m.cell(1, 3), Some(0));
}

#[test]
fn negative_evidence_never_lowers_a_cell() {
    let mut m = ContextMatrix::new();
    m.observe(1, 2, -5);
    assert_eq!(m.cell(1, 2), Some(0));
    assert!(m.grounded(1) && m.grounded(2));
}

#[test]
fn single_token_sequence_has_no_transition() {
    let m = ContextMatrix::from_sequence(&[7]);
    assert!(m.edges().is_empty());
    let mut n = ContextMatrix::new();
    n.learn(&[7]);
    assert!(n.is_empty());
}

#[test]
fn learning_measures_each_transition_once() {
    let mut m = ContextMatrix::new();
    m.learn(&[1, 2, 1, 2, 3]);
    assert_eq!(m.nodes(), &[1, 2, 3]);
    assert_eq!(m.cell(1, 2), Some(1));
    assert_eq!(m.cell(2, 1), Some(1));
    assert_eq!(m.cell(2, 3), Some(1));
    assert_eq!(m.cell(1, 3), Some(0));
}

#[test]
fn clones_are_independent() {
    let m = m1();
    let mut n = m.clone();
    n.observe(8, 9, 3);
    assert!(!m.grounded(8));
    assert_eq!(n.cell(8, 9), Some(3));
}
