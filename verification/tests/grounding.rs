use cortex::context::ContextMatrix;
use cortex::grounding::{recommend, recommend_with, GroundingCounts};

fn matrix() -> ContextMatrix {
    ContextMatrix::from_sequence(&[100, 101, 102, 103, 104])
}

fn tau(r: &GroundingCounts) -> f64 {
    if r.total > 0 {
        r.in_context as f64 / r.total as f64
    } else {
        1.0
    }
}

fn rho(r: &GroundingCounts) -> f64 {
    if r.total > 0 {
        r.flagged.len() as f64 / r.total as f64
    } else {
        0.0
    }
}

fn grounded(r: &GroundingCounts) -> bool {
    tau(r) >= 0.8 && rho(r) <= 0.2
}

#[test]
fn fully_grounded_response_scores_clean() {
    let m = matrix();
    let r = recommend(&m, &[100, 101, 102]);
    assert!(grounded(&r));
    assert!((tau(&r) - 1.0).abs() < 1e-9);
    assert_eq!(rho(&r), 0.0);
    assert!(r.flagged.is_empty());
    assert_eq!(r.r_link, 2, "both response bigrams were measured");
}

#[test]
fn novel_id_is_flagged_and_fails_grounding() {
    let m = matrix();
    let r = recommend(&m, &[100, 999]);
    assert!(!grounded(&r));
    assert!((tau(&r) - 0.5).abs() < 1e-9);
    assert!(r.flagged.contains(&999));
    assert_eq!(r.r_link, 0, "unmeasured transition is not a retained link");
}

#[test]
fn empty_output_is_vacuously_grounded() {
    let m = matrix();
    let r = recommend(&m, &[]);
    assert_eq!(tau(&r), 1.0);
    assert_eq!(rho(&r), 0.0);
    assert!(grounded(&r));
}

#[test]
fn repeated_ids_count_each_time() {
    let m = matrix();
    let r = recommend(&m, &[999, 100, 999, 101]);
    assert_eq!(r.total, 4);
    assert_eq!(r.in_context, 2);
    assert_eq!(r.flagged, vec![999, 999]);
    assert_eq!(r.r_link, 0);
}

#[test]
fn membership_may_differ_from_the_matrix() {
    let m = matrix();
    let r = recommend_with(&|t: u32| t % 2 == 0, &m, &[101, 102, 103]);
    assert_eq!(r.in_context, 1);
    assert_eq!(r.flagged, vec![101, 103]);
    assert_eq!(r.r_link, 2);
}
