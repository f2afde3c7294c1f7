use cortex::role::{CortexConfig, Leader, Role};

#[test]
fn role_parses_and_defaults_to_expert() {
    assert_eq!(Role::default(), Role::Expert);
    assert_eq!(Role::parse("expert"), Some(Role::Expert));
    assert_eq!(Role::parse("LEADER"), Some(Role::Leader));
    assert_eq!(Role::parse("guru"), None);
    assert_eq!(CortexConfig::default().role, Role::Expert);
}

#[test]
fn config_reads_role_pair() {
    let config = CortexConfig::from_pairs(&[
        ("role".to_string(), "leader".to_string()),
        ("unknown".to_string(), "ignored".to_string()),
    ]);
    assert_eq!(config.role, Role::Leader);
}

#[test]
fn leader_registry_is_idempotent_and_routes_to_all() {
    let mut leader = Leader::new();
    leader.register("expert-a");
    leader.register("expert-b");
    leader.register("expert-a");
    assert_eq!(leader.experts(), &["expert-a", "expert-b"]);
    assert_eq!(leader.route(&[1, 2, 3]), vec!["expert-a", "expert-b"]);
}

#[test]
fn leader_merge_is_the_lattice_join() {
    let leader = Leader::new();
    let merged = leader.merge(&[vec![1, 2, 3], vec![2, 3, 4], vec![]]);
    assert_eq!(merged, vec![1, 2, 3, 4]);
}

#[test]
fn role_names_parse_back() {
    assert_eq!(Role::Expert.as_str(), "expert");
    assert_eq!(Role::Leader.as_str(), "leader");
    assert_eq!(Role::parse(Role::Leader.as_str()), Some(Role::Leader));
}

#[test]
fn role_parse_trims_and_ignores_case() {
    assert_eq!(Role::parse(" \tLeAdEr\n"), Some(Role::Leader));
    assert_eq!(Role::parse("\u{2003}expert\u{a0}"), Some(Role::Expert));
    assert_eq!(Role::parse("leaders"), None);
    assert_eq!(Role::parse("lead er"), None);
    assert_eq!(Role::parse(""), None);
    assert_eq!(Role::parse("\u{212a}eader"), None);
}

#[test]
fn last_role_that_parses_wins() {
    let config = CortexConfig::from_pairs(&[
        ("role".to_string(), "leader".to_string()),
        ("role".to_string(), "expert".to_string()),
        ("role".to_string(), "guru".to_string()),
        ("Role".to_string(), "leader".to_string()),
    ]);
    assert_eq!(config.role, Role::Expert);
    assert_eq!(CortexConfig::from_pairs(&[]).role, Role::Expert);
}

#[test]
fn merging_does_not_depend_on_order_or_repetition() {
    let leader = Leader::default();
    assert_eq!(
        leader.merge(&[vec![9, 1, 9], vec![5]]),
        leader.merge(&[vec![5], vec![1, 9], vec![1]])
    );
    assert_eq!(leader.merge(&[]), Vec::<u32>::new());
}

#[test]
fn cloned_leader_keeps_the_registry() {
    let mut leader = Leader::new();
    leader.register("a");
    let copy = leader.clone();
    leader.register("b");
    assert_eq!(copy.experts(), &["a"]);
}
