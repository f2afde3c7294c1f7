use cortex::context::ContextMatrix;
use cortex::context_unified::Context;
use cortex::tree::{ContextTree, Leaf};
use cortex::views::ViewRecord;
use cortex::TokenId;

fn leaf(h: &str) -> Leaf {
    Leaf {
        h: h.to_string(),
        views: Vec::new(),
    }
}

fn digest(tokens: &Vec<Vec<u8>>) -> String {
    let mut s = "v:".to_string();
    for t in tokens {
        s.push_str(&String::from_utf8_lossy(t));
        s.push('|');
    }
    s
}

fn view(h: &str, l: &str, tokens: &[&str]) -> ViewRecord {
    let tokens: Vec<Vec<u8>> = tokens.iter().map(|t| t.as_bytes().to_vec()).collect();
    ViewRecord::new(h.to_string(), l.to_string(), &tokens, &digest)
}

fn context(hs: &[&str], seq: &[TokenId], views: Vec<ViewRecord>) -> Context {
    let leaves: Vec<Leaf> = hs.iter().map(|h| leaf(h)).collect();
    Context::build(
        ContextTree::build(&leaves),
        ContextMatrix::from_sequence(seq),
        views,
    )
}

#[test]
fn build_and_accessors() {
    let ctx = context(
        &["h:aa", "h:bb"],
        &[1, 2, 3],
        vec![view("h:aa", "main", &["tid1", "tid2"])],
    );
    assert_eq!(ctx.tree().leaves().len(), 2);
    assert_eq!(ctx.matrix().len(), 3);
    assert_eq!(ctx.views().len(), 1);
    assert_eq!(
        ctx.full_image_tokens(),
        vec![b"tid1".to_vec(), b"tid2".to_vec()]
    );
}

#[test]
fn observe_sequence_grows_the_matrix_only() {
    let ctx = context(&["h:aa"], &[1, 2], Vec::new());
    let grown = ctx.observe_sequence(&[2, 3, 4]);
    assert!(grown.matrix().grounded(3));
    assert!(!ctx.matrix().grounded(3), "original is unchanged");
    assert_eq!(grown.tree(), ctx.tree());
}

#[test]
fn join_is_the_lattice_join_of_configurations() {
    let a = context(
        &["h:aa", "h:bb"],
        &[1, 2],
        vec![view("h:aa", "main", &["tid1"])],
    );
    let b = context(
        &["h:bb", "h:cc"],
        &[2, 3],
        vec![view("h:cc", "main", &["tid3"])],
    );

    let joined = a.join(&b);
    assert_eq!(joined.tree().leaves().len(), 3, "tree merge");
    assert!(joined.matrix().grounded(1) && joined.matrix().grounded(3));
    assert_eq!(joined.views().len(), 2, "views union, deduplicated");
    assert_eq!(
        joined.full_image_tokens(),
        vec![b"tid1".to_vec(), b"tid3".to_vec()]
    );

    let m1 = joined.matrix();
    let other = b.join(&a);
    let m2 = other.matrix();
    let mut n1 = m1.nodes().to_vec();
    n1.sort_unstable();
    let mut n2 = m2.nodes().to_vec();
    n2.sort_unstable();
    assert_eq!(n1, n2, "same grounded nodes");
    for &x in &n1 {
        for &y in &n1 {
            assert_eq!(m1.cell(x, y), m2.cell(x, y), "cell ({x},{y})");
        }
    }
    assert_eq!(joined.tree(), b.join(&a).tree());
    assert_eq!(a.join(&a).tree(), a.tree());
}

#[test]
fn diff_is_the_tree_level_noether_decomposition() {
    let prev = context(&["h:aa", "h:bb"], &[1, 2], Vec::new());
    let next = context(&["h:aa", "h:cc"], &[2, 3], Vec::new());

    let diff = prev.diff(&next);
    assert_eq!(diff.added, vec!["h:cc".to_string()]);
    assert_eq!(diff.removed, vec!["h:bb".to_string()]);
    assert_eq!(diff.retained, vec!["h:aa".to_string()]);
}

#[test]
fn joining_twice_adds_no_view() {
    let a = context(&[], &[], vec![view("h", "l", &["b", "a", "b"])]);
    let joined = a.join(&a);
    assert_eq!(joined.views().len(), 1);
    assert_eq!(joined.full_image_tokens(), vec![b"a".to_vec(), b"b".to_vec()]);
    assert_eq!(joined.views()[0].digest, "v:a|b|");
}

#[test]
fn joins_drop_the_repeats_of_either_side() {
    let v = || view("h", "l", &["a"]);
    let w = || view("h", "m", &["b"]);
    let twice = context(&[], &[], vec![v(), w(), v()]);
    let names = |c: &Context| -> Vec<String> { c.views().iter().map(|r| r.l.clone()).collect() };

    assert_eq!(names(&twice.join(&context(&[], &[], vec![]))), vec!["l", "m"]);
    assert_eq!(names(&context(&[], &[], vec![]).join(&twice)), vec!["l", "m"]);
    assert_eq!(names(&twice.join(&twice)), vec!["l", "m"]);
    assert_eq!(names(&context(&[], &[], vec![w()]).join(&twice)), vec!["m", "l"]);
}

#[test]
fn combinators_replace_one_part() {
    let ctx = context(&["h:aa"], &[1, 2], vec![view("h", "l", &["x"])]);
    let t = ctx.with_tree(ContextTree::empty());
    assert!(t.tree().leaves().is_empty() && t.views().len() == 1 && t.matrix().len() == 2);
    let m = ctx.with_matrix(ContextMatrix::new());
    assert!(m.matrix().is_empty() && m.tree().leaves().len() == 1);
    let v = ctx.with_views(Vec::new());
    assert!(v.views().is_empty() && v.full_image_tokens().is_empty());
    assert!(Context::default().matrix().is_empty());
    assert_eq!(ctx.clone().views(), ctx.views());
}

#[test]
fn leaves_are_sorted_and_keys_are_unique() {
    let mut first = leaf("b");
    first.views.push(("l".to_string(), "v:1".to_string()));
    let tree = ContextTree::build(&[first, leaf("\u{e9}"), leaf("a"), leaf("b")]);
    let keys: Vec<&str> = tree.leaves().iter().map(|l| l.h.as_str()).collect();
    assert_eq!(keys, vec!["a", "b", "\u{e9}"]);
    assert_eq!(tree.leaves()[1].views.len(), 1);
    assert!(tree.contains(&"a".to_string()) && !tree.contains(&"c".to_string()));
}

#[test]
fn view_identity_is_the_pair_of_keys() {
    let v = view("h:1", "main", &["t"]);
    assert_eq!(v.cache_key(), ("h:1".to_string(), "main".to_string()));
    assert!(v.same(&v.clone()));
    assert!(!v.same(&view("h:1", "extra", &["t"])));
    assert!(!v.same(&view("h:1", "main", &["u"])));
}
