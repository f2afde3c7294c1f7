//! Laws of the context tree and of the unified context.

use crate::context::MatrixModel;
use crate::context_laws;
use crate::context_unified;
use crate::context_unified::ContextModel;
use crate::tree;
use crate::tree::{Leaf, LeafMap};
use crate::views::ViewModel;
use crate::TokenId;
use vstd::prelude::*;

verus! {

// ── The tree ───────────────────────────────────────────────────────────────

/// The tree is reversible: inserting a new leaf and removing it gives the tree
/// back, and so does removing a leaf and inserting it again.
pub proof fn tree_edits_are_reversible(m: LeafMap, leaf: Leaf)
    ensures
        !m.contains_key(leaf.h@) ==> tree::place(m, leaf).remove(leaf.h@) == m,
        m.contains_key(leaf.h@) && m[leaf.h@] == tree::pairs(leaf.views@) ==> tree::place(
            m.remove(leaf.h@),
            leaf,
        ) == m,
{
    if !m.contains_key(leaf.h@) {
        assert(tree::place(m, leaf).remove(leaf.h@) =~= m);
    } else if m[leaf.h@] == tree::pairs(leaf.views@) {
        assert(tree::place(m.remove(leaf.h@), leaf) =~= m);
    }
}

/// The join of trees is idempotent and associative, it holds the leaves of
/// both, and it is commutative where shared keys have equal leaves.
pub proof fn tree_merge_is_a_join(a: LeafMap, b: LeafMap, c: LeafMap)
    ensures
        a.union_prefer_right(a) == a,
        c.union_prefer_right(b.union_prefer_right(a)) == c.union_prefer_right(
            b,
        ).union_prefer_right(a),
        b.union_prefer_right(a).dom() == a.dom().union(b.dom()),
        a.agrees(b) ==> b.union_prefer_right(a) == a.union_prefer_right(b),
{
    assert(a.union_prefer_right(a) =~= a);
    assert(c.union_prefer_right(b.union_prefer_right(a)) =~= c.union_prefer_right(
        b,
    ).union_prefer_right(a));
    assert(b.union_prefer_right(a).dom() =~= a.dom().union(b.dom()));
    if a.agrees(b) {
        assert forall|h: Seq<char>| a.contains_key(h) && b.contains_key(h) implies a[h] == b[h] by {
            assert(a.dom().contains(h) && b.dom().contains(h));
        }
        assert(b.union_prefer_right(a) =~= a.union_prefer_right(b));
    }
}

/// The leaf-level Noether decomposition: of the step from `prev` to `next`,
/// the removed and the retained keys make up `prev`, the retained and the
/// added keys make up `next`, and no key is both removed and added.
pub proof fn tree_diff_is_the_noether_decomposition(
    prev: LeafMap,
    next: LeafMap,
    prev_keys: Seq<Seq<char>>,
    next_keys: Seq<Seq<char>>,
    h: Seq<char>,
)
    requires
        prev_keys.to_set() == prev.dom(),
        next_keys.to_set() == next.dom(),
    ensures
        ({
            let added = next_keys.filter(|x: Seq<char>| prev.contains_key(x) == false);
            let removed = prev_keys.filter(|x: Seq<char>| next.contains_key(x) == false);
            let retained = prev_keys.filter(|x: Seq<char>| next.contains_key(x) == true);
            &&& removed.contains(h) || retained.contains(h) <==> prev.contains_key(h)
            &&& retained.contains(h) || added.contains(h) <==> next.contains_key(h)
            &&& !(removed.contains(h) && added.contains(h))
            &&& !(removed.contains(h) && retained.contains(h))
            &&& !(retained.contains(h) && added.contains(h))
        }),
{
    lemma_filtered(next_keys, |x: Seq<char>| prev.contains_key(x) == false, h);
    lemma_filtered(prev_keys, |x: Seq<char>| next.contains_key(x) == false, h);
    lemma_filtered(prev_keys, |x: Seq<char>| next.contains_key(x) == true, h);
    assert(prev_keys.contains(h) <==> prev.dom().contains(h)) by {
        assert(prev_keys.to_set().contains(h) <==> prev_keys.contains(h));
    }
    assert(next_keys.contains(h) <==> next.dom().contains(h)) by {
        assert(next_keys.to_set().contains(h) <==> next_keys.contains(h));
    }
}

proof fn lemma_filtered(s: Seq<Seq<char>>, p: spec_fn(Seq<char>) -> bool, h: Seq<char>)
    ensures
        s.filter(p).contains(h) <==> s.contains(h) && p(h),
{
    if s.filter(p).contains(h) {
        s.lemma_filter_contains_rev(p, h);
        s.lemma_filter_pred(p, s.filter(p).index_of(h));
    }
    if s.contains(h) && p(h) {
        s.lemma_filter_contains(p, s.index_of(h));
    }
}

// ── The views ──────────────────────────────────────────────────────────────

proof fn lemma_add_views(views: Seq<ViewModel>, more: Seq<ViewModel>)
    ensures
        context_unified::add_views(views, more).to_set() == views.to_set().union(more.to_set()),
        views.no_duplicates() ==> context_unified::add_views(views, more).no_duplicates(),
        views.is_prefix_of(context_unified::add_views(views, more)),
        more.to_set().subset_of(views.to_set()) ==> context_unified::add_views(views, more)
            == views,
    decreases more.len(),
{
    if more.len() == 0 {
        assert(more.to_set() =~= Set::<ViewModel>::empty());
        assert(views.to_set().union(more.to_set()) =~= views.to_set());
    } else {
        let init = more.drop_last();
        let rest = context_unified::add_views(views, init);
        lemma_add_views(views, init);
        assert(more =~= init.push(more.last()));
        init.lemma_push_to_set_commute(more.last());
        rest.lemma_push_to_set_commute(more.last());
        if rest.contains(more.last()) {
            assert(rest.to_set().contains(more.last()));
        }
        assert(context_unified::add_views(views, more).to_set() =~= views.to_set().union(
            more.to_set(),
        ));
        if more.to_set().subset_of(views.to_set()) {
            assert(init.to_set().subset_of(more.to_set()));
            assert(more.to_set().contains(more.last()));
            assert(views.to_set().contains(more.last()));
            assert(views.contains(more.last()));
        }
    }
}

/// Adding views that differ from each other and from all before appends them.
proof fn lemma_add_distinct(views: Seq<ViewModel>, more: Seq<ViewModel>)
    requires
        (views + more).no_duplicates(),
    ensures
        context_unified::add_views(views, more) == views + more,
    decreases more.len(),
{
    if more.len() == 0 {
        assert(views + more =~= views);
    } else {
        let init = more.drop_last();
        let n = (views + more).len() - 1;
        assert((views + more).drop_last() =~= views + init);
        assert((views + more)[n] == more.last());
        lemma_add_distinct(views, init);
        if (views + init).contains(more.last()) {
            let k = (views + init).index_of(more.last());
            assert((views + more)[k] == (views + more)[n]);
        }
        assert((views + init).push(more.last()) =~= views + more);
    }
}

/// Views added in two lots are added one after the other.
proof fn lemma_add_in_lots(views: Seq<ViewModel>, a: Seq<ViewModel>, b: Seq<ViewModel>)
    ensures
        context_unified::add_views(views, a + b) == context_unified::add_views(
            context_unified::add_views(views, a),
            b,
        ),
    decreases b.len(),
{
    if b.len() == 0 {
        assert(a + b =~= a);
    } else {
        lemma_add_in_lots(views, a, b.drop_last());
        assert((a + b).drop_last() =~= a + b.drop_last());
        assert((a + b).last() == b.last());
    }
}

/// The deduplicated union of the views of two contexts.
pub open spec fn view_union(a: Seq<ViewModel>, b: Seq<ViewModel>) -> Seq<ViewModel> {
    context_unified::add_views(Seq::empty(), a + b)
}

/// The deduplicated union of views holds each view of either list and repeats
/// nothing. It keeps a first list without repeats in place, and the union of
/// such a list with itself is that list.
pub proof fn view_union_is_a_join(a: Seq<ViewModel>, b: Seq<ViewModel>)
    ensures
        view_union(a, b).to_set() == a.to_set().union(b.to_set()),
        view_union(a, b).no_duplicates(),
        a.no_duplicates() ==> a.is_prefix_of(view_union(a, b)),
        a.no_duplicates() ==> view_union(a, a) == a,
{
    let none = Seq::<ViewModel>::empty();
    let once = context_unified::add_views(none, a);
    lemma_add_in_lots(none, a, b);
    lemma_add_in_lots(none, a, a);
    lemma_add_views(none, a);
    lemma_add_views(once, b);
    lemma_add_views(once, a);
    assert(none.to_set() =~= Set::<ViewModel>::empty());
    assert(once.to_set() =~= a.to_set());
    if a.no_duplicates() {
        assert(none + a =~= a);
        lemma_add_distinct(none, a);
    }
}

proof fn lemma_image(views: Seq<ViewModel>, t: Seq<u8>)
    ensures
        context_unified::image_tokens(views).contains(t) <==> (exists|v: ViewModel|
            views.to_set().contains(v) && #[trigger] v.tokens.contains(t)),
{
    if context_unified::image_tokens(views).contains(t) {
        let k = choose|k: int| 0 <= k < views.len() && #[trigger] views[k].tokens.contains(t);
        assert(views.to_set().contains(views[k]));
    }
    if exists|v: ViewModel| views.to_set().contains(v) && #[trigger] v.tokens.contains(t) {
        let v = choose|v: ViewModel| views.to_set().contains(v) && #[trigger] v.tokens.contains(t);
        let k = views.index_of(v);
        assert(views[k].tokens.contains(t));
    }
}

/// The full image of a join is the union of the full images.
pub proof fn full_image_of_a_join(a: ContextModel, b: ContextModel)
    ensures
        context_unified::image_tokens(a.join(b).views) == context_unified::image_tokens(
            a.views,
        ).union(context_unified::image_tokens(b.views)),
{
    view_union_is_a_join(a.views, b.views);
    let j = a.join(b).views;
    assert forall|t: Seq<u8>| #[trigger]
        context_unified::image_tokens(j).contains(t) == context_unified::image_tokens(
            a.views,
        ).union(context_unified::image_tokens(b.views)).contains(t) by {
        lemma_image(j, t);
        lemma_image(a.views, t);
        lemma_image(b.views, t);
        if context_unified::image_tokens(j).contains(t) {
            let v = choose|v: ViewModel| j.to_set().contains(v) && #[trigger] v.tokens.contains(t);
            assert(a.views.to_set().contains(v) || b.views.to_set().contains(v));
        }
        if context_unified::image_tokens(a.views).contains(t) {
            let v = choose|v: ViewModel|
                a.views.to_set().contains(v) && #[trigger] v.tokens.contains(t);
            assert(j.to_set().contains(v));
        }
        if context_unified::image_tokens(b.views).contains(t) {
            let v = choose|v: ViewModel|
                b.views.to_set().contains(v) && #[trigger] v.tokens.contains(t);
            assert(j.to_set().contains(v));
        }
    }
    assert(context_unified::image_tokens(j) =~= context_unified::image_tokens(a.views).union(
        context_unified::image_tokens(b.views),
    ));
}

// ── The context ────────────────────────────────────────────────────────────

/// Joining a context with itself changes nothing but the repeats among its
/// views, which go.
pub proof fn join_is_idempotent(c: ContextModel)
    requires
        c.matrix.valid(),
    ensures
        c.join(c).same(c),
        c.join(c).views.no_duplicates(),
        c.views.no_duplicates() ==> c.join(c) == c,
        c.join(c).join(c.join(c)) == c.join(c),
{
    tree_merge_is_a_join(c.tree, c.tree, c.tree);
    context_laws::merge_is_idempotent(c.matrix);
    view_union_is_a_join(c.views, c.views);
    let j = c.join(c);
    assert(c.views.to_set().union(c.views.to_set()) =~= c.views.to_set());
    if c.views.no_duplicates() {
        assert(j =~= c);
    }
    tree_merge_is_a_join(j.tree, j.tree, j.tree);
    context_laws::merge_is_idempotent(j.matrix);
    view_union_is_a_join(j.views, j.views);
    assert(j.join(j) =~= j);
}

/// Joins in either order hold the same, where leaves with one key are equal.
pub proof fn join_is_commutative(a: ContextModel, b: ContextModel)
    requires
        a.tree.agrees(b.tree),
    ensures
        a.join(b).same(b.join(a)),
{
    tree_merge_is_a_join(a.tree, b.tree, a.tree);
    context_laws::merge_is_commutative(a.matrix, b.matrix);
    view_union_is_a_join(a.views, b.views);
    view_union_is_a_join(b.views, a.views);
    assert(a.views.to_set().union(b.views.to_set()) =~= b.views.to_set().union(a.views.to_set()));
}

/// Joins group as they like.
pub proof fn join_is_associative(a: ContextModel, b: ContextModel, c: ContextModel)
    ensures
        a.join(b).join(c).same(a.join(b.join(c))),
{
    tree_merge_is_a_join(a.tree, b.tree, c.tree);
    context_laws::merge_is_associative(a.matrix, b.matrix, c.matrix);
    view_union_is_a_join(a.views, b.views);
    view_union_is_a_join(a.join(b).views, c.views);
    view_union_is_a_join(b.views, c.views);
    view_union_is_a_join(a.views, b.join(c).views);
    assert(a.views.to_set().union(b.views.to_set()).union(c.views.to_set())
        =~= a.views.to_set().union(b.views.to_set().union(c.views.to_set())));
}

// ── Learning ───────────────────────────────────────────────────────────────

/// A learned sequence is measured: every transition in it is an edge, between
/// grounded tokens.
pub proof fn learned_transitions_are_measured(m: MatrixModel, tokens: Seq<TokenId>, k: int)
    requires
        m.valid(),
        0 <= k < tokens.len() - 1,
    ensures
        m.learn(tokens).valid(),
        m.learn(tokens).edge(tokens[k], tokens[k + 1]),
        m.learn(tokens).grounded(tokens[k]),
        m.learn(tokens).grounded(tokens[k + 1]),
    decreases tokens.len(),
{
    learning_is_monotone(m, tokens, tokens[k], tokens[k + 1]);
    let init = tokens.drop_last();
    let n = tokens.len() as int;
    if k < n - 2 {
        learned_transitions_are_measured(m, init, k);
        assert(init[k] == tokens[k] && init[k + 1] == tokens[k + 1]);
    }
    assert((m.learn(tokens).weight)(tokens[k], tokens[k + 1]) > 0);
}

/// Learning is monotone: no weight falls, no node leaves, and the matrix stays
/// valid.
pub proof fn learning_is_monotone(m: MatrixModel, tokens: Seq<TokenId>, a: TokenId, b: TokenId)
    requires
        m.valid(),
    ensures
        (m.weight)(a, b) <= (m.learn(tokens).weight)(a, b),
        m.nodes.is_prefix_of(m.learn(tokens).nodes),
        m.learn(tokens).valid(),
    decreases tokens.len(),
{
    if tokens.len() >= 2 {
        let init = tokens.drop_last();
        learning_is_monotone(m, init, a, b);
        let x = tokens[tokens.len() - 2];
        let y = tokens.last();
        context_laws::observe_keeps_validity(m.learn(init), x, y, 1);
    }
}

} // verus!
