//! What leaves, views and joined contexts hold, stated of keys, tokens and
//! weights.

use crate::context_unified;
use crate::context_unified::ContextModel;
use crate::index;
use crate::learning_laws;
use crate::lut_laws;
use crate::order;
use crate::tid;
use crate::tree;
use crate::tree::{Leaf, LeafMap};
use crate::views;
use crate::views::{ViewModel, ViewRecord};
use crate::working_set;
use crate::working_set::{NamedLut, WorkItem};
use crate::TokenId;
use vstd::prelude::*;
use vstd::utf8::*;

verus! {

// ── Leaves ─────────────────────────────────────────────────────────────────

/// Texts are ordered as their encodings are: the first byte that differs
/// decides, and a proper prefix comes first.
pub proof fn texts_are_ordered_by_their_bytes(a: Seq<char>, b: Seq<char>, s: Seq<Seq<char>>)
    ensures
        tree::text_before(a, b) <==> (exists|k: int|
            #![trigger encode_utf8(a).take(k)]
            0 <= k <= encode_utf8(a).len() && k < encode_utf8(b).len() && encode_utf8(a).take(k)
                == encode_utf8(b).take(k) && (k == encode_utf8(a).len() || encode_utf8(a)[k]
                < encode_utf8(b)[k])),
        tree::ascending_texts(s) <==> (forall|i: int, j: int|
            0 <= i < j < s.len() ==> tree::text_before(#[trigger] s[i], #[trigger] s[j])),
{
    lut_laws::byte_order_is_decided_at_the_first_difference(encode_utf8(a), encode_utf8(b));
}

/// Placing a leaf adds its key with its views, unless the key is there
/// already; no other leaf is touched.
pub proof fn placing_adds_one_leaf(m: LeafMap, leaf: Leaf, h: Seq<char>, j: int)
    ensures
        tree::place(m, leaf).contains_key(h) <==> m.contains_key(h) || h == leaf.h@,
        m.contains_key(h) ==> tree::place(m, leaf)[h] == m[h],
        !m.contains_key(leaf.h@) ==> tree::place(m, leaf)[leaf.h@].len() == leaf.views@.len(),
        !m.contains_key(leaf.h@) && 0 <= j < leaf.views@.len() ==> tree::place(
            m,
            leaf,
        )[leaf.h@][j] == (leaf.views@[j].0@, leaf.views@[j].1@),
{
}

/// Placing a list adds exactly its keys, each with the views that it first
/// came with.
pub proof fn placing_a_list_keeps_first_leaves(m: LeafMap, leaves: Seq<Leaf>, h: Seq<char>, k: int)
    ensures
        tree::place_all(m, leaves).contains_key(h) <==> m.contains_key(h) || (exists|j: int|
            0 <= j < leaves.len() && (#[trigger] leaves[j]).h@ == h),
        m.contains_key(h) ==> tree::place_all(m, leaves)[h] == m[h],
        !m.contains_key(h) && 0 <= k < leaves.len() && leaves[k].h@ == h && (forall|j: int|
            0 <= j < k ==> (#[trigger] leaves[j]).h@ != h) ==> tree::place_all(m, leaves)[h]
            == tree::pairs(leaves[k].views@),
        tree::leaf_keys(leaves).len() == leaves.len(),
        0 <= k < leaves.len() ==> tree::leaf_keys(leaves)[k] == leaves[k].h@,
    decreases leaves.len(),
{
    if leaves.len() > 0 {
        let init = leaves.drop_last();
        let n = leaves.len() - 1;
        placing_a_list_keeps_first_leaves(m, init, h, k);
        if exists|j: int| 0 <= j < init.len() && (#[trigger] init[j]).h@ == h {
            let j = choose|j: int| 0 <= j < init.len() && (#[trigger] init[j]).h@ == h;
            assert(leaves[j].h@ == h);
        }
        if exists|j: int| 0 <= j < leaves.len() && (#[trigger] leaves[j]).h@ == h {
            let j = choose|j: int| 0 <= j < leaves.len() && (#[trigger] leaves[j]).h@ == h;
            if j < n {
                assert(init[j].h@ == h);
            }
        }
        assert(leaves[n] == leaves.last());
        if 0 <= k < n {
            assert(init[k] == leaves[k]);
            if forall|j: int| 0 <= j < k ==> (#[trigger] leaves[j]).h@ != h {
                assert forall|j: int| 0 <= j < k implies (#[trigger] init[j]).h@ != h by {
                    assert(leaves[j].h@ != h);
                }
            }
        }
        if k == n && (forall|j: int| 0 <= j < k ==> (#[trigger] leaves[j]).h@ != h) {
            assert forall|j: int| 0 <= j < init.len() implies (#[trigger] init[j]).h@ != h by {
                assert(leaves[j].h@ != h);
            }
        }
    }
}

/// Lists of texts, pairs and records are read item by item.
pub proof fn lists_are_read_item_by_item(
    v: Seq<String>,
    p: Seq<(String, String)>,
    r: Seq<ViewRecord>,
    items: Seq<WorkItem>,
    k: int,
    i: int,
)
    ensures
        tree::texts(v).len() == v.len(),
        0 <= k < v.len() ==> tree::texts(v)[k] == v[k]@,
        tree::pairs(p).len() == p.len(),
        0 <= k < p.len() ==> tree::pairs(p)[k] == (p[k].0@, p[k].1@),
        views::records(r).len() == r.len(),
        0 <= k < r.len() && 0 <= i < r[k].tokens@.len() ==> views::records(r)[k].tokens[i]
            == r[k].tokens@[i]@,
        0 <= k < r.len() ==> views::records(r)[k].h == r[k].h@ && views::records(r)[k].l == r[k].l@
            && views::records(r)[k].digest == r[k].digest@ && views::records(r)[k].tokens.len()
            == r[k].tokens@.len(),
        working_set::sources(items).len() == items.len(),
        0 <= k < items.len() ==> working_set::sources(items)[k] == items[k].ids@,
{
}

// ── Views ──────────────────────────────────────────────────────────────────

/// A sketch shows through a LUT the registered tokens of ids that stand at one
/// of its addresses, and nothing else.
pub proof fn sketches_show_the_ids_at_their_addresses(
    m: Map<Seq<u8>, index::Slot>,
    h: Set<u32>,
    t: Seq<u8>,
)
    ensures
        working_set::view_image(m, h).contains(t) <==> m.contains_key(t) && h.contains(m[t].cell)
            && (exists|n: TokenId| t == #[trigger] tid::tid(n)),
{
    assert(working_set::is_tid(t) == (exists|n: TokenId| t == #[trigger] tid::tid(n)));
}

/// Through a family a sketch shows what it shows through any LUT of it.
pub proof fn families_show_what_any_lut_shows(luts: Seq<NamedLut>, h: Set<u32>, t: Seq<u8>)
    ensures
        working_set::family_image(luts, h).contains(t) <==> (exists|j: int|
            0 <= j < luts.len() && (#[trigger] luts[j]).lut@.contains_key(t) && h.contains(
                luts[j].lut@[t].cell,
            )) && (exists|n: TokenId| t == #[trigger] tid::tid(n)),
{
    if working_set::family_image(luts, h).contains(t) {
        let j = choose|j: int|
            0 <= j < luts.len() && #[trigger] working_set::view_image(luts[j].lut@, h).contains(t);
        sketches_show_the_ids_at_their_addresses(luts[j].lut@, h, t);
        assert(luts[j].lut@.contains_key(t));
    }
    if (exists|j: int|
        0 <= j < luts.len() && (#[trigger] luts[j]).lut@.contains_key(t) && h.contains(
            luts[j].lut@[t].cell,
        )) && (exists|n: TokenId| t == #[trigger] tid::tid(n)) {
        let j = choose|j: int|
            0 <= j < luts.len() && (#[trigger] luts[j]).lut@.contains_key(t) && h.contains(
                luts[j].lut@[t].cell,
            );
        sketches_show_the_ids_at_their_addresses(luts[j].lut@, h, t);
        assert(working_set::view_image(luts[j].lut@, h).contains(t));
    }
}

/// Where a digest function always gives a list of tokens what `f` says, a name
/// is just that.
pub proof fn names_follow_the_digest<D: Fn(&Vec<Vec<u8>>) -> String>(
    digest: &D,
    f: spec_fn(Seq<Seq<u8>>) -> Seq<char>,
    ts: Seq<Seq<u8>>,
    name: Seq<char>,
)
    requires
        forall|v: &Vec<Vec<u8>>, s: String| #[trigger]
            call_ensures(digest, (v,), s) ==> s@ == f(order::tokens(v@)),
        views::names(digest, ts, name),
    ensures
        name == f(ts),
{
}

/// A record carries the key of its source tokens, its name, the shown tokens
/// in byte order, each once, and the digest of just those.
pub proof fn records_carry_their_tokens_and_digest<
    K: Fn(&Vec<Vec<u8>>) -> String,
    D: Fn(&Vec<Vec<u8>>) -> String,
>(
    key: &K,
    digest: &D,
    fk: spec_fn(Seq<Seq<u8>>) -> Seq<char>,
    fd: spec_fn(Seq<Seq<u8>>) -> Seq<char>,
    v: ViewModel,
    ids: Seq<TokenId>,
    l: Seq<char>,
    image: Set<Seq<u8>>,
    t: Seq<u8>,
)
    requires
        forall|x: &Vec<Vec<u8>>, s: String| #[trigger]
            call_ensures(key, (x,), s) ==> s@ == fk(order::tokens(x@)),
        forall|x: &Vec<Vec<u8>>, s: String| #[trigger]
            call_ensures(digest, (x,), s) ==> s@ == fd(order::tokens(x@)),
        working_set::is_record(v, ids, l, image, key, digest),
    ensures
        v.h == fk(ids.map_values(|n: TokenId| tid::tid(n))),
        v.l == l,
        order::ascending_tokens(v.tokens),
        v.tokens.contains(t) <==> image.contains(t),
        v.digest == fd(v.tokens),
{
    names_follow_the_digest(key, fk, tid::tids(ids), v.h);
    names_follow_the_digest(digest, fd, v.tokens, v.digest);
    assert(tid::tids(ids) =~= ids.map_values(|n: TokenId| tid::tid(n)));
    assert(v.tokens.to_set().contains(t) == image.contains(t));
}

/// A leaf carries the key of its source tokens and, LUT by LUT, the LUT's name
/// with the digest of what the sketch shows through that very LUT.
pub proof fn leaves_carry_one_digest_per_lut<
    K: Fn(&Vec<Vec<u8>>) -> String,
    D: Fn(&Vec<Vec<u8>>) -> String,
>(
    key: &K,
    digest: &D,
    fk: spec_fn(Seq<Seq<u8>>) -> Seq<char>,
    fd: spec_fn(Seq<Seq<u8>>) -> Seq<char>,
    leaf: Leaf,
    item: WorkItem,
    ts: Seq<Seq<u8>>,
    j: int,
)
    requires
        forall|x: &Vec<Vec<u8>>, s: String| #[trigger]
            call_ensures(key, (x,), s) ==> s@ == fk(order::tokens(x@)),
        forall|x: &Vec<Vec<u8>>, s: String| #[trigger]
            call_ensures(digest, (x,), s) ==> s@ == fd(order::tokens(x@)),
        working_set::is_leaf(leaf, item, key, digest),
        0 <= j < item.luts@.len(),
        order::ascending_tokens(ts),
        forall|t: Seq<u8>| #[trigger]
            ts.contains(t) <==> item.luts@[j].lut@.contains_key(t) && item.sketch@.contains(
                item.luts@[j].lut@[t].cell,
            ) && (exists|n: TokenId| t == #[trigger] tid::tid(n)),
    ensures
        leaf.h@ == fk(item.ids@.map_values(|n: TokenId| tid::tid(n))),
        leaf.views@.len() == item.luts@.len(),
        leaf.views@[j].0@ == item.luts@[j].name@,
        leaf.views@[j].1@ == fd(ts),
{
    names_follow_the_digest(key, fk, tid::tids(item.ids@), leaf.h@);
    assert(tid::tids(item.ids@) =~= item.ids@.map_values(|n: TokenId| tid::tid(n)));
    let m = item.luts@[j].lut@;
    let image = working_set::view_image(m, item.sketch@);
    assert(leaf.views@[j].0@ == item.luts@[j].name@);
    let us = choose|us: Seq<Seq<u8>>|
        order::ascending_tokens(us) && us.to_set() == image && #[trigger] views::names(
            digest,
            us,
            leaf.views@[j].1@,
        );
    names_follow_the_digest(digest, fd, us, leaf.views@[j].1@);
    assert forall|t: Seq<u8>| ts.to_set().contains(t) == us.to_set().contains(t) by {
        sketches_show_the_ids_at_their_addresses(m, item.sketch@, t);
        assert(ts.contains(t) == image.contains(t));
    }
    assert(ts.to_set() =~= us.to_set());
    order::lemma_ascending_tokens_unique(ts, us);
}

/// The tree of a working set has a leaf for the key of each item and no other,
/// and it is the leaf of the first item with that key.
pub proof fn trees_have_a_leaf_per_item<
    K: Fn(&Vec<Vec<u8>>) -> String,
    D: Fn(&Vec<Vec<u8>>) -> String,
>(
    key: &K,
    digest: &D,
    fk: spec_fn(Seq<Seq<u8>>) -> Seq<char>,
    m: LeafMap,
    items: Seq<WorkItem>,
    h: Seq<char>,
) -> (leaves: Seq<Leaf>)
    requires
        forall|x: &Vec<Vec<u8>>, s: String| #[trigger]
            call_ensures(key, (x,), s) ==> s@ == fk(order::tokens(x@)),
        working_set::is_tree(m, items, key, digest),
    ensures
        m.contains_key(h) <==> (exists|k: int|
            0 <= k < items.len() && fk(tid::tids((#[trigger] items[k]).ids@)) == h),
        leaves.len() == items.len(),
        forall|k: int|
            0 <= k < items.len() ==> working_set::is_leaf(
                #[trigger] leaves[k],
                items[k],
                key,
                digest,
            ),
        forall|k: int|
            0 <= k < leaves.len() && (forall|j: int|
                0 <= j < k ==> (#[trigger] leaves[j]).h@ != leaves[k].h@) ==> m[(
            #[trigger] leaves[k]).h@] == tree::pairs(leaves[k].views@),
{
    let leaves = choose|leaves: Seq<Leaf>| #[trigger]
        working_set::are_leaves(leaves, items, key, digest) && m == tree::place_all(
            Map::empty(),
            leaves,
        );
    let none: LeafMap = Map::empty();
    placing_a_list_keeps_first_leaves(none, leaves, h, 0);
    assert forall|k: int| 0 <= k < leaves.len() implies (#[trigger] leaves[k]).h@ == fk(
        tid::tids(items[k].ids@),
    ) by {
        assert(working_set::is_leaf(leaves[k], items[k], key, digest));
        names_follow_the_digest(key, fk, tid::tids(items[k].ids@), leaves[k].h@);
    }
    if m.contains_key(h) {
        let k = choose|k: int| 0 <= k < leaves.len() && (#[trigger] leaves[k]).h@ == h;
        assert(fk(tid::tids(items[k].ids@)) == h);
    }
    if exists|k: int| 0 <= k < items.len() && fk(tid::tids((#[trigger] items[k]).ids@)) == h {
        let k = choose|k: int|
            0 <= k < items.len() && fk(tid::tids((#[trigger] items[k]).ids@)) == h;
        assert(leaves[k].h@ == h);
    }
    assert forall|k: int|
        0 <= k < leaves.len() && (forall|j: int|
            0 <= j < k ==> (#[trigger] leaves[j]).h@ != leaves[k].h@) implies m[(
    #[trigger] leaves[k]).h@] == tree::pairs(leaves[k].views@) by {
        placing_a_list_keeps_first_leaves(none, leaves, leaves[k].h@, k);
    }
    leaves
}

// ── Joined contexts ────────────────────────────────────────────────────────

/// Views are added once, behind those before them, in turn.
pub proof fn views_are_added_once_and_in_turn(
    views: Seq<ViewModel>,
    more: Seq<ViewModel>,
    k: int,
    v: ViewModel,
)
    requires
        0 <= k <= more.len(),
    ensures
        views.is_prefix_of(context_unified::add_views(views, more)),
        context_unified::add_views(views, more).contains(v) <==> views.contains(v)
            || more.contains(v),
        views.no_duplicates() ==> context_unified::add_views(views, more).no_duplicates(),
        context_unified::add_views(views, more.take(k)).is_prefix_of(
            context_unified::add_views(views, more),
        ),
    decreases more.len(),
{
    if more.len() > 0 {
        let init = more.drop_last();
        let n = more.len() - 1;
        views_are_added_once_and_in_turn(views, init, 0, v);
        let rest = context_unified::add_views(views, init);
        let all = context_unified::add_views(views, more);
        if more.contains(v) {
            let i = more.index_of(v);
            if i < n {
                assert(init[i] == v);
            }
        }
        if init.contains(v) {
            let i = init.index_of(v);
            assert(more[i] == v);
        }
        assert(more[n] == more.last());
        if rest.contains(v) {
            let i = rest.index_of(v);
            assert(all[i] == v);
        }
        if !rest.contains(more.last()) {
            assert(all[rest.len() as int] == more.last());
        }
    }
    if k == more.len() {
        assert(more.take(k) =~= more);
    } else {
        views_are_added_once_and_in_turn(views, more.drop_last(), k, v);
        assert(more.drop_last().take(k) =~= more.take(k));
    }
}

/// A joined context has the leaves of both, that of the first where both have
/// the key; the larger of two weights and the nodes of both; and each view of
/// either once.
pub proof fn joins_hold_what_either_side_holds(
    a: ContextModel,
    b: ContextModel,
    h: Seq<char>,
    x: TokenId,
    y: TokenId,
    v: ViewModel,
    k: int,
)
    requires
        0 <= k <= b.views.len(),
    ensures
        a.join(b).tree.contains_key(h) <==> a.tree.contains_key(h) || b.tree.contains_key(h),
        a.tree.contains_key(h) ==> a.join(b).tree[h] == a.tree[h],
        !a.tree.contains_key(h) && b.tree.contains_key(h) ==> a.join(b).tree[h] == b.tree[h],
        (a.matrix.weight)(x, y) >= (b.matrix.weight)(x, y) ==> (a.join(b).matrix.weight)(x, y) == (
        a.matrix.weight)(x, y),
        (a.matrix.weight)(x, y) <= (b.matrix.weight)(x, y) ==> (a.join(b).matrix.weight)(x, y) == (
        b.matrix.weight)(x, y),
        a.join(b).matrix.nodes.contains(x) <==> a.matrix.nodes.contains(x)
            || b.matrix.nodes.contains(x),
        a.matrix.nodes.is_prefix_of(a.join(b).matrix.nodes),
        a.join(b).views.contains(v) <==> a.views.contains(v) || b.views.contains(v),
        a.join(b).views.no_duplicates(),
        a.join((ContextModel { views: b.views.take(k), ..b })).views.is_prefix_of(a.join(b).views),
        a.views.no_duplicates() ==> a.views.is_prefix_of(a.join(b).views),
        a.join(b).matrix == a.matrix.merge(b.matrix),
{
    learning_laws::merging_takes_the_larger_weight(a.matrix, b.matrix, x, y, 0);
    let both = a.views + b.views;
    let none = Seq::<ViewModel>::empty();
    views_are_added_once_and_in_turn(none, both, a.views.len() + k, v);
    assert(both.take(a.views.len() + k) =~= a.views + b.views.take(k));
    crate::unified_laws::view_union_is_a_join(a.views, b.views);
    if both.contains(v) {
        let i = both.index_of(v);
        if i < a.views.len() {
            assert(a.views[i] == v);
        } else {
            assert(b.views[i - a.views.len()] == v);
        }
    }
    if a.views.contains(v) {
        let i = a.views.index_of(v);
        assert(both[i] == v);
    }
    if b.views.contains(v) {
        let i = b.views.index_of(v);
        assert(both[a.views.len() + i] == v);
    }
}

/// The full image holds the tokens of the views, and an empty context has
/// neither leaves nor nodes nor views.
pub proof fn images_hold_the_tokens_of_the_views(views: Seq<ViewModel>, t: Seq<u8>)
    ensures
        context_unified::image_tokens(views).contains(t) <==> (exists|k: int, i: int|
            0 <= k < views.len() && 0 <= i < views[k].tokens.len()
                && #[trigger] views[k].tokens[i] == t),
        ContextModel::empty().tree.dom() == Set::<Seq<char>>::empty(),
        ContextModel::empty().matrix.nodes.len() == 0,
        ContextModel::empty().views.len() == 0,
{
    if context_unified::image_tokens(views).contains(t) {
        let k = choose|k: int| 0 <= k < views.len() && #[trigger] views[k].tokens.contains(t);
        let i = views[k].tokens.index_of(t);
        assert(views[k].tokens[i] == t);
    }
    if exists|k: int, i: int|
        0 <= k < views.len() && 0 <= i < views[k].tokens.len() && #[trigger] views[k].tokens[i]
            == t {
        let (k, i) = choose|k: int, i: int|
            0 <= k < views.len() && 0 <= i < views[k].tokens.len() && #[trigger] views[k].tokens[i]
                == t;
        assert(views[k].tokens.contains(t));
    }
}

/// Contexts hold the same where their leaves, nodes, weights and views agree.
pub proof fn sameness_is_of_leaves_nodes_weights_and_views(a: ContextModel, b: ContextModel)
    ensures
        a.same(b) <==> a.tree == b.tree && (forall|t: TokenId|
            a.matrix.nodes.contains(t) <==> b.matrix.nodes.contains(t)) && (forall|
            x: TokenId,
            y: TokenId,
        | #[trigger] (a.matrix.weight)(x, y) == (b.matrix.weight)(x, y)) && (forall|v: ViewModel|
            a.views.contains(v) <==> b.views.contains(v)),
{
    learning_laws::agreement_is_of_nodes_and_weights(a.matrix, b.matrix);
    if a.same(b) {
        assert forall|v: ViewModel| a.views.contains(v) <==> b.views.contains(v) by {
            assert(a.views.to_set().contains(v) == b.views.to_set().contains(v));
        }
    }
    if forall|v: ViewModel| a.views.contains(v) <==> b.views.contains(v) {
        assert(a.views.to_set() =~= b.views.to_set());
    }
}

} // verus!
