//! Relational views and the context of a working set.
//!
//! - [`view_record`]: what a sketch materializes to through one LUT, with its
//!   provenance;
//! - [`full_image`]: the union over a LUT family;
//! - [`context_tree_for`]: the working set as a tree with per-leaf views;
//! - [`unified_context_for`]: tree, follow matrix and full-image views.
//!
//! Content keys and digests are computed by functions that the caller
//! supplies.

use crate::context;
use crate::context::{ContextMatrix, MatrixModel};
use crate::context_unified::Context;
use crate::index;
use crate::index::LutIndex;
use crate::lattice::HLLSet;
use crate::order;
use crate::tid;
use crate::tree;
use crate::tree::{ContextTree, Leaf, LeafMap};
use crate::views;
use crate::views::{ViewModel, ViewRecord};
use crate::TokenId;
use vstd::prelude::*;

verus! {

/// A LUT with its name.
#[derive(Debug)]
pub struct NamedLut {
    pub name: String,
    pub lut: LutIndex,
}

/// One item of a working set: a sketch, its source ids and the LUT family to
/// restore it through.
pub struct WorkItem<'a> {
    pub sketch: &'a HLLSet,
    pub ids: &'a [TokenId],
    pub luts: &'a [NamedLut],
}

/// The token is that of some id.
pub open spec fn is_tid(t: Seq<u8>) -> bool {
    exists|n: TokenId| t == #[trigger] tid::tid(n)
}

/// The id tokens that a sketch materializes to through a LUT.
pub open spec fn view_image(m: Map<Seq<u8>, index::Slot>, h: Set<u32>) -> Set<Seq<u8>> {
    index::image(m, h).intersect(Set::new(|t: Seq<u8>| is_tid(t)))
}

/// The id tokens that a sketch materializes to through any LUT of a family.
pub open spec fn family_image(luts: Seq<NamedLut>, h: Set<u32>) -> Set<Seq<u8>> {
    Set::new(
        |t: Seq<u8>|
            exists|j: int|
                0 <= j < luts.len() && #[trigger] view_image(luts[j].lut@, h).contains(t),
    )
}

/// Every LUT of a family is well-formed.
pub open spec fn family_wf(luts: Seq<NamedLut>) -> bool {
    forall|j: int| 0 <= j < luts.len() ==> (#[trigger] luts[j]).lut.wf()
}

/// `v` is a record of the tokens `image` of the sketch of `ids` under the name
/// `l`.
pub open spec fn is_record<
    K: Fn(&Vec<Vec<u8>>) -> String,
    D: Fn(&Vec<Vec<u8>>) -> String,
>(v: ViewModel, ids: Seq<TokenId>, l: Seq<char>, image: Set<Seq<u8>>, key: &K, digest: &D) -> bool {
    &&& views::names(key, tid::tids(ids), v.h)
    &&& v.l == l
    &&& order::ascending_tokens(v.tokens)
    &&& v.tokens.to_set() == image
    &&& views::names(digest, v.tokens, v.digest)
}

/// `leaf` is the leaf of an item: its key, and for each LUT the digest of the
/// item's view through it.
pub open spec fn is_leaf<
    K: Fn(&Vec<Vec<u8>>) -> String,
    D: Fn(&Vec<Vec<u8>>) -> String,
>(leaf: Leaf, item: WorkItem, key: &K, digest: &D) -> bool {
    &&& views::names(key, tid::tids(item.ids@), leaf.h@)
    &&& leaf.views@.len() == item.luts@.len()
    &&& forall|j: int|
        0 <= j < leaf.views@.len() ==> (#[trigger] leaf.views@[j]).0@ == item.luts@[j].name@
            && digests(
            leaf.views@[j].1@,
            view_image(item.luts@[j].lut@, item.sketch@),
            digest,
        )
}

/// `name` is a digest of the tokens `image` in byte order.
pub open spec fn digests<D: Fn(&Vec<Vec<u8>>) -> String>(
    name: Seq<char>,
    image: Set<Seq<u8>>,
    digest: &D,
) -> bool {
    exists|ts: Seq<Seq<u8>>|
        order::ascending_tokens(ts) && ts.to_set() == image && #[trigger] views::names(
            digest,
            ts,
            name,
        )
}

/// The sketch and the LUTs of an item are well-formed.
pub open spec fn item_wf(item: WorkItem) -> bool {
    item.sketch.wf() && family_wf(item.luts@)
}

/// The leaves belong to the items, one to one.
pub open spec fn are_leaves<
    K: Fn(&Vec<Vec<u8>>) -> String,
    D: Fn(&Vec<Vec<u8>>) -> String,
>(leaves: Seq<Leaf>, items: Seq<WorkItem>, key: &K, digest: &D) -> bool {
    &&& leaves.len() == items.len()
    &&& forall|k: int|
        0 <= k < leaves.len() ==> is_leaf(#[trigger] leaves[k], items[k], key, digest)
}

/// `m` is the tree over the leaves of the items.
pub open spec fn is_tree<
    K: Fn(&Vec<Vec<u8>>) -> String,
    D: Fn(&Vec<Vec<u8>>) -> String,
>(m: LeafMap, items: Seq<WorkItem>, key: &K, digest: &D) -> bool {
    exists|leaves: Seq<Leaf>| #[trigger]
        are_leaves(leaves, items, key, digest) && m == tree::place_all(Map::empty(), leaves)
}

/// The source ids of the items.
pub open spec fn sources(items: Seq<WorkItem>) -> Seq<Seq<TokenId>> {
    items.map_values(|item: WorkItem| item.ids@)
}

/// The content key of a sketch, from its source token ids.
pub fn h_key<K: Fn(&Vec<Vec<u8>>) -> String>(ids: &[TokenId], key: &K) -> (r: String)
    requires
        views::total(key),
    ensures
        views::names(key, tid::tids(ids@), r@),
{
    let tokens = tid::tokens_in_bytes(ids);
    views::name_of(&tokens, key)
}

/// The id tokens that a sketch materializes to through a LUT, in byte order.
pub fn view_tokens(sketch: &HLLSet, lut: &LutIndex) -> (r: Vec<Vec<u8>>)
    requires
        sketch.wf(),
        lut.wf(),
    ensures
        order::ascending_tokens(order::tokens(r@)),
        order::tokens(r@).to_set() == view_image(lut@, sketch@),
{
    let all = lut.materialize(sketch);
    let ghost found = order::tokens(all@);
    let mut r: Vec<Vec<u8>> = Vec::new();
    assert(order::tokens(r@).to_set() =~= Set::<Seq<u8>>::empty());
    for i in 0..all.len()
        invariant
            found == order::tokens(all@),
            order::ascending_tokens(order::tokens(r@)),
            forall|t: Seq<u8>| #[trigger]
                order::tokens(r@).to_set().contains(t) <==> is_tid(t) && found.take(
                    i as int,
                ).contains(t),
    {
        let ghost r0 = order::tokens(r@).to_set();
        let ghost x = found[i as int];
        let id = tid::parse_token_id(all[i].as_slice());
        if let Some(n) = id {
            order::insert_token(&mut r, tid::token_in_bytes(n));
            assert(order::tokens(r@).to_set() == r0.insert(x));
            assert(is_tid(x));
        } else {
            assert(!is_tid(x));
        }
        proof {
            let t0 = found.take(i as int);
            let t1 = found.take(i + 1);
            assert(t1 =~= t0.push(x));
            t0.lemma_push_to_set_commute(x);
            assert forall|t: Seq<u8>| #[trigger]
                order::tokens(r@).to_set().contains(t) <==> is_tid(t) && t1.contains(t) by {
                assert(t1.to_set().contains(t) <==> t0.to_set().contains(t) || t == x);
                assert(r0.contains(t) <==> is_tid(t) && t0.contains(t));
            }
        }
    }
    proof {
        assert(found.take(found.len() as int) =~= found);
        assert forall|t: Seq<u8>| #[trigger]
            order::tokens(r@).to_set().contains(t) <==> view_image(lut@, sketch@).contains(t) by {
            assert(found.to_set().contains(t) <==> found.contains(t));
        }
        assert(order::tokens(r@).to_set() =~= view_image(lut@, sketch@));
    }
    r
}

/// Materialize a sketch through one LUT.
pub fn view_record<K: Fn(&Vec<Vec<u8>>) -> String, D: Fn(&Vec<Vec<u8>>) -> String>(
    sketch: &HLLSet,
    ids: &[TokenId],
    lut: &LutIndex,
    l: &str,
    key: &K,
    digest: &D,
) -> (r: ViewRecord)
    requires
        sketch.wf(),
        lut.wf(),
        views::total(key),
        views::total(digest),
    ensures
        is_record(r@, ids@, l@, view_image(lut@, sketch@), key, digest),
{
    let tokens = view_tokens(sketch, lut);
    ViewRecord::new(h_key(ids, key), l.to_owned(), tokens.as_slice(), digest)
}

/// The full image: the union of the views through each LUT of the family.
pub fn full_image<K: Fn(&Vec<Vec<u8>>) -> String, D: Fn(&Vec<Vec<u8>>) -> String>(
    sketch: &HLLSet,
    ids: &[TokenId],
    luts: &[NamedLut],
    key: &K,
    digest: &D,
) -> (r: ViewRecord)
    requires
        sketch.wf(),
        family_wf(luts@),
        views::total(key),
        views::total(digest),
    ensures
        is_record(r@, ids@, "all"@, family_image(luts@, sketch@), key, digest),
{
    let mut tokens: Vec<Vec<u8>> = Vec::new();
    for j in 0..luts.len()
        invariant
            sketch.wf(),
            family_wf(luts@),
            forall|t: Seq<u8>| #[trigger]
                order::tokens(tokens@).contains(t) <==> (exists|i: int|
                    0 <= i < j && #[trigger] view_image(luts@[i].lut@, sketch@).contains(t)),
    {
        let mut more = view_tokens(sketch, &luts[j].lut);
        let ghost a = order::tokens(tokens@);
        let ghost b = order::tokens(more@);
        tokens.append(&mut more);
        proof {
            assert(order::tokens(tokens@) =~= a + b);
            assert forall|t: Seq<u8>| #[trigger]
                order::tokens(tokens@).contains(t) <==> (exists|i: int|
                    0 <= i < j + 1 && #[trigger] view_image(luts@[i].lut@, sketch@).contains(
                        t,
                    )) by {
                lemma_concatenated(a, b, t);
                assert(b.to_set().contains(t) <==> view_image(luts@[j as int].lut@, sketch@).contains(
                    t,
                ));
            }
        }
    }
    proof {
        assert forall|t: Seq<u8>| #[trigger]
            order::tokens(tokens@).to_set().contains(t) <==> family_image(
                luts@,
                sketch@,
            ).contains(t) by {
            assert(order::tokens(tokens@).to_set().contains(t) <==> order::tokens(
                tokens@,
            ).contains(t));
        }
        assert(order::tokens(tokens@).to_set() =~= family_image(luts@, sketch@));
    }
    ViewRecord::new(h_key(ids, key), "all".to_owned(), tokens.as_slice(), digest)
}

proof fn lemma_concatenated(a: Seq<Seq<u8>>, b: Seq<Seq<u8>>, t: Seq<u8>)
    ensures
        (a + b).contains(t) <==> a.contains(t) || b.contains(t),
{
    let c = a + b;
    if a.contains(t) {
        assert(c[a.index_of(t)] == t);
    }
    if b.contains(t) {
        assert(c[a.len() + b.index_of(t)] == t);
    }
    if c.contains(t) {
        let k = c.index_of(t);
        if k < a.len() {
            assert(a[k] == t);
        } else {
            assert(b[k - a.len()] == t);
        }
    }
}

/// The leaf of one item: its key and its per-LUT view keys.
pub fn leaf_for<K: Fn(&Vec<Vec<u8>>) -> String, D: Fn(&Vec<Vec<u8>>) -> String>(
    item: &WorkItem,
    key: &K,
    digest: &D,
) -> (r: Leaf)
    requires
        item_wf(*item),
        views::total(key),
        views::total(digest),
    ensures
        is_leaf(r, *item, key, digest),
{
    let mut pairs: Vec<(String, String)> = Vec::new();
    for j in 0..item.luts.len()
        invariant
            item_wf(*item),
            views::total(key),
            views::total(digest),
            pairs@.len() == j,
            forall|i: int|
                0 <= i < j ==> (#[trigger] pairs@[i]).0@ == item.luts@[i].name@ && digests(
                    pairs@[i].1@,
                    view_image(item.luts@[i].lut@, item.sketch@),
                    digest,
                ),
    {
        let named = &item.luts[j];
        let record = view_record(
            item.sketch,
            item.ids,
            &named.lut,
            named.name.as_str(),
            key,
            digest,
        );
        let ghost v = record@;
        assert(views::names(digest, v.tokens, v.digest));
        assert(digests(v.digest, view_image(named.lut@, item.sketch@), digest));
        pairs.push((named.name.clone(), record.digest));
    }
    Leaf { h: h_key(item.ids, key), views: pairs }
}

/// Build the context tree of a working set.
pub fn context_tree_for<K: Fn(&Vec<Vec<u8>>) -> String, D: Fn(&Vec<Vec<u8>>) -> String>(
    items: &[WorkItem],
    key: &K,
    digest: &D,
) -> (r: ContextTree)
    requires
        forall|k: int| 0 <= k < items@.len() ==> item_wf(#[trigger] items@[k]),
        views::total(key),
        views::total(digest),
    ensures
        r.wf(),
        is_tree(r@, items@, key, digest),
{
    let mut leaves: Vec<Leaf> = Vec::new();
    for i in 0..items.len()
        invariant
            forall|k: int| 0 <= k < items@.len() ==> item_wf(#[trigger] items@[k]),
            views::total(key),
            views::total(digest),
            leaves@.len() == i,
            forall|k: int| 0 <= k < i ==> is_leaf(#[trigger] leaves@[k], items@[k], key, digest),
    {
        leaves.push(leaf_for(&items[i], key, digest));
    }
    assert(are_leaves(leaves@, items@, key, digest));
    ContextTree::build(leaves.as_slice())
}

/// Build the unified context of a working set: the tree, the grow-only follow
/// matrix over each item's bigrams, and the full-image views.
pub fn unified_context_for<K: Fn(&Vec<Vec<u8>>) -> String, D: Fn(&Vec<Vec<u8>>) -> String>(
    items: &[WorkItem],
    key: &K,
    digest: &D,
) -> (r: Context)
    requires
        forall|k: int| 0 <= k < items@.len() ==> item_wf(#[trigger] items@[k]),
        views::total(key),
        views::total(digest),
        context::square_fits(MatrixModel::empty().learn_all(sources(items@)).nodes.len()),
    ensures
        r.wf(),
        is_tree(r@.tree, items@, key, digest),
        r@.matrix == MatrixModel::empty().learn_all(sources(items@)),
        r@.views.len() == items@.len(),
        forall|k: int|
            0 <= k < items@.len() ==> is_record(
                #[trigger] r@.views[k],
                items@[k].ids@,
                "all"@,
                family_image(items@[k].luts@, items@[k].sketch@),
                key,
                digest,
            ),
{
    let tree = context_tree_for(items, key, digest);
    let mut matrix = ContextMatrix::new();
    let mut images: Vec<ViewRecord> = Vec::new();
    let ghost seqs = sources(items@);
    assert(seqs.take(0) =~= Seq::empty());
    for i in 0..items.len()
        invariant
            forall|k: int| 0 <= k < items@.len() ==> item_wf(#[trigger] items@[k]),
            views::total(key),
            views::total(digest),
            seqs == sources(items@),
            context::square_fits(MatrixModel::empty().learn_all(seqs).nodes.len()),
            matrix.wf(),
            matrix@ == MatrixModel::empty().learn_all(seqs.take(i as int)),
            images@.len() == i,
            forall|k: int|
                0 <= k < i ==> is_record(
                    (#[trigger] images@[k])@,
                    items@[k].ids@,
                    "all"@,
                    family_image(items@[k].luts@, items@[k].sketch@),
                    key,
                    digest,
                ),
    {
        let item = &items[i];
        proof {
            assert(seqs.take(i + 1).drop_last() =~= seqs.take(i as int));
            context::lemma_learn_all_prefix(MatrixModel::empty(), seqs, i + 1);
            context::lemma_smaller_square(
                MatrixModel::empty().learn_all(seqs.take(i + 1)).nodes.len(),
                MatrixModel::empty().learn_all(seqs).nodes.len(),
            );
        }
        matrix.learn(item.ids);
        images.push(full_image(item.sketch, item.ids, item.luts, key, digest));
    }
    assert(seqs.take(seqs.len() as int) =~= seqs);
    let ghost made = images@;
    let r = Context::build(tree, matrix, images);
    proof {
        assert forall|k: int| 0 <= k < items@.len() implies is_record(
            #[trigger] r@.views[k],
            items@[k].ids@,
            "all"@,
            family_image(items@[k].luts@, items@[k].sketch@),
            key,
            digest,
        ) by {
            assert(r@.views[k] == made[k]@);
        }
    }
    r
}

// ── Laws ───────────────────────────────────────────────────────────────────

/// The full image through a family is one materialization through each LUT:
/// it grows with the family and holds every single view.
pub proof fn full_image_holds_every_view(luts: Seq<NamedLut>, h: Set<u32>, j: int)
    requires
        0 <= j < luts.len(),
    ensures
        view_image(luts[j].lut@, h).subset_of(family_image(luts, h)),
        family_image(luts.drop_last(), h).subset_of(family_image(luts, h)),
{
    assert forall|t: Seq<u8>| #[trigger]
        family_image(luts.drop_last(), h).contains(t) implies family_image(luts, h).contains(
        t,
    ) by {
        let short = luts.drop_last();
        let i = choose|i: int|
            0 <= i < short.len() && #[trigger] view_image(short[i].lut@, h).contains(t);
        assert(view_image(luts[i].lut@, h).contains(t));
    }
}

/// An id whose token a LUT of the family holds at an active address is
/// restored in the full image.
pub proof fn covered_ids_are_restored(luts: Seq<NamedLut>, h: Set<u32>, j: int, n: TokenId)
    requires
        0 <= j < luts.len(),
        luts[j].lut@.contains_key(tid::tid(n)),
        h.contains(luts[j].lut@[tid::tid(n)].cell),
    ensures
        family_image(luts, h).contains(tid::tid(n)),
{
    assert(is_tid(tid::tid(n)));
    assert(view_image(luts[j].lut@, h).contains(tid::tid(n)));
}

} // verus!
