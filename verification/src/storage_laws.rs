//! Laws of the reverse index and of the storages.

use crate::index;
use crate::index::{HashedToken, Slot};
use crate::kstorage;
use crate::kstorage::CatalogModel;
use crate::lattice;
use vstd::prelude::*;

verus! {

// ── The LUT lattice ────────────────────────────────────────────────────────

/// Registering a token twice is registering it once.
pub proof fn registration_is_idempotent(m: Map<Seq<u8>, Slot>, t: HashedToken)
    ensures
        index::enter(index::enter(m, t), t) == index::enter(m, t),
{
}

/// The index is append-only: registration forgets no token and moves none.
pub proof fn registration_is_append_only(m: Map<Seq<u8>, Slot>, t: HashedToken)
    ensures
        m.submap_of(index::enter(m, t)),
        index::enter(m, t).contains_key(t.bytes@),
{
}

/// Materialization is a join-homomorphism in the LUT: the image through the
/// join of two agreeing LUTs is the union of the images.
pub proof fn image_of_a_joined_lut(l1: Map<Seq<u8>, Slot>, l2: Map<Seq<u8>, Slot>, h: Set<u32>)
    requires
        l1.agrees(l2),
    ensures
        index::image(l1.union_prefer_right(l2), h) == index::image(l1, h).union(
            index::image(l2, h),
        ),
{
    let l = l1.union_prefer_right(l2);
    assert forall|t: Seq<u8>| #[trigger]
        index::image(l, h).contains(t) == index::image(l1, h).union(index::image(l2, h)).contains(
            t,
        ) by {
        if l1.contains_key(t) && l2.contains_key(t) {
            assert(l1.dom().contains(t) && l2.dom().contains(t));
            assert(l1[t] == l2[t]);
        }
    }
    assert(index::image(l, h) =~= index::image(l1, h).union(index::image(l2, h)));
}

/// Materialization is a join-homomorphism in the sketch, and the empty sketch
/// has an empty image.
pub proof fn image_of_a_joined_sketch(m: Map<Seq<u8>, Slot>, h1: Set<u32>, h2: Set<u32>)
    ensures
        index::image(m, h1.union(h2)) == index::image(m, h1).union(index::image(m, h2)),
        index::image(m, Set::empty()) == Set::<Seq<u8>>::empty(),
{
    assert(index::image(m, h1.union(h2)) =~= index::image(m, h1).union(index::image(m, h2)));
    assert(index::image(m, Set::empty()) =~= Set::<Seq<u8>>::empty());
}

/// The image of a sketch is the union of the fibers of its addresses.
pub proof fn image_is_the_union_of_fibers(m: Map<Seq<u8>, Slot>, h: Set<u32>, t: Seq<u8>)
    ensures
        index::image(m, h).contains(t) <==> (exists|bit: u32|
            h.contains(bit) && #[trigger] index::fiber(m, bit).contains(t)),
{
    if index::image(m, h).contains(t) {
        assert(index::fiber(m, m[t].cell).contains(t));
    }
}

/// The fibers partition the registered tokens: each token stands in the fiber
/// of one address alone.
pub proof fn fibers_partition_the_tokens(m: Map<Seq<u8>, Slot>, t: Seq<u8>, a: u32, b: u32)
    requires
        m.contains_key(t),
    ensures
        index::fiber(m, m[t].cell).contains(t),
        index::fiber(m, a).contains(t) && index::fiber(m, b).contains(t) ==> a == b,
{
}

/// The sketch of a LUT restores the LUT: every registered token is in its
/// image, every bit of it resolves, and nothing smaller restores as much.
pub proof fn a_lut_is_restored_from_its_sketch(m: Map<Seq<u8>, Slot>, h: Set<u32>)
    ensures
        index::image(m, index::sketch(m)) == m.dom(),
        forall|bit: u32| #[trigger]
            index::sketch(m).contains(bit) ==> index::resolves(m, bit),
        index::image(m, h) == m.dom() ==> index::sketch(m).subset_of(h),
{
    assert forall|t: Seq<u8>| #[trigger]
        index::image(m, index::sketch(m)).contains(t) == m.dom().contains(t) by {
        if m.contains_key(t) {
            assert(index::resolves(m, m[t].cell));
        }
    }
    assert(index::image(m, index::sketch(m)) =~= m.dom());
    if index::image(m, h) == m.dom() {
        assert forall|bit: u32| #[trigger] index::sketch(m).contains(bit) implies h.contains(
            bit,
        ) by {
            let t = choose|t: Seq<u8>| #[trigger] m.contains_key(t) && m[t].cell == bit;
            assert(m.dom().contains(t));
            assert(index::image(m, h).contains(t));
        }
    }
}

/// Registration never lowers coverage: what resolved still does, and the new
/// token's address does.
pub proof fn registration_keeps_coverage(m: Map<Seq<u8>, Slot>, t: HashedToken, bit: u32)
    ensures
        index::resolves(m, bit) ==> index::resolves(index::enter(m, t), bit),
        !m.contains_key(t.bytes@) ==> index::resolves(
            index::enter(m, t),
            lattice::address(t.position),
        ),
{
    let n = index::enter(m, t);
    if index::resolves(m, bit) {
        let x = choose|x: Seq<u8>| #[trigger] m.contains_key(x) && m[x].cell == bit;
        assert(n.contains_key(x) && n[x].cell == bit);
    }
    assert(n.contains_key(t.bytes@));
}

// ── The catalog ────────────────────────────────────────────────────────────

/// Registering a value twice is registering it once, and no registered value
/// leaves its place.
pub proof fn catalog_registration_is_idempotent(values: Seq<Seq<u8>>, v: Seq<u8>)
    ensures
        kstorage::add_value(kstorage::add_value(values, v), v) == kstorage::add_value(values, v),
        values.is_prefix_of(kstorage::add_value(values, v)),
        kstorage::add_value(values, v).contains(v),
{
    let w = kstorage::add_value(values, v);
    if !values.contains(v) {
        assert(w[w.len() - 1] == v);
    }
}

proof fn lemma_filter_grows(row: Seq<u32>, h1: Set<u32>, h2: Set<u32>)
    requires
        h1.subset_of(h2),
    ensures
        row.filter(|bit: u32| h1.contains(bit)).len() <= row.filter(
            |bit: u32| h2.contains(bit),
        ).len() <= row.len(),
        (forall|s: int| 0 <= s < row.len() ==> h2.contains(#[trigger] row[s])) ==> row.filter(
            |bit: u32| h2.contains(bit),
        ).len() == row.len(),
    decreases row.len(),
{
    let f1 = |bit: u32| h1.contains(bit);
    let f2 = |bit: u32| h2.contains(bit);
    if row.len() == 0 {
        assert(row.filter(f1) =~= Seq::empty());
        assert(row.filter(f2) =~= Seq::empty());
    } else {
        let init = row.drop_last();
        lemma_filter_grows(init, h1, h2);
        init.lemma_filter_push(row.last(), f1);
        init.lemma_filter_push(row.last(), f2);
        assert(init.push(row.last()) =~= row);
        if forall|s: int| 0 <= s < row.len() ==> h2.contains(#[trigger] row[s]) {
            assert forall|s: int| 0 <= s < init.len() implies h2.contains(#[trigger] init[s]) by {
                assert(h2.contains(row[s]));
            }
            assert(h2.contains(row[row.len() - 1]));
        }
    }
}

/// A larger sketch supports at least the values of a smaller one.
pub proof fn support_is_monotone(h1: Set<u32>, h2: Set<u32>, row: Seq<(u32, u32)>, quorum: nat)
    requires
        h1.subset_of(h2),
    ensures
        kstorage::hits(h1, row) >= quorum ==> kstorage::hits(h2, row) >= quorum,
{
    lemma_filter_grows(kstorage::addresses(row), h1, h2);
}

/// A value all of whose cells are active is supported, whatever the seeds.
pub proof fn full_rows_are_supported(c: CatalogModel, h: Set<u32>, row: Seq<(u32, u32)>)
    requires
        c.seeds.len() >= 2,
        row.len() == c.seeds.len(),
        forall|s: int| 0 <= s < row.len() ==> h.contains(lattice::address(#[trigger] row[s])),
    ensures
        kstorage::hits(h, row) >= c.quorum(),
{
    let cells = kstorage::addresses(row);
    assert forall|s: int| 0 <= s < cells.len() implies h.contains(#[trigger] cells[s]) by {
        assert(h.contains(lattice::address(row[s])));
    }
    lemma_filter_grows(cells, h, h);
}

} // verus!
