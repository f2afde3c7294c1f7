//! What sketches, the reverse index and the catalog hold, stated of addresses,
//! slots and places.

use crate::count;
use crate::grounding_laws;
use crate::hashing;
use crate::index;
use crate::index::{HashedToken, Slot};
use crate::kstorage;
use crate::kstorage::{CatalogModel, Coverage, KeyRef};
use crate::lattice;
use crate::lut_laws;
use crate::order;
use crate::tid;
use crate::TokenId;
use vstd::prelude::*;

verus! {

// ── Addresses and orders ───────────────────────────────────────────────────

/// A sketch has 1024 registers of 32 bits, and an address counts them through:
/// thirty-two to a register.
pub proof fn addresses_count_the_bits(p: (u32, u32), bit: u32)
    ensures
        lattice::in_grid(p) <==> p.0 < 1024 && p.1 < 32,
        lattice::in_grid(p) ==> lattice::address(p) == 32 * p.0 + p.1,
        bit == 32 * lattice::position(bit).0 + lattice::position(bit).1,
        lattice::position(bit).1 < 32,
        lattice::TOTAL_BITS == 1024 * 32,
{
}

/// Ascending lists rise at every step, in numbers or in byte order.
pub proof fn ascending_lists_rise(
    s: Seq<u32>,
    t: Seq<Seq<u8>>,
    v: Seq<Vec<u8>>,
    i: int,
    j: int,
)
    requires
        0 <= i < j,
    ensures
        order::ascending(s) && j < s.len() ==> s[i] < s[j],
        order::ascending_tokens(t) && j < t.len() ==> exists|k: int|
            #![trigger t[i].take(k)]
            0 <= k <= t[i].len() && k < t[j].len() && t[i].take(k) == t[j].take(k) && (k
                == t[i].len() || t[i][k] < t[j][k]),
        order::tokens(v).len() == v.len(),
        j < v.len() ==> order::tokens(v)[i] == v[i]@ && order::tokens(v)[j] == v[j]@,
{
    if order::ascending_tokens(t) && j < t.len() {
        assert(order::before(t[i], t[j]));
        lut_laws::byte_order_is_decided_at_the_first_difference(t[i], t[j]);
    }
}

/// What is seen is listed once, in the order of first sight: what the start of
/// a list shows comes first.
pub proof fn first_sights_are_listed_once_and_in_turn(s: Seq<Seq<u8>>, k: int, t: Seq<u8>)
    requires
        0 <= k <= s.len(),
    ensures
        order::first_seen(s).contains(t) <==> s.contains(t),
        order::first_seen(s).no_duplicates(),
        order::first_seen(s.take(k)).is_prefix_of(order::first_seen(s)),
        order::first_seen(s).len() <= s.len(),
        s.no_duplicates() ==> order::first_seen(s) == s,
    decreases s.len(),
{
    if s.len() > 0 {
        let init = s.drop_last();
        let n = s.len() - 1;
        first_sights_are_listed_once_and_in_turn(init, 0, t);
        first_sights_are_listed_once_and_in_turn(init, 0, s.last());
        let rest = order::first_seen(init);
        let all = order::first_seen(s);
        if s.contains(t) {
            let i = s.index_of(t);
            if i < n {
                assert(init[i] == t);
            }
        }
        if init.contains(t) {
            let i = init.index_of(t);
            assert(s[i] == t);
        }
        assert(s[n] == s.last());
        if rest.contains(t) {
            let i = rest.index_of(t);
            assert(all[i] == t);
        }
        if !rest.contains(s.last()) {
            assert(all[rest.len() as int] == s.last());
        }
        if s.no_duplicates() {
            if init.contains(s.last()) {
                let i = init.index_of(s.last());
                assert(s[i] == s[n]);
            }
            assert(all =~= s);
        }
    }
    if k == s.len() {
        assert(s.take(k) =~= s);
    } else {
        first_sights_are_listed_once_and_in_turn(s.drop_last(), k, t);
        assert(s.drop_last().take(k) =~= s.take(k));
    }
}

// ── Inscriptions ───────────────────────────────────────────────────────────

/// The token of an id is the bytes `t`, `i`, `d` and the digits of the id: the
/// token of an id of one digit ends in it, and one more digit stands behind
/// the token of the digits before.
pub proof fn inscriptions_spell_their_id(n: TokenId, d: TokenId, ids: Seq<TokenId>, k: int)
    requires
        d < 10,
        n * 10 + d <= u32::MAX,
        0 <= k < ids.len(),
    ensures
        tid::tid(d) == seq!['t' as u8, 'i' as u8, 'd' as u8, (48 + d) as u8],
        n > 0 ==> tid::tid((n * 10 + d) as u32) == tid::tid(n).push((48 + d) as u8),
        tid::tids(ids).len() == ids.len(),
        tid::tids(ids)[k] == tid::tid(ids[k]),
{
    crate::text_laws::numerals_are_written_place_by_place(n as nat, d as nat);
    let m = (n * 10 + d) as u32;
    let one = crate::text::decimal(d as nat);
    assert(one =~= seq![one[0]]);
    assert(one[0] as u8 == (48 + d) as u8);
    assert(tid::numeral_bytes(d as nat) =~= seq![(48 + d) as u8]);
    assert(tid::tid(d) =~= seq!['t' as u8, 'i' as u8, 'd' as u8, (48 + d) as u8]);
    if n > 0 {
        assert(tid::numeral_bytes(m as nat) =~= tid::numeral_bytes(n as nat) + tid::numeral_bytes(
            d as nat,
        ));
        assert(tid::tid(m) =~= tid::tid(n).push((48 + d) as u8));
    }
}

// ── The reverse index ──────────────────────────────────────────────────────

/// Entering a token adds its slot, the address of its position and its hash,
/// unless the token is there already; no other token is touched.
pub proof fn entering_adds_one_slot(m: Map<Seq<u8>, Slot>, t: HashedToken, u: Seq<u8>)
    ensures
        index::enter(m, t).contains_key(u) <==> m.contains_key(u) || u == t.bytes@,
        m.contains_key(u) ==> index::enter(m, t)[u] == m[u],
        !m.contains_key(t.bytes@) ==> index::enter(m, t)[t.bytes@].hash == t.hash,
        !m.contains_key(t.bytes@) && t.position.0 < 1024 && t.position.1 < 32 ==> index::enter(
            m,
            t,
        )[t.bytes@].cell == 32 * t.position.0 + t.position.1,
{
}

/// Entering a list registers exactly its tokens, each with the slot that it
/// first came with.
pub proof fn entering_a_list_keeps_first_slots(
    m: Map<Seq<u8>, Slot>,
    ts: Seq<HashedToken>,
    u: Seq<u8>,
    k: int,
)
    ensures
        index::enter_all(m, ts).contains_key(u) <==> m.contains_key(u) || (exists|j: int|
            0 <= j < ts.len() && (#[trigger] ts[j]).bytes@ == u),
        m.contains_key(u) ==> index::enter_all(m, ts)[u] == m[u],
        !m.contains_key(u) && 0 <= k < ts.len() && ts[k].bytes@ == u && (forall|j: int|
            0 <= j < k ==> (#[trigger] ts[j]).bytes@ != u) ==> index::enter_all(m, ts)[u].hash
            == ts[k].hash && index::enter_all(m, ts)[u].cell == lattice::address(ts[k].position),
        index::bytes_of(ts).len() == ts.len(),
        0 <= k < ts.len() ==> index::bytes_of(ts)[k] == ts[k].bytes@,
    decreases ts.len(),
{
    if ts.len() > 0 {
        let init = ts.drop_last();
        let n = ts.len() - 1;
        entering_a_list_keeps_first_slots(m, init, u, k);
        if exists|j: int| 0 <= j < init.len() && (#[trigger] init[j]).bytes@ == u {
            let j = choose|j: int| 0 <= j < init.len() && (#[trigger] init[j]).bytes@ == u;
            assert(ts[j].bytes@ == u);
        }
        if exists|j: int| 0 <= j < ts.len() && (#[trigger] ts[j]).bytes@ == u {
            let j = choose|j: int| 0 <= j < ts.len() && (#[trigger] ts[j]).bytes@ == u;
            if j < n {
                assert(init[j].bytes@ == u);
            }
        }
        assert(ts[n] == ts.last());
        if 0 <= k < n {
            assert(init[k] == ts[k]);
            if forall|j: int| 0 <= j < k ==> (#[trigger] ts[j]).bytes@ != u {
                assert forall|j: int| 0 <= j < k implies (#[trigger] init[j]).bytes@ != u by {
                    assert(ts[j].bytes@ != u);
                }
            }
        }
        if k == n && (forall|j: int| 0 <= j < k ==> (#[trigger] ts[j]).bytes@ != u) {
            assert forall|j: int| 0 <= j < init.len() implies (#[trigger] init[j]).bytes@ != u by {
                assert(ts[j].bytes@ != u);
            }
        }
    }
}

/// A token is found through its own address and through no other.
pub proof fn tokens_are_found_at_their_address(
    m: Map<Seq<u8>, Slot>,
    h: Set<u32>,
    t: Seq<u8>,
    bit: u32,
)
    ensures
        index::fiber(m, bit).contains(t) <==> m.contains_key(t) && m[t].cell == bit,
        index::image(m, h).contains(t) <==> m.contains_key(t) && h.contains(m[t].cell),
        index::resolves(m, bit) <==> (exists|u: Seq<u8>| #[trigger]
            m.contains_key(u) && m[u].cell == bit),
        index::sketch(m).contains(bit) <==> (exists|u: Seq<u8>| #[trigger]
            m.contains_key(u) && m[u].cell == bit),
{
}

/// A hash resolves to the token that is registered under it at the position it
/// decides, to the first in byte order where there are several, and to none
/// where there is none.
pub proof fn hashes_resolve_to_the_first_token(
    m: Map<Seq<u8>, Slot>,
    hash: u64,
    p: (u32, u32),
    r: Option<Vec<u8>>,
    u: Seq<u8>,
)
    requires
        kstorage::is_resolution(m, hash, p, r),
        p.0 < 1024,
        p.1 < 32,
        m.contains_key(u),
        m[u].hash == hash,
        m[u].cell == 32 * p.0 + p.1,
    ensures
        r is Some,
        m.contains_key(r->0@),
        m[r->0@].hash == hash,
        m[r->0@].cell == 32 * p.0 + p.1,
        r->0@ != u ==> order::before(r->0@, u),
{
    assert(kstorage::addressed(m, u, hash, p));
}

/// Nothing is resolved but what is registered under the hash.
pub proof fn unregistered_hashes_resolve_to_nothing(
    m: Map<Seq<u8>, Slot>,
    hash: u64,
    p: (u32, u32),
    r: Option<Vec<u8>>,
)
    requires
        kstorage::is_resolution(m, hash, p, r),
        forall|u: Seq<u8>| #[trigger] m.contains_key(u) ==> m[u].hash != hash,
    ensures
        r is None,
{
}

// ── The catalog ────────────────────────────────────────────────────────────

/// Values are registered once, behind those before them, in turn.
pub proof fn values_are_registered_once_and_in_turn(
    values: Seq<Seq<u8>>,
    more: Seq<Seq<u8>>,
    k: int,
    v: Seq<u8>,
)
    requires
        0 <= k <= more.len(),
    ensures
        values.is_prefix_of(kstorage::add_values(values, more)),
        kstorage::add_values(values, more).contains(v) <==> values.contains(v) || more.contains(v),
        values.no_duplicates() ==> kstorage::add_values(values, more).no_duplicates(),
        kstorage::add_values(values, more.take(k)).is_prefix_of(
            kstorage::add_values(values, more),
        ),
        kstorage::add_values(values, seq![v]) == kstorage::add_value(values, v),
    decreases more.len(),
{
    let one = seq![v];
    assert(one.drop_last() =~= Seq::empty());
    assert(kstorage::add_values(values, one.drop_last()) == values);
    if more.len() > 0 {
        let init = more.drop_last();
        let n = more.len() - 1;
        values_are_registered_once_and_in_turn(values, init, 0, v);
        let rest = kstorage::add_values(values, init);
        let all = kstorage::add_values(values, more);
        if more.contains(v) {
            let i = more.index_of(v);
            if i < n {
                assert(init[i] == v);
            }
        }
        if init.contains(v) {
            let i = init.index_of(v);
            assert(more[i] == v);
        }
        assert(more[n] == more.last());
        if rest.contains(v) {
            let i = rest.index_of(v);
            assert(all[i] == v);
        }
        if !rest.contains(more.last()) {
            assert(all[rest.len() as int] == more.last());
        }
    }
    if k == more.len() {
        assert(more.take(k) =~= more);
    } else {
        values_are_registered_once_and_in_turn(values, more.drop_last(), k, v);
        assert(more.drop_last().take(k) =~= more.take(k));
    }
}

/// A sketch hits a row as often as it holds the address of one of its
/// positions.
pub proof fn hits_are_counted_by_seed(h: Set<u32>, row: Seq<(u32, u32)>)
    ensures
        kstorage::hits(h, row) == Set::new(
            |s: int| 0 <= s < row.len() && h.contains(lattice::address(row[s])),
        ).len(),
        kstorage::addresses(row).len() == row.len(),
        forall|s: int|
            0 <= s < row.len() ==> #[trigger] kstorage::addresses(row)[s] == lattice::address(
                row[s],
            ),
    decreases row.len(),
{
    let active = |bit: u32| h.contains(bit);
    let p = |s: int| h.contains(lattice::address(row[s]));
    let here = Set::new(|s: int| 0 <= s < row.len() && h.contains(lattice::address(row[s])));
    let all = kstorage::addresses(row);
    if row.len() == 0 {
        assert(all.filter(active) =~= Seq::empty());
        assert(here =~= Set::<int>::empty());
    } else {
        let init = row.drop_last();
        let n = row.len() - 1;
        hits_are_counted_by_seed(h, init);
        assert(all =~= kstorage::addresses(init).push(lattice::address(row.last())));
        kstorage::addresses(init).lemma_filter_push(lattice::address(row.last()), active);
        count::lemma_one_more(p, n);
        assert(here =~= Set::new(|k: int| 0 <= k < n + 1 && p(k)));
        assert(Set::new(
            |s: int| 0 <= s < init.len() && h.contains(lattice::address(init[s])),
        ) =~= Set::new(|k: int| 0 <= k < n && p(k)));
    }
}

/// Consensus takes all seeds but one, and one at least. The seeds are zero, one
/// and two unless others are given.
pub proof fn consensus_takes_all_seeds_but_one(c: CatalogModel)
    requires
        c.seeds.len() >= 2,
    ensures
        c.quorum() == c.seeds.len() - 1,
        c.quorum() >= 1,
        kstorage::DEFAULT_CATALOG_SEEDS@ == seq![0u64, 1u64, 2u64],
{
    assert(kstorage::DEFAULT_CATALOG_SEEDS@ =~= seq![0u64, 1u64, 2u64]);
}

/// A sketch supports a value exactly where it holds its address under all
/// seeds but one at least, counted seed by seed; the supported values keep
/// their order.
pub proof fn support_takes_a_quorum(
    c: CatalogModel,
    h: Set<u32>,
    table: Seq<Vec<(u32, u32)>>,
) -> (at: Seq<int>)
    requires
        c.seeds.len() >= 2,
    ensures
        at.len() == c.supported(h, table).len(),
        forall|i: int, j: int| 0 <= i < j < at.len() ==> at[i] < at[j],
        forall|i: int|
            0 <= i < at.len() ==> 0 <= #[trigger] at[i] < c.values.len() && c.supported(
                h,
                table,
            )[i] == c.values[at[i]],
        forall|k: int|
            0 <= k < c.values.len() ==> (#[trigger] at.contains(k) <==> Set::new(
                |s: int| 0 <= s < table[k]@.len() && h.contains(lattice::address(table[k]@[s])),
            ).len() >= c.seeds.len() - 1),
{
    let keep = |k: int| kstorage::hits(h, table[k]@) >= c.quorum();
    let at = grounding_laws::kept_items_stand_at_the_kept_places(c.values, keep);
    assert forall|k: int| 0 <= k < c.values.len() implies (#[trigger] at.contains(k) <==> Set::new(
        |s: int| 0 <= s < table[k]@.len() && h.contains(lattice::address(table[k]@[s])),
    ).len() >= c.seeds.len() - 1) by {
        hits_are_counted_by_seed(h, table[k]@);
        if at.contains(k) {
            let i = at.index_of(k);
            assert(keep(at[i]));
        } else {
            assert(!keep(k));
        }
    }
    at
}

/// The values at a position are those with the position in their row, under
/// whichever seed, in order.
pub proof fn values_stand_where_their_row_says(
    c: CatalogModel,
    p: (u32, u32),
    table: Seq<Vec<(u32, u32)>>,
) -> (at: Seq<int>)
    ensures
        at.len() == c.standing(p, table).len(),
        forall|i: int, j: int| 0 <= i < j < at.len() ==> at[i] < at[j],
        forall|i: int|
            0 <= i < at.len() ==> 0 <= #[trigger] at[i] < c.values.len() && c.standing(p, table)[i]
                == c.values[at[i]],
        forall|k: int|
            0 <= k < c.values.len() ==> (#[trigger] at.contains(k) <==> (exists|s: int|
                0 <= s < table[k]@.len() && #[trigger] table[k]@[s] == p)),
{
    let keep = |k: int| table[k]@.contains(p);
    let at = grounding_laws::kept_items_stand_at_the_kept_places(c.values, keep);
    assert forall|k: int| 0 <= k < c.values.len() implies (#[trigger] at.contains(k) <==> (exists|
        s: int,
    |
        0 <= s < table[k]@.len() && #[trigger] table[k]@[s] == p)) by {
        if at.contains(k) {
            let i = at.index_of(k);
            assert(keep(at[i]));
            let s = table[k]@.index_of(p);
            assert(table[k]@[s] == p);
        } else {
            assert(!keep(k));
        }
    }
    at
}

/// An address resolves exactly where some value has it under some seed.
pub proof fn addresses_resolve_where_a_value_stands(
    c: CatalogModel,
    bit: u32,
    table: Seq<Vec<(u32, u32)>>,
)
    requires
        c.fits(table),
        bit < 32768,
    ensures
        c.resolves(bit, table) <==> (exists|k: int, s: int|
            0 <= k < c.values.len() && 0 <= s < c.seeds.len() && 32 * (
            #[trigger] table[k]@[s]).0 + table[k]@[s].1 == bit),
{
    let p = lattice::position(bit);
    addresses_count_the_bits(p, bit);
    if c.resolves(bit, table) {
        let k = choose|k: int| 0 <= k < c.values.len() && #[trigger] table[k]@.contains(p);
        let s = table[k]@.index_of(p);
        assert(table[k]@.len() == c.seeds.len());
        assert(table[k]@[s] == p);
    }
    if exists|k: int, s: int|
        0 <= k < c.values.len() && 0 <= s < c.seeds.len() && 32 * (#[trigger] table[k]@[s]).0
            + table[k]@[s].1 == bit {
        let (k, s) = choose|k: int, s: int|
            0 <= k < c.values.len() && 0 <= s < c.seeds.len() && 32 * (#[trigger] table[k]@[s]).0
                + table[k]@[s].1 == bit;
        assert(table[k]@.len() == c.seeds.len());
        assert(lattice::in_grid(table[k]@[s]));
        assert(table[k]@[s] == p);
        assert(table[k]@.contains(p));
    }
}

/// Coverage counts every address of a sketch, and those that resolve.
pub proof fn coverage_counts_the_resolved_addresses(
    c: CatalogModel,
    bits: Seq<u32>,
    table: Seq<Vec<(u32, u32)>>,
    r: Coverage,
)
    requires
        c.covers(bits, table, r),
    ensures
        r.total == bits.len(),
        r.resolved == Set::new(|i: int| 0 <= i < bits.len() && c.resolves(bits[i], table)).len(),
{
    let keep = |bit: u32| c.resolves(bit, table);
    lemma_filter_by_place(bits, keep);
    assert(Set::new(|i: int| 0 <= i < bits.len() && c.resolves(bits[i], table)) =~= Set::new(
        |i: int| 0 <= i < bits.len() && keep(bits[i]),
    ));
}

proof fn lemma_filter_by_place(s: Seq<u32>, keep: spec_fn(u32) -> bool)
    ensures
        s.filter(keep).len() == Set::new(|i: int| 0 <= i < s.len() && keep(s[i])).len(),
    decreases s.len(),
{
    let p = |i: int| keep(s[i]);
    let here = Set::new(|i: int| 0 <= i < s.len() && keep(s[i]));
    if s.len() == 0 {
        assert(s.filter(keep) =~= Seq::empty());
        assert(here =~= Set::<int>::empty());
    } else {
        let init = s.drop_last();
        let n = s.len() - 1;
        lemma_filter_by_place(init, keep);
        init.lemma_filter_push(s.last(), keep);
        assert(init.push(s.last()) =~= s);
        count::lemma_one_more(p, n);
        assert(here =~= Set::new(|i: int| 0 <= i < n + 1 && p(i)));
        assert(Set::new(|i: int| 0 <= i < init.len() && keep(init[i])) =~= Set::new(
            |i: int| 0 <= i < n && p(i),
        ));
    }
}

/// A hash matches the first value that has it, and none where no value has it.
pub proof fn hashes_match_the_first_value(
    c: CatalogModel,
    hash: u64,
    hashes: Seq<u64>,
    r: Option<Vec<u8>>,
    k: int,
)
    requires
        c.is_match(hash, hashes, r),
    ensures
        0 <= k < hashes.len() && hashes[k] == hash && (forall|j: int|
            0 <= j < k ==> #[trigger] hashes[j] != hash) ==> r is Some && r->0@ == c.values[k],
        (forall|j: int| 0 <= j < hashes.len() ==> #[trigger] hashes[j] != hash) ==> r is None,
{
    if r is Some {
        let i = choose|i: int|
            0 <= i < hashes.len() && #[trigger] hashes[i] == hash && r->0@ == c.values[i] && (
            forall|j: int| 0 <= j < i ==> #[trigger] hashes[j] != hash);
        if 0 <= k < hashes.len() && hashes[k] == hash && (forall|j: int|
            0 <= j < k ==> #[trigger] hashes[j] != hash) {
            assert(i == k) by {
                if i < k {
                    assert(hashes[i] != hash);
                }
                if k < i {
                    assert(hashes[k] != hash);
                }
            }
        }
    }
}

/// A key carries its one cell, or its cells in order.
pub proof fn keys_carry_their_cells(bit: u32, cells: Vec<u32>, quorum: usize)
    ensures
        KeyRef::Cell(bit).cell_seq() == seq![bit],
        KeyRef::Cells(cells, quorum).cell_seq() == cells@,
{
}

// ── Supplied functions ─────────────────────────────────────────────────────

/// Where a hasher always gives a token what `f` says, the hashed tokens are
/// the tokens in order, each with that hash and position.
pub proof fn hashed_tokens_follow_the_hasher<H: Fn(&Vec<u8>) -> (u64, (u32, u32))>(
    hasher: &H,
    f: spec_fn(Seq<u8>) -> (u64, (u32, u32)),
    ts: Seq<Seq<u8>>,
    hs: Seq<HashedToken>,
    k: int,
)
    requires
        forall|v: &Vec<u8>, r: (u64, (u32, u32))| #[trigger]
            call_ensures(hasher, (v,), r) ==> r == f(v@),
        hashing::hashes_all(hasher, ts, hs),
        0 <= k < ts.len(),
    ensures
        hs.len() == ts.len(),
        hs[k].bytes@ == ts[k],
        (hs[k].hash, hs[k].position) == f(ts[k]),
{
    assert(hashing::hashes(hasher, ts[k], hs[k]));
}

/// Where a position function always gives a token what `f` says, the positions
/// of ids are those of their tokens, in order.
pub proof fn positions_follow_the_locator<P: Fn(&Vec<u8>) -> (u32, u32)>(
    position: &P,
    f: spec_fn(Seq<u8>) -> (u32, u32),
    ids: Seq<TokenId>,
    ps: Seq<(u32, u32)>,
    k: int,
)
    requires
        forall|v: &Vec<u8>, p: (u32, u32)| #[trigger]
            call_ensures(position, (v,), p) ==> p == f(v@),
        hashing::are_positions(ps, ids, position),
        0 <= k < ids.len(),
    ensures
        ps.len() == ids.len(),
        ps[k] == f(tid::tid(ids[k])),
{
    assert(hashing::stands(position, tid::tid(ids[k]), ps[k]));
}

/// Where a placement always gives a value what `f` says under a seed, the
/// table holds, value by value and seed by seed, just that.
pub proof fn tables_follow_the_placement<S: Fn(&Vec<u8>, u64) -> (u32, u32)>(
    place: &S,
    f: spec_fn(Seq<u8>, u64) -> (u32, u32),
    values: Seq<Seq<u8>>,
    seeds: Seq<u64>,
    table: Seq<Vec<(u32, u32)>>,
    k: int,
    s: int,
)
    requires
        forall|v: &Vec<u8>, seed: u64, p: (u32, u32)| #[trigger]
            call_ensures(place, (v, seed), p) ==> p == f(v@, seed),
        hashing::is_table(place, values, seeds, table),
        0 <= k < values.len(),
        0 <= s < seeds.len(),
    ensures
        table.len() == values.len(),
        table[k]@.len() == seeds.len(),
        table[k]@[s] == f(values[k], seeds[s]),
{
    assert(hashing::is_row(place, values[k], seeds, table[k]@));
    assert(hashing::places(place, values[k], seeds[s], table[k]@[s]));
}

/// Where a hash function always gives a value what `f` says, the hashes are
/// those of the values, in order.
pub proof fn hashes_follow_the_function<G: Fn(&Vec<u8>) -> u64>(
    seed0: &G,
    f: spec_fn(Seq<u8>) -> u64,
    values: Seq<Seq<u8>>,
    hashes: Seq<u64>,
    k: int,
)
    requires
        forall|v: &Vec<u8>, h: u64| #[trigger] call_ensures(seed0, (v,), h) ==> h == f(v@),
        kstorage::are_hashes(seed0, values, hashes),
        0 <= k < values.len(),
    ensures
        hashes.len() == values.len(),
        hashes[k] == f(values[k]),
{
    assert(kstorage::has_hash(seed0, values[k], hashes[k]));
}

} // verus!
