//! What term frequencies decide, stated of counts, fibers and byte order.

use crate::count;
use crate::index;
use crate::index::HashedToken;
use crate::lut;
use crate::lut::TfModel;
use crate::order;
use vstd::prelude::*;

verus! {

/// Byte order is decided where two byte strings first differ, and a proper
/// prefix comes first.
pub proof fn byte_order_is_decided_at_the_first_difference(a: Seq<u8>, b: Seq<u8>)
    ensures
        order::before(a, b) <==> (exists|k: int|
            #![trigger a.take(k)]
            0 <= k <= a.len() && k < b.len() && a.take(k) == b.take(k) && (k == a.len() || a[k]
                < b[k])),
    decreases a.len(),
{
    if a.len() > 0 && b.len() > 0 {
        let x = a.drop_first();
        let y = b.drop_first();
        byte_order_is_decided_at_the_first_difference(x, y);
        if order::before(a, b) {
            if a[0] != b[0] {
                assert(a.take(0) =~= b.take(0));
            } else {
                let k = choose|k: int|
                    #![trigger x.take(k)]
                    0 <= k <= x.len() && k < y.len() && x.take(k) == y.take(k) && (k == x.len()
                        || x[k] < y[k]);
                assert(a.take(k + 1) =~= seq![a[0]] + x.take(k));
                assert(b.take(k + 1) =~= seq![b[0]] + y.take(k));
                assert(k < x.len() ==> a[k + 1] == x[k]);
                assert(b[k + 1] == y[k]);
            }
        }
        if exists|k: int|
            #![trigger a.take(k)]
            0 <= k <= a.len() && k < b.len() && a.take(k) == b.take(k) && (k == a.len() || a[k]
                < b[k]) {
            let k = choose|k: int|
                #![trigger a.take(k)]
                0 <= k <= a.len() && k < b.len() && a.take(k) == b.take(k) && (k == a.len() || a[k]
                    < b[k]);
            if k > 0 {
                assert(a.take(k)[0] == b.take(k)[0]);
                assert(x.take(k - 1) =~= a.take(k).drop_first());
                assert(y.take(k - 1) =~= b.take(k).drop_first());
                assert(k < a.len() ==> a[k] == x[k - 1]);
                assert(b[k] == y[k - 1]);
            }
        }
    } else {
        if order::before(a, b) {
            assert(a.take(0) =~= b.take(0));
        }
    }
}

/// How often an id occurs is the number of places where it stands.
pub proof fn occurrences_are_counted_by_place(ids: Seq<Seq<u8>>, id: Seq<u8>)
    ensures
        lut::occurrences(ids, id) == Set::new(|k: int| 0 <= k < ids.len() && ids[k] == id).len(),
    decreases ids.len(),
{
    let p = |k: int| ids[k] == id;
    let here = Set::new(|k: int| 0 <= k < ids.len() && ids[k] == id);
    if ids.len() == 0 {
        assert(here =~= Set::<int>::empty());
    } else {
        let init = ids.drop_last();
        let n = ids.len() - 1;
        occurrences_are_counted_by_place(init, id);
        count::lemma_one_more(p, n);
        assert(here =~= Set::new(|k: int| 0 <= k < n + 1 && p(k)));
        assert(Set::new(|k: int| 0 <= k < init.len() && init[k] == id) =~= Set::new(
            |k: int| 0 <= k < n && p(k),
        ));
    }
}

/// Observing a batch adds to each id's frequency the number of places in the
/// batch where it stands, and registers exactly the ids of the batch.
pub proof fn observing_counts_every_place(m: TfModel, ts: Seq<HashedToken>, id: Seq<u8>)
    requires
        m.valid(),
    ensures
        m.observe(ts).count(id) == m.count(id) + Set::new(
            |k: int| 0 <= k < ts.len() && ts[k].bytes@ == id,
        ).len(),
        m.observe(ts).tf.contains_key(id) <==> m.tf.contains_key(id) || (exists|k: int|
            0 <= k < ts.len() && (#[trigger] ts[k]).bytes@ == id),
        m.observe(ts).lut.contains_key(id) <==> m.observe(ts).tf.contains_key(id),
        m.observe(ts).lut == index::enter_all(m.lut, ts),
{
    let ids = index::bytes_of(ts);
    lut::frequency_counts_occurrences(m, ts, id);
    occurrences_are_counted_by_place(ids, id);
    assert(Set::new(|k: int| 0 <= k < ids.len() && ids[k] == id) =~= Set::new(
        |k: int| 0 <= k < ts.len() && ts[k].bytes@ == id,
    ));
    lemma_observed_ids(m, ts, id);
    lut::observation_is_append_only(m, ts);
    assert(m.observe(ts).lut.dom().contains(id) == m.observe(ts).tf.dom().contains(id));
}

proof fn lemma_observed_ids(m: TfModel, ts: Seq<HashedToken>, id: Seq<u8>)
    ensures
        m.observe(ts).tf.contains_key(id) <==> m.tf.contains_key(id) || (exists|k: int|
            0 <= k < ts.len() && (#[trigger] ts[k]).bytes@ == id),
        m.observe(ts).lut == index::enter_all(m.lut, ts),
    decreases ts.len(),
{
    if ts.len() > 0 {
        let init = ts.drop_last();
        lemma_observed_ids(m, init, id);
        if exists|k: int| 0 <= k < init.len() && (#[trigger] init[k]).bytes@ == id {
            let k = choose|k: int| 0 <= k < init.len() && (#[trigger] init[k]).bytes@ == id;
            assert(ts[k].bytes@ == id);
        }
        if exists|k: int| 0 <= k < ts.len() && (#[trigger] ts[k]).bytes@ == id {
            let k = choose|k: int| 0 <= k < ts.len() && (#[trigger] ts[k]).bytes@ == id;
            if k < init.len() {
                assert(init[k].bytes@ == id);
            }
        }
        if ts.last().bytes@ == id {
            assert(ts[ts.len() - 1].bytes@ == id);
        }
    }
}

/// A frequency is what the table holds, and zero for an id that it lacks.
/// Nothing is known at first, and registering an id counts nothing.
pub proof fn frequencies_are_read_from_the_table(m: TfModel, t: HashedToken, id: Seq<u8>)
    ensures
        m.tf.contains_key(id) ==> m.count(id) == m.tf[id],
        !m.tf.contains_key(id) ==> m.count(id) == 0,
        !TfModel::empty().tf.contains_key(id),
        !TfModel::empty().lut.contains_key(id),
        m.register(t).count(id) == m.count(id),
        m.register(t).tf.contains_key(id) <==> m.tf.contains_key(id) || t.bytes@ == id,
        m.register(t).lut.contains_key(id) <==> m.lut.contains_key(id) || t.bytes@ == id,
        m.register(t).lut == index::enter(m.lut, t),
{
}

/// A winner stands at its address and has the greatest frequency there; among
/// equal frequencies it comes first in byte order.
pub proof fn winners_have_the_greatest_frequency(
    m: TfModel,
    bit: u32,
    t: Seq<u8>,
    u: Seq<u8>,
)
    requires
        m.wins(bit, t),
        m.lut.contains_key(u),
        m.lut[u].cell == bit,
    ensures
        m.lut.contains_key(t),
        m.lut[t].cell == bit,
        m.count(t) >= m.count(u),
        m.count(t) == m.count(u) && u != t ==> exists|k: int|
            #![trigger t.take(k)]
            0 <= k <= t.len() && k < u.len() && t.take(k) == u.take(k) && (k == t.len() || t[k]
                < u[k]),
{
    assert(index::fiber(m.lut, bit).contains(u));
    byte_order_is_decided_at_the_first_difference(t, u);
}

/// Whoever has the greatest frequency at an address wins it; among several
/// such, the one that comes first in byte order.
pub proof fn the_greatest_frequency_wins(m: TfModel, bit: u32, t: Seq<u8>)
    requires
        m.lut.contains_key(t),
        m.lut[t].cell == bit,
        forall|u: Seq<u8>| #[trigger]
            m.lut.contains_key(u) && m.lut[u].cell == bit && u != t ==> m.count(t) > m.count(u) || (
            m.count(t) == m.count(u) && (exists|k: int|
                #![trigger t.take(k)]
                0 <= k <= t.len() && k < u.len() && t.take(k) == u.take(k) && (k == t.len() || t[k]
                    < u[k]))),
    ensures
        m.wins(bit, t),
{
    assert forall|u: Seq<u8>| #[trigger]
        index::fiber(m.lut, bit).contains(u) && u != t implies m.preferred(t, u) by {
        assert(m.lut.contains_key(u));
        byte_order_is_decided_at_the_first_difference(t, u);
    }
}

/// A sketch materializes address by address, in their order: each address that
/// some registered token stands at gives its winner, and the others give
/// nothing.
pub proof fn sketches_materialize_in_bit_order(
    m: TfModel,
    bits: Seq<u32>,
    out: Seq<Seq<u8>>,
) -> (at: Seq<int>)
    requires
        m.materializes(bits, out),
    ensures
        at.len() == out.len(),
        forall|i: int, j: int| 0 <= i < j < at.len() ==> at[i] < at[j],
        forall|i: int|
            0 <= i < at.len() ==> 0 <= #[trigger] at[i] < bits.len() && m.wins(
                bits[at[i]],
                out[i],
            ),
        forall|k: int|
            0 <= k < bits.len() ==> (at.contains(k) <==> (exists|t: Seq<u8>| #[trigger]
                m.lut.contains_key(t) && m.lut[t].cell == #[trigger] bits[k])),
{
    let at = covered_addresses_have_a_token(m, bits);
    assert forall|i: int| 0 <= i < at.len() implies 0 <= #[trigger] at[i] < bits.len() && m.wins(
        bits[at[i]],
        out[i],
    ) by {
        assert(m.wins(m.covered(bits)[i], out[i]));
    }
    at
}

/// The covered addresses of a list are those that some registered token stands
/// at, in their order.
pub proof fn covered_addresses_have_a_token(m: TfModel, bits: Seq<u32>) -> (at: Seq<int>)
    ensures
        at.len() == m.covered(bits).len(),
        forall|i: int, j: int| 0 <= i < j < at.len() ==> at[i] < at[j],
        forall|i: int|
            0 <= i < at.len() ==> 0 <= #[trigger] at[i] < bits.len() && bits[at[i]] == m.covered(
                bits,
            )[i],
        forall|k: int|
            0 <= k < bits.len() ==> (at.contains(k) <==> (exists|t: Seq<u8>| #[trigger]
                m.lut.contains_key(t) && m.lut[t].cell == #[trigger] bits[k])),
    decreases bits.len(),
{
    let known = |bit: u32| index::resolves(m.lut, bit);
    if bits.len() == 0 {
        assert(bits.filter(known) =~= Seq::empty());
        Seq::empty()
    } else {
        let init = bits.drop_last();
        let n = bits.len() - 1;
        let before = covered_addresses_have_a_token(m, init);
        init.lemma_filter_push(bits.last(), known);
        assert(init.push(bits.last()) =~= bits);
        let at = if index::resolves(m.lut, bits.last()) {
            before.push(n)
        } else {
            before
        };
        assert(index::resolves(m.lut, bits[n]) == (exists|t: Seq<u8>| #[trigger]
            m.lut.contains_key(t) && m.lut[t].cell == bits[n]));
        assert forall|k: int| 0 <= k < bits.len() implies (at.contains(k) <==> (exists|t: Seq<u8>|
            #[trigger]
            m.lut.contains_key(t) && m.lut[t].cell == #[trigger] bits[k])) by {
            if k < n {
                assert(init[k] == bits[k]);
                assert(before.contains(k) <==> (exists|t: Seq<u8>| #[trigger]
                    m.lut.contains_key(t) && m.lut[t].cell == init[k]));
                if before.contains(k) {
                    let i = before.index_of(k);
                    assert(at[i] == k);
                }
                if at.contains(k) {
                    let i = at.index_of(k);
                    assert(before[i] == k);
                }
            } else {
                if index::resolves(m.lut, bits[n]) {
                    assert(at[before.len() as int] == n);
                } else if at.contains(n) {
                    let i = at.index_of(n);
                    assert(before[i] < init.len());
                }
            }
        }
        at
    }
}

/// What is observed more often wins: of two ids that alone share an address,
/// the one with more observations is the winner, however many there are.
pub proof fn more_observations_win(
    m: TfModel,
    ts: Seq<HashedToken>,
    bit: u32,
    t: Seq<u8>,
    u: Seq<u8>,
)
    requires
        m.valid(),
        t != u,
        forall|v: Seq<u8>| #[trigger]
            m.observe(ts).lut.contains_key(v) && m.observe(ts).lut[v].cell == bit <==> v == t || v
                == u,
        m.count(t) + Set::new(|k: int| 0 <= k < ts.len() && ts[k].bytes@ == t).len() > m.count(u)
            + Set::new(|k: int| 0 <= k < ts.len() && ts[k].bytes@ == u).len(),
    ensures
        m.observe(ts).wins(bit, t),
        !m.observe(ts).wins(bit, u),
{
    let n = m.observe(ts);
    observing_counts_every_place(m, ts, t);
    observing_counts_every_place(m, ts, u);
    assert(n.lut.contains_key(t) && n.lut[t].cell == bit) by {
        assert(t == t || t == u);
    }
    assert(n.lut.contains_key(u) && n.lut[u].cell == bit);
    the_greatest_frequency_wins(n, bit, t);
    if n.wins(bit, u) {
        winners_have_the_greatest_frequency(n, bit, u, t);
    }
}

} // verus!
