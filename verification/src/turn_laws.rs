//! What a turn sketches, joins, records and recovers, stated of addresses,
//! bits and places.

use crate::app;
use crate::app::{AppError, AppModel, LogEntry, TurnModel, TurnRecord};
use crate::context::MatrixModel;
use crate::context_unified::ContextModel;
use crate::hashing;
use crate::index_laws;
use crate::kstorage;
use crate::learning_laws;
use crate::message;
use crate::order;
use crate::tid;
use crate::tree_laws;
use crate::views;
use crate::working_set;
use crate::working_set::NamedLut;
use crate::TokenId;
use vstd::prelude::*;

verus! {

/// The sketch of a turn holds an address exactly where the token of one of its
/// ids stands there.
pub proof fn sketches_hold_the_addresses_of_their_ids<P: Fn(&Vec<u8>) -> (u32, u32)>(
    h: Set<u32>,
    ids: Seq<TokenId>,
    position: &P,
    f: spec_fn(Seq<u8>) -> (u32, u32),
    bit: u32,
)
    requires
        app::is_sketch(h, ids, position),
        forall|v: &Vec<u8>, p: (u32, u32)| #[trigger]
            call_ensures(position, (v,), p) ==> p == f(v@) && p.0 < 1024 && p.1 < 32,
    ensures
        h.contains(bit) <==> (exists|k: int|
            0 <= k < ids.len() && 32 * f(tid::tid(#[trigger] ids[k])).0 + f(tid::tid(ids[k])).1
                == bit),
{
    let ps = choose|ps: Seq<(u32, u32)>| #[trigger]
        hashing::are_positions(ps, ids, position) && h == kstorage::addresses(ps).to_set();
    let bits = kstorage::addresses(ps);
    assert forall|k: int| 0 <= k < ids.len() implies #[trigger] bits[k] == 32 * f(
        tid::tid(ids[k]),
    ).0 + f(tid::tid(ids[k])).1 by {
        assert(hashing::stands(position, tid::tid(ids[k]), ps[k]));
        index_laws::addresses_count_the_bits(ps[k], bits[k]);
    }
    if bits.contains(bit) {
        let k = bits.index_of(bit);
        assert(bits[k] == bit);
        assert(ids[k] == ids[k]);
    }
    if exists|k: int|
        0 <= k < ids.len() && 32 * f(tid::tid(#[trigger] ids[k])).0 + f(tid::tid(ids[k])).1
            == bit {
        let k = choose|k: int|
            0 <= k < ids.len() && 32 * f(tid::tid(#[trigger] ids[k])).0 + f(tid::tid(ids[k])).1
                == bit;
        assert(bits[k] == bit);
    }
}

/// A pass joins each of its sketches into the channel of its own, and changes
/// nothing else.
pub proof fn passes_join_channel_by_channel(
    m: AppModel,
    c1: Set<u32>,
    c2: Set<u32>,
    c3: Set<u32>,
    bit: u32,
)
    ensures
        m.absorb(c1, c2, c3).g1.contains(bit) <==> m.g1.contains(bit) || c1.contains(bit),
        m.absorb(c1, c2, c3).g2.contains(bit) <==> m.g2.contains(bit) || c2.contains(bit),
        m.absorb(c1, c2, c3).g3.contains(bit) <==> m.g3.contains(bit) || c3.contains(bit),
        m.absorb(c1, c2, c3).turns == m.turns,
        m.absorb(c1, c2, c3).context == m.context,
        m.absorb(c1, c2, c3).tf_base == m.tf_base,
{
}

/// Frequencies are summed address by address.
pub proof fn frequencies_are_summed_by_address(a: Seq<u64>, b: Seq<u64>, k: int)
    requires
        0 <= k < a.len(),
    ensures
        app::summed(a, b).len() == a.len(),
        app::summed(a, b)[k] == a[k] + b[k],
{
}

/// Turns are recorded with their ids, their sketch and their commit.
pub proof fn turns_are_recorded_as_they_are(
    turns: Seq<TurnRecord>,
    models: Seq<TurnModel>,
    k: int,
)
    ensures
        app::records(turns).len() == turns.len(),
        0 <= k < turns.len() ==> app::records(turns)[k].ids == turns[k].ids@ && app::records(
            turns,
        )[k].g1 == turns[k].g1@ && (app::records(turns)[k].commit is Some
            <==> turns[k].commit is Some) && (turns[k].commit matches Some(c) ==> app::records(
            turns,
        )[k].commit == Some(c@)),
        app::collections(models).len() == models.len(),
        0 <= k < models.len() ==> app::collections(models)[k] == models[k].ids,
{
}

/// A log is read entry by entry: one whose message carries ids gives a turn
/// with the commit's id and those ids, and any other gives nothing.
pub proof fn logs_are_read_entry_by_entry(
    a: Seq<LogEntry>,
    b: Seq<LogEntry>,
    e: LogEntry,
)
    ensures
        app::logged(Seq::empty()).len() == 0,
        e.message is None ==> app::logged(seq![e]).len() == 0,
        e.message is Some ==> match message::message_ids(e.message->0@) {
            Some(ids) => app::logged(seq![e]) == seq![(e.id@, ids)],
            None => app::logged(seq![e]).len() == 0,
        },
        app::logged(a + b) == app::logged(a) + app::logged(b),
    decreases b.len(),
{
    let none = Seq::<LogEntry>::empty();
    assert(app::logged(none) == Seq::<(Seq<char>, Seq<TokenId>)>::empty());
    let one = seq![e];
    assert(one.drop_last() =~= none);
    assert(one.last() == e);
    if let Some(ids) = app::entry_ids(e) {
        assert(Seq::<(Seq<char>, Seq<TokenId>)>::empty().push((e.id@, ids)) =~= seq![
            (e.id@, ids),
        ]);
    }
    if b.len() == 0 {
        assert(a + b =~= a);
        assert(app::logged(a) + app::logged(b) =~= app::logged(a));
    } else {
        logs_are_read_entry_by_entry(a, b.drop_last(), e);
        assert((a + b).drop_last() =~= a + b.drop_last());
        assert((a + b).last() == b.last());
        assert(app::logged(a + b) =~= app::logged(a) + app::logged(b));
    }
}

/// A recovered turn has the commit and the ids of its entry, and the sketch of
/// those ids.
pub proof fn recovered_turns_match_their_entries<P: Fn(&Vec<u8>) -> (u32, u32)>(
    turns: Seq<TurnModel>,
    entries: Seq<(Seq<char>, Seq<TokenId>)>,
    position: &P,
    k: int,
)
    requires
        app::recovered(turns, entries, position),
        0 <= k < entries.len(),
    ensures
        turns.len() == entries.len(),
        turns[k].commit == Some(entries[k].0),
        turns[k].ids == entries[k].1,
        app::is_sketch(turns[k].g1, entries[k].1, position),
{
    assert(turns[k].commit == Some(entries[k].0));
}

/// The context of the turns measures exactly the transitions within them, and
/// has one full-image view per turn, in order, of what the turn's own sketch
/// shows through the family.
pub proof fn contexts_measure_their_turns<
    K: Fn(&Vec<Vec<u8>>) -> String,
    D: Fn(&Vec<Vec<u8>>) -> String,
>(
    c: ContextModel,
    turns: Seq<TurnModel>,
    luts: Seq<NamedLut>,
    key: &K,
    digest: &D,
    fk: spec_fn(Seq<Seq<u8>>) -> Seq<char>,
    fd: spec_fn(Seq<Seq<u8>>) -> Seq<char>,
    a: TokenId,
    b: TokenId,
    k: int,
    t: Seq<u8>,
)
    requires
        app::is_context(c, turns, luts, key, digest),
        forall|x: &Vec<Vec<u8>>, s: String| #[trigger]
            call_ensures(key, (x,), s) ==> s@ == fk(order::tokens(x@)),
        forall|x: &Vec<Vec<u8>>, s: String| #[trigger]
            call_ensures(digest, (x,), s) ==> s@ == fd(order::tokens(x@)),
        0 <= k < turns.len(),
    ensures
        (c.matrix.weight)(a, b) == 1 <==> (exists|j: int, i: int|
            0 <= j < turns.len() && 0 <= i < turns[j].ids.len() - 1 && #[trigger] turns[j].ids[i]
                == a && turns[j].ids[i + 1] == b),
        (c.matrix.weight)(a, b) == 0 || (c.matrix.weight)(a, b) == 1,
        c.matrix.nodes.contains(a) <==> (exists|j: int|
            0 <= j < turns.len() && (#[trigger] turns[j]).ids.len() >= 2 && turns[j].ids.contains(
                a,
            )),
        c.views.len() == turns.len(),
        c.views[k].h == fk(turns[k].ids.map_values(|n: TokenId| tid::tid(n))),
        c.views[k].l == "all"@,
        c.views[k].tokens.contains(t) <==> working_set::family_image(luts, turns[k].g1).contains(t),
        c.views[k].digest == fd(c.views[k].tokens),
        c.tree.contains_key(c.views[k].h),
        c.matrix == MatrixModel::empty().learn_all(turns.map_values(|t: TurnModel| t.ids)),
        exists|items: Seq<working_set::WorkItem>| #[trigger]
            app::are_items(items, turns, luts) && working_set::is_tree(c.tree, items, key, digest),
{
    let seqs = app::collections(turns);
    let m = MatrixModel::empty();
    learning_laws::nothing_is_measured_at_first(a, b);
    learning_laws::learning_many_measures_each_alone(m, seqs, a, b);
    learning_laws::learning_many_grounds_the_tokens_in_turn(m, seqs, 0, a);
    if exists|j: int, i: int|
        0 <= j < seqs.len() && 0 <= i < seqs[j].len() - 1 && #[trigger] seqs[j][i] == a
            && seqs[j][i + 1] == b {
        let (j, i) = choose|j: int, i: int|
            0 <= j < seqs.len() && 0 <= i < seqs[j].len() - 1 && #[trigger] seqs[j][i] == a
                && seqs[j][i + 1] == b;
        assert(turns[j].ids[i] == a && turns[j].ids[i + 1] == b);
    }
    if exists|j: int, i: int|
        0 <= j < turns.len() && 0 <= i < turns[j].ids.len() - 1 && #[trigger] turns[j].ids[i] == a
            && turns[j].ids[i + 1] == b {
        let (j, i) = choose|j: int, i: int|
            0 <= j < turns.len() && 0 <= i < turns[j].ids.len() - 1 && #[trigger] turns[j].ids[i]
                == a && turns[j].ids[i + 1] == b;
        assert(seqs[j][i] == a && seqs[j][i + 1] == b);
    }
    if exists|j: int|
        0 <= j < seqs.len() && (#[trigger] seqs[j]).len() >= 2 && seqs[j].contains(a) {
        let j = choose|j: int|
            0 <= j < seqs.len() && (#[trigger] seqs[j]).len() >= 2 && seqs[j].contains(a);
        assert(turns[j].ids.len() >= 2 && turns[j].ids.contains(a));
    }
    if exists|j: int|
        0 <= j < turns.len() && (#[trigger] turns[j]).ids.len() >= 2 && turns[j].ids.contains(a) {
        let j = choose|j: int|
            0 <= j < turns.len() && (#[trigger] turns[j]).ids.len() >= 2 && turns[j].ids.contains(
                a,
            );
        assert(seqs[j].len() >= 2 && seqs[j].contains(a));
    }
    let v = c.views[k];
    let image = working_set::family_image(luts, turns[k].g1);
    assert(working_set::is_record(v, turns[k].ids, "all"@, image, key, digest));
    tree_laws::records_carry_their_tokens_and_digest(
        key,
        digest,
        fk,
        fd,
        v,
        turns[k].ids,
        "all"@,
        image,
        t,
    );
    let items = choose|items: Seq<working_set::WorkItem>| #[trigger]
        app::are_items(items, turns, luts) && working_set::is_tree(c.tree, items, key, digest);
    let _ = tree_laws::trees_have_a_leaf_per_item(key, digest, fk, c.tree, items, v.h);
    assert(items[k].ids@ == turns[k].ids);
    assert(tid::tids(turns[k].ids) =~= turns[k].ids.map_values(|n: TokenId| tid::tid(n)));
}

/// The items of a working set are the turns, in order, each with its own ids
/// and sketch and the whole family.
pub proof fn items_are_the_turns(
    items: Seq<working_set::WorkItem>,
    turns: Seq<TurnModel>,
    luts: Seq<NamedLut>,
    k: int,
)
    requires
        app::are_items(items, turns, luts),
        0 <= k < turns.len(),
    ensures
        items.len() == turns.len(),
        items[k].ids@ == turns[k].ids,
        items[k].sketch@ == turns[k].g1,
        items[k].luts@ == luts,
{
    assert(items[k].ids@ == turns[k].ids);
}

/// The inscription of the loop is the one of token ids.
pub proof fn the_loop_inscribes_ids()
    ensures
        app::APP_ENCODING_NAME@ == seq!['t', 'i', 'd'],
{
    reveal_strlit("tid");
    assert("tid"@ =~= seq!['t', 'i', 'd']);
}

/// A store error is worded as such; any other error has its own words.
pub proof fn errors_are_worded(e: String)
    ensures
        AppError::Store(e).words() == "store error: "@ + e@,
        AppError::Other(e).words() == e@,
{
}

} // verus!
