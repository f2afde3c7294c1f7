//! Laws of the loop over many turns: a repeated turn commits nothing, and
//! recovery gives back what was committed.
//!
//! The store stands outside: the laws speak of any store that keeps what is
//! committed, lists each commit once, and counts the bits of a state that its
//! head lacks.

use crate::app;
use crate::app::{AppModel, LogEntry, TurnModel};
use crate::hashing;
use crate::kstorage;
use crate::message;
use crate::TokenId;
use vstd::prelude::*;

verus! {

// ── The loop over a store ──────────────────────────────────────────────────

/// One set of addresses per channel.
#[verifier::ext_equal]
pub struct Channels {
    pub g1: Set<u32>,
    pub g2: Set<u32>,
    pub g3: Set<u32>,
}

impl Channels {
    /// Nothing in any channel.
    pub open spec fn none() -> Channels {
        Channels { g1: Set::empty(), g2: Set::empty(), g3: Set::empty() }
    }

    /// The union, channel by channel.
    pub open spec fn join(self, other: Channels) -> Channels {
        Channels {
            g1: self.g1.union(other.g1),
            g2: self.g2.union(other.g2),
            g3: self.g3.union(other.g3),
        }
    }
}

/// One pass: the ids of a turn, the sketches of its channels, and the id that
/// the store gives its commit, should there be one.
pub struct Pass {
    pub ids: Seq<TokenId>,
    pub channels: Channels,
    pub id: Seq<char>,
}

/// What the store keeps of a commit.
pub struct Commit {
    pub id: Seq<char>,
    pub message: Seq<char>,
    pub state: Channels,
}

/// The loop and its store: the recorded turns, the working set, and the
/// commits in the order in which they were made.
#[verifier::ext_equal]
pub struct LoopModel {
    pub turns: Seq<TurnModel>,
    pub working: Channels,
    pub commits: Seq<Commit>,
}

impl LoopModel {
    /// A fresh loop over an empty store.
    pub open spec fn fresh() -> LoopModel {
        LoopModel { turns: Seq::empty(), working: Channels::none(), commits: Seq::empty() }
    }

    /// The state at the head, none while nothing was committed.
    pub open spec fn head(self) -> Option<Channels> {
        if self.commits.len() == 0 {
            None
        } else {
            Some(self.commits.last().state)
        }
    }

    /// The id of the head, none while nothing was committed.
    pub open spec fn head_id(self) -> Option<Seq<char>> {
        if self.commits.len() == 0 {
            None
        } else {
            Some(self.commits.last().id)
        }
    }

    /// How many new bits a pass brings, as the store counts them.
    pub open spec fn news(
        self,
        pass: Pass,
        new_bits: spec_fn(Option<Channels>, Channels) -> nat,
    ) -> nat {
        new_bits(self.head(), self.working.join(pass.channels))
    }

    /// The loop after one more turn: the pass is joined into the working set,
    /// committed if it brings new bits, and recorded either way.
    pub open spec fn step(
        self,
        pass: Pass,
        new_bits: spec_fn(Option<Channels>, Channels) -> nat,
    ) -> LoopModel {
        let working = self.working.join(pass.channels);
        let commits = self.news(pass, new_bits) > 0;
        LoopModel {
            turns: self.turns.push(
                TurnModel {
                    ids: pass.ids,
                    g1: pass.channels.g1,
                    commit: if commits {
                        Some(pass.id)
                    } else {
                        None
                    },
                },
            ),
            working,
            commits: if commits {
                self.commits.push(
                    Commit {
                        id: pass.id,
                        message: message::message_text(pass.ids),
                        state: working,
                    },
                )
            } else {
                self.commits
            },
        }
    }

    /// The turns and the working set are those of an app.
    pub open spec fn tracks(self, app: AppModel) -> bool {
        &&& self.turns == app.turns
        &&& self.working == (Channels { g1: app.g1, g2: app.g2, g3: app.g3 })
    }
}

/// The loop after a series of passes.
pub open spec fn ran(
    passes: Seq<Pass>,
    new_bits: spec_fn(Option<Channels>, Channels) -> nat,
) -> LoopModel
    decreases passes.len(),
{
    if passes.len() == 0 {
        LoopModel::fresh()
    } else {
        ran(passes.drop_last(), new_bits).step(passes.last(), new_bits)
    }
}

/// The state that a head stands for: nothing without one.
pub open spec fn head_state(head: Option<Channels>) -> Channels {
    match head {
        Some(state) => state,
        None => Channels::none(),
    }
}

/// The store counts new bits: none in the head's own state, none in nothing
/// over an empty store, and some where the first channel has a bit that the
/// head lacks.
pub open spec fn counts_new_bits(new_bits: spec_fn(Option<Channels>, Channels) -> nat) -> bool {
    &&& forall|s: Channels| #[trigger] new_bits(Some(s), s) == 0
    &&& new_bits(None, Channels::none()) == 0
    &&& forall|head: Option<Channels>, s: Channels| #[trigger]
        new_bits(head, s) == 0 ==> s.g1.subset_of(head_state(head).g1)
}

/// The store counts the new bits of the other two channels too.
pub open spec fn counts_every_channel(
    new_bits: spec_fn(Option<Channels>, Channels) -> nat,
) -> bool {
    forall|head: Option<Channels>, s: Channels| #[trigger]
        new_bits(head, s) == 0 ==> s.g2.subset_of(head_state(head).g2) && s.g3.subset_of(
            head_state(head).g3,
        )
}

/// The sketches of a pass belong to its ids: the first channel is their
/// sketch, and without ids there is nothing in any channel.
pub open spec fn sketched<P: Fn(&Vec<u8>) -> (u32, u32)>(pass: Pass, position: &P) -> bool {
    &&& app::is_sketch(pass.channels.g1, pass.ids, position)
    &&& pass.ids.len() == 0 ==> pass.channels == Channels::none()
}

/// The turns that produced a commit, in order.
pub open spec fn committed(turns: Seq<TurnModel>) -> Seq<TurnModel>
    decreases turns.len(),
{
    if turns.len() == 0 {
        Seq::empty()
    } else if turns.last().commit is Some {
        committed(turns.drop_last()).push(turns.last())
    } else {
        committed(turns.drop_last())
    }
}

/// The store gives back what was committed: one entry per commit, with its id
/// and its message. Entry `k` is commit `places[k]`, and each commit has its
/// place.
pub open spec fn gives_back(
    log: Seq<LogEntry>,
    commits: Seq<Commit>,
    places: Seq<int>,
) -> bool {
    &&& log.len() == commits.len()
    &&& places.len() == commits.len()
    &&& places.no_duplicates()
    &&& forall|k: int| 0 <= k < places.len() ==> 0 <= #[trigger] places[k] < commits.len()
    &&& forall|k: int|
        0 <= k < log.len() ==> (#[trigger] log[k]).id@ == commits[places[k]].id
            && log[k].message is Some && log[k].message->0@ == commits[places[k]].message
}

// ── Laws ───────────────────────────────────────────────────────────────────

/// A turn through the app is a step of the loop: begun with the sketches of
/// the pass, committed where the pass brings new bits, and finished with the
/// commit that came of it.
pub proof fn turns_are_steps(
    l: LoopModel,
    pass: Pass,
    new_bits: spec_fn(Option<Channels>, Channels) -> nat,
    before: AppModel,
    begun: AppModel,
    finished: AppModel,
)
    requires
        l.tracks(before),
        begun == before.absorb(pass.channels.g1, pass.channels.g2, pass.channels.g3),
        finished.turns == begun.turns.push(
            TurnModel {
                ids: pass.ids,
                g1: pass.channels.g1,
                commit: if l.news(pass, new_bits) > 0 {
                    Some(pass.id)
                } else {
                    None
                },
            },
        ),
        finished.g1 == begun.g1,
        finished.g2 == begun.g2,
        finished.g3 == begun.g3,
    ensures
        l.step(pass, new_bits).tracks(finished),
{
}

/// A turn that repeats the last one brings no new bits: nothing is committed,
/// the head and the working set stay, and the turn is recorded all the same,
/// without a commit.
pub proof fn a_repeated_turn_commits_nothing(
    l: LoopModel,
    pass: Pass,
    again: Pass,
    new_bits: spec_fn(Option<Channels>, Channels) -> nat,
)
    requires
        again.ids == pass.ids,
        again.channels == pass.channels,
        forall|s: Channels| #[trigger] new_bits(Some(s), s) == 0,
    ensures
        l.step(pass, new_bits).news(again, new_bits) == 0,
        l.step(pass, new_bits).step(again, new_bits) == (LoopModel {
            turns: l.step(pass, new_bits).turns.push(
                TurnModel { ids: pass.ids, g1: pass.channels.g1, commit: None },
            ),
            ..l.step(pass, new_bits)
        }),
        l.step(pass, new_bits).step(again, new_bits).head() == l.step(pass, new_bits).head(),
        l.step(pass, new_bits).step(again, new_bits).head_id() == l.step(pass, new_bits).head_id(),
        l.step(pass, new_bits).step(again, new_bits).turns.len() == l.turns.len() + 2,
{
    let once = l.step(pass, new_bits);
    assert(once.working.join(again.channels) =~= once.working);
    if l.news(pass, new_bits) > 0 {
        assert(once.head() == Some(once.working));
    } else {
        assert(once.head() == l.head());
    }
}

/// After every turn nothing is pending: the working set has no bits that the
/// head lacks, and in the first channel it is what the head holds; where the
/// store counts every channel, in every channel.
pub proof fn nothing_is_pending(
    passes: Seq<Pass>,
    new_bits: spec_fn(Option<Channels>, Channels) -> nat,
)
    requires
        counts_new_bits(new_bits),
    ensures
        new_bits(ran(passes, new_bits).head(), ran(passes, new_bits).working) == 0,
        ran(passes, new_bits).working.g1 == head_state(ran(passes, new_bits).head()).g1,
        counts_every_channel(new_bits) ==> ran(passes, new_bits).working == head_state(
            ran(passes, new_bits).head(),
        ),
    decreases passes.len(),
{
    let l = ran(passes, new_bits);
    if passes.len() > 0 {
        let before = ran(passes.drop_last(), new_bits);
        nothing_is_pending(passes.drop_last(), new_bits);
        assert(before.working.g1.subset_of(l.working.g1));
        assert(before.working.g2.subset_of(l.working.g2));
        assert(before.working.g3.subset_of(l.working.g3));
        if before.news(passes.last(), new_bits) > 0 {
            assert(l.head() == Some(l.working));
        } else {
            assert(l.head() == before.head());
        }
    }
    assert(l.working.g1 =~= head_state(l.head()).g1);
    if counts_every_channel(new_bits) {
        assert(l.working =~= head_state(l.head()));
    }
}

/// A turn without ids is never committed.
pub proof fn empty_turns_are_not_committed<P: Fn(&Vec<u8>) -> (u32, u32)>(
    passes: Seq<Pass>,
    pass: Pass,
    new_bits: spec_fn(Option<Channels>, Channels) -> nat,
    position: &P,
)
    requires
        counts_new_bits(new_bits),
        sketched(pass, position),
        pass.ids.len() == 0,
    ensures
        ran(passes, new_bits).news(pass, new_bits) == 0,
{
    let l = ran(passes, new_bits);
    nothing_is_pending(passes, new_bits);
    assert(l.working.join(pass.channels) =~= l.working);
}

/// A steady position function gives a list of ids one sketch.
pub proof fn sketches_are_steady<P: Fn(&Vec<u8>) -> (u32, u32)>(
    a: Set<u32>,
    b: Set<u32>,
    ids: Seq<TokenId>,
    position: &P,
)
    requires
        hashing::is_steady(position),
        app::is_sketch(a, ids, position),
        app::is_sketch(b, ids, position),
    ensures
        a == b,
{
    let ps = choose|ps: Seq<(u32, u32)>| #[trigger]
        hashing::are_positions(ps, ids, position) && a == kstorage::addresses(ps).to_set();
    let qs = choose|qs: Seq<(u32, u32)>| #[trigger]
        hashing::are_positions(qs, ids, position) && b == kstorage::addresses(qs).to_set();
    hashing::positions_are_steady(ps, qs, ids, position);
}

/// The committed turns are those of the store's commits, one to one: each has
/// ids, its commit's id and message, and the sketch of its ids.
pub proof fn commits_record_the_committed_turns<P: Fn(&Vec<u8>) -> (u32, u32)>(
    passes: Seq<Pass>,
    new_bits: spec_fn(Option<Channels>, Channels) -> nat,
    position: &P,
)
    requires
        counts_new_bits(new_bits),
        forall|k: int| 0 <= k < passes.len() ==> sketched(#[trigger] passes[k], position),
    ensures
        committed(ran(passes, new_bits).turns).len() == ran(passes, new_bits).commits.len(),
        forall|k: int|
            0 <= k < ran(passes, new_bits).commits.len() ==> {
                let t = #[trigger] committed(ran(passes, new_bits).turns)[k];
                let c = ran(passes, new_bits).commits[k];
                &&& t.ids.len() > 0
                &&& t.commit == Some(c.id)
                &&& c.message == message::message_text(t.ids)
                &&& app::is_sketch(t.g1, t.ids, position)
            },
    decreases passes.len(),
{
    if passes.len() > 0 {
        let init = passes.drop_last();
        let pass = passes.last();
        assert forall|k: int| 0 <= k < init.len() implies sketched(
            #[trigger] init[k],
            position,
        ) by {
            assert(init[k] == passes[k]);
        }
        commits_record_the_committed_turns(init, new_bits, position);
        let before = ran(init, new_bits);
        let l = ran(passes, new_bits);
        assert(l == before.step(pass, new_bits));
        assert(l.turns.drop_last() =~= before.turns);
        assert(sketched(passes[passes.len() - 1], position));
        if pass.ids.len() == 0 {
            empty_turns_are_not_committed(init, pass, new_bits, position);
        }
        let old_turns = committed(before.turns);
        let turns = committed(l.turns);
        assert forall|k: int| 0 <= k < l.commits.len() implies {
            let t = #[trigger] turns[k];
            let c = l.commits[k];
            &&& t.ids.len() > 0
            &&& t.commit == Some(c.id)
            &&& c.message == message::message_text(t.ids)
            &&& app::is_sketch(t.g1, t.ids, position)
        } by {
            if k < before.commits.len() {
                assert(turns[k] == old_turns[k]);
            }
        }
    }
}

/// Distinct places below their own number leave none out.
proof fn lemma_every_place(places: Seq<int>, i: int)
    requires
        places.no_duplicates(),
        forall|k: int| 0 <= k < places.len() ==> 0 <= #[trigger] places[k] < places.len(),
        0 <= i < places.len(),
    ensures
        places.contains(i),
{
    let all = vstd::set_lib::set_int_range(0, places.len() as int);
    vstd::set_lib::lemma_int_range(0, places.len() as int);
    places.unique_seq_to_set();
    vstd::seq_lib::seq_to_set_is_finite(places);
    assert(places.to_set().subset_of(all));
    vstd::set_lib::lemma_subset_equality(places.to_set(), all);
    assert(all.contains(i));
}

/// Recovery restores the loop. After any turns, an app opened from the log and
/// the head that the store gives back holds exactly the turns that were
/// committed, with their ids, sketches and commits, in the order of the log;
/// where the log lists the commits as they were made, in the order of the
/// turns. The working set of the first channel is the one that the loop left;
/// where the store counts every channel, the whole working set. Of a turn
/// without a commit nothing comes back, and without any commit nothing at all.
pub proof fn recovery_restores_the_loop<P: Fn(&Vec<u8>) -> (u32, u32)>(
    passes: Seq<Pass>,
    new_bits: spec_fn(Option<Channels>, Channels) -> nat,
    position: &P,
    log: Seq<LogEntry>,
    places: Seq<int>,
    opened: AppModel,
)
    requires
        hashing::is_steady(position),
        counts_new_bits(new_bits),
        forall|k: int| 0 <= k < passes.len() ==> sketched(#[trigger] passes[k], position),
        gives_back(log, ran(passes, new_bits).commits, places),
        app::recovered(opened.turns, app::logged(log), position),
        (Channels { g1: opened.g1, g2: opened.g2, g3: opened.g3 }) == head_state(
            ran(passes, new_bits).head(),
        ),
    ensures
        opened.turns.len() == committed(ran(passes, new_bits).turns).len(),
        opened.turns.len() == ran(passes, new_bits).commits.len(),
        forall|k: int|
            0 <= k < opened.turns.len() ==> #[trigger] opened.turns[k] == committed(
                ran(passes, new_bits).turns,
            )[places[k]],
        opened.turns.to_set() == committed(ran(passes, new_bits).turns).to_set(),
        (forall|k: int| 0 <= k < places.len() ==> #[trigger] places[k] == k) ==> opened.turns
            == committed(ran(passes, new_bits).turns),
        ran(passes, new_bits).head_id() is None ==> opened.turns.len() == 0 && opened.g1
            == Set::<u32>::empty(),
        opened.g1 == ran(passes, new_bits).working.g1,
        counts_every_channel(new_bits) ==> opened.g2 == ran(passes, new_bits).working.g2
            && opened.g3 == ran(passes, new_bits).working.g3,
{
    let l = ran(passes, new_bits);
    let kept = committed(l.turns);
    commits_record_the_committed_turns(passes, new_bits, position);
    nothing_is_pending(passes, new_bits);
    let n = l.commits.len();
    let entries = Seq::new(n, |k: int| (l.commits[places[k]].id, kept[places[k]].ids));
    assert(app::commits(log, entries)) by {
        assert forall|k: int| 0 <= k < log.len() implies (#[trigger] log[k]).id@ == entries[k].0
            && log[k].message is Some && log[k].message->0@ == message::message_text(
            entries[k].1,
        ) by {
            assert(0 <= places[k] < n);
            assert(kept[places[k]].ids == entries[k].1);
        }
    }
    assert forall|k: int| 0 <= k < entries.len() implies (#[trigger] entries[k]).1.len() > 0 by {
        assert(0 <= places[k] < n);
        assert(kept[places[k]].ids == entries[k].1);
    }
    app::recovery_reads_back_the_commits(log, entries);
    assert forall|k: int| 0 <= k < n implies #[trigger] opened.turns[k] == kept[places[k]] by {
        let was = kept[places[k]];
        assert(0 <= places[k] < n);
        assert(opened.turns[k].ids == entries[k].1);
        assert(was.commit == Some(l.commits[places[k]].id));
        sketches_are_steady(opened.turns[k].g1, was.g1, was.ids, position);
        assert(opened.turns[k] =~= was);
    }
    assert forall|t: TurnModel| kept.contains(t) implies opened.turns.contains(t) by {
        let i = kept.index_of(t);
        lemma_every_place(places, i);
        let k = places.index_of(i);
        assert(opened.turns[k] == t);
    }
    assert forall|t: TurnModel| opened.turns.contains(t) implies kept.contains(t) by {
        let k = opened.turns.index_of(t);
        assert(opened.turns[k] == kept[places[k]]);
        assert(0 <= places[k] < n);
    }
    assert(opened.turns.to_set() =~= kept.to_set());
    if forall|k: int| 0 <= k < places.len() ==> #[trigger] places[k] == k {
        assert forall|k: int| 0 <= k < n implies opened.turns[k] == kept[k] by {
            assert(places[k] == k);
            assert(opened.turns[k] == kept[places[k]]);
        }
        assert(opened.turns =~= kept);
    }
}

} // verus!
