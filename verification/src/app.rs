//! The Noether loop: `H(t) = (S(t), H(t-1), D, R, N)`.
//!
//! Each turn runs `ingest → S(t) → evolve → persist → advance head`:
//!
//! - **ingest**: the caller sketches the turn's tokens, one sketch per channel;
//! - **S(t)**: [`CortexApp::begin_turn`] joins the sketches into the cumulative
//!   working set and says what would be committed;
//! - **persist**: the caller commits where [`should_commit`] says so; a pass
//!   that brings no new bits is skipped;
//! - **evolve**: [`CortexApp::finish_turn`] records the turn, rebuilds the
//!   unified context over all turns and reports the step.
//!
//! Recovery is a read: [`CortexApp::read_log`] rebuilds the turns from the
//! commit messages, and [`CortexApp::open`] resumes from them.

use crate::context;
use crate::context::MatrixModel;
use crate::context_unified;
use crate::context_unified::{Context, ContextModel};
use crate::hashing;
use crate::kstorage;
use crate::lattice;
use crate::lattice::HLLSet;
use crate::message;
use crate::order;
use crate::tree;
use crate::tree::TreeDiff;
use crate::views;
use crate::working_set;
use crate::working_set::{NamedLut, WorkItem};
use crate::TokenId;
use vstd::prelude::*;
use vstd::slice::slice_to_vec;
use vstd::string::*;

verus! {

/// The inscription that this loop uses.
pub const APP_ENCODING_NAME: &'static str = "tid";

// ── Sketching ──────────────────────────────────────────────────────────────

/// `h` is the sketch of the ids: the addresses of their tokens.
pub open spec fn is_sketch<P: Fn(&Vec<u8>) -> (u32, u32)>(
    h: Set<u32>,
    ids: Seq<TokenId>,
    position: &P,
) -> bool {
    exists|ps: Seq<(u32, u32)>| #[trigger]
        hashing::are_positions(ps, ids, position) && h == kstorage::addresses(ps).to_set()
}

/// The sketch of a turn's ids.
pub fn sketch_of<P: Fn(&Vec<u8>) -> (u32, u32)>(ids: &[TokenId], position: &P) -> (r: HLLSet)
    requires
        hashing::is_locator(position),
    ensures
        r.wf(),
        is_sketch(r@, ids@, position),
{
    let ps = hashing::positions_of(ids, position);
    let r = HLLSet::from_positions(ps.as_slice());
    assert(r@ == kstorage::addresses(ps@).to_set());
    r
}

// ── Turns ──────────────────────────────────────────────────────────────────

/// One recorded turn: the token collection and its sketch.
#[derive(Debug)]
pub struct TurnRecord {
    /// The turn's token ids.
    pub ids: Vec<TokenId>,
    /// The seed-0 sketch of the token collection.
    pub g1: HLLSet,
    /// The commit this turn produced (`None` when the pass brought no new
    /// bits and was skipped).
    pub commit: Option<String>,
}

impl Clone for TurnRecord {
    fn clone(&self) -> (r: Self)
        ensures
            r@ == self@,
            self.g1.wf() ==> r.g1.wf(),
    {
        let commit = match &self.commit {
            Some(c) => Some(c.clone()),
            None => None,
        };
        TurnRecord { ids: slice_to_vec(self.ids.as_slice()), g1: self.g1.clone(), commit }
    }
}

/// Model of a [`TurnRecord`].
#[verifier::ext_equal]
pub struct TurnModel {
    pub ids: Seq<TokenId>,
    pub g1: Set<u32>,
    pub commit: Option<Seq<char>>,
}

impl View for TurnRecord {
    type V = TurnModel;

    open spec fn view(&self) -> TurnModel {
        TurnModel {
            ids: self.ids@,
            g1: self.g1@,
            commit: match self.commit {
                Some(c) => Some(c@),
                None => None,
            },
        }
    }
}

/// The models of a list of turns.
pub open spec fn records(turns: Seq<TurnRecord>) -> Seq<TurnModel> {
    turns.map_values(|t: TurnRecord| t@)
}

/// The ids of each turn.
pub open spec fn collections(turns: Seq<TurnModel>) -> Seq<Seq<TokenId>> {
    turns.map_values(|t: TurnModel| t.ids)
}

/// One entry of the commit log: the commit's id, and its message where it
/// could be read.
#[derive(Debug)]
pub struct LogEntry {
    pub id: String,
    pub message: Option<String>,
}

/// The ids that an entry carries.
pub open spec fn entry_ids(e: LogEntry) -> Option<Seq<TokenId>> {
    match e.message {
        Some(m) => message::message_ids(m@),
        None => None,
    }
}

/// The turns that a log records: the commit id and the token ids of each entry
/// that carries ids, in log order.
pub open spec fn logged(log: Seq<LogEntry>) -> Seq<(Seq<char>, Seq<TokenId>)>
    decreases log.len(),
{
    if log.len() == 0 {
        Seq::empty()
    } else {
        let rest = logged(log.drop_last());
        match entry_ids(log.last()) {
            Some(ids) => rest.push((log.last().id@, ids)),
            None => rest,
        }
    }
}

/// The turns are those that a log records, each with a sketch of its ids.
pub open spec fn recovered<P: Fn(&Vec<u8>) -> (u32, u32)>(
    turns: Seq<TurnModel>,
    entries: Seq<(Seq<char>, Seq<TokenId>)>,
    position: &P,
) -> bool {
    &&& turns.len() == entries.len()
    &&& forall|k: int|
        0 <= k < turns.len() ==> (#[trigger] turns[k]).commit == Some(entries[k].0) && turns[k].ids
            == entries[k].1 && is_sketch(turns[k].g1, turns[k].ids, position)
}

// ── What a turn commits ────────────────────────────────────────────────────

/// The state that a turn would commit: the working set per channel, the term
/// frequencies, the parents and the message.
#[derive(Debug)]
pub struct CommitProposal {
    pub g1: HLLSet,
    pub g2: HLLSet,
    pub g3: HLLSet,
    pub tf: Vec<u64>,
    pub parents: Vec<String>,
    pub message: String,
}

/// Whether a state is committed: only where it brings new bits.
pub fn should_commit(new_bits: u64) -> (r: bool)
    ensures
        r == (new_bits > 0),
{
    new_bits != 0
}

/// The step that a turn made: the leaf-level difference and the full image.
#[derive(Debug)]
pub struct TurnStep {
    pub diff: TreeDiff,
    pub full_image: Vec<Vec<u8>>,
}

/// The pointwise sum of two frequency vectors.
pub open spec fn summed(a: Seq<u64>, b: Seq<u64>) -> Seq<int> {
    Seq::new(a.len(), |k: int| a[k] + b[k])
}

/// What can go wrong in a turn.
#[derive(Debug, PartialEq, Eq)]
pub enum AppError {
    /// The store failed, with its words.
    Store(String),
    Other(String),
}

impl AppError {
    /// The words of an error.
    pub open spec fn words(&self) -> Seq<char> {
        match self {
            AppError::Store(e) => "store error: "@ + e@,
            AppError::Other(e) => e@,
        }
    }

    /// The words of an error.
    pub fn to_text(&self) -> (r: String)
        ensures
            r@ == self.words(),
    {
        match self {
            AppError::Store(e) => {
                let mut r = "store error: ".to_owned();
                r.append(e.as_str());
                r
            },
            AppError::Other(e) => e.clone(),
        }
    }
}

// ── The loop ───────────────────────────────────────────────────────────────

/// The state of the loop: turns in, commits out.
#[derive(Debug)]
pub struct CortexApp {
    turns: Vec<TurnRecord>,
    context: Context,
    g1: HLLSet,
    g2: HLLSet,
    g3: HLLSet,
    tf_base: Vec<u64>,
    turn: u64,
}

/// Model of a [`CortexApp`].
#[verifier::ext_equal]
pub struct AppModel {
    pub turns: Seq<TurnModel>,
    pub context: ContextModel,
    pub g1: Set<u32>,
    pub g2: Set<u32>,
    pub g3: Set<u32>,
    pub tf_base: Seq<u64>,
}

impl AppModel {
    /// The working set joined with the sketches of one pass.
    pub open spec fn absorb(self, c1: Set<u32>, c2: Set<u32>, c3: Set<u32>) -> AppModel {
        AppModel {
            g1: self.g1.union(c1),
            g2: self.g2.union(c2),
            g3: self.g3.union(c3),
            ..self
        }
    }
}

impl View for CortexApp {
    type V = AppModel;

    closed spec fn view(&self) -> AppModel {
        AppModel {
            turns: records(self.turns@),
            context: self.context@,
            g1: self.g1@,
            g2: self.g2@,
            g3: self.g3@,
            tf_base: self.tf_base@,
        }
    }
}

/// The context is that of the recorded turns over a LUT family: the matrix has
/// learned every turn, the tree has the turns' leaves, and each turn has its
/// full-image view.
pub open spec fn is_context<
    K: Fn(&Vec<Vec<u8>>) -> String,
    D: Fn(&Vec<Vec<u8>>) -> String,
>(c: ContextModel, turns: Seq<TurnModel>, luts: Seq<NamedLut>, key: &K, digest: &D) -> bool {
    &&& exists|items: Seq<WorkItem>| #[trigger]
        are_items(items, turns, luts) && working_set::is_tree(c.tree, items, key, digest)
    &&& c.matrix == MatrixModel::empty().learn_all(collections(turns))
    &&& c.views.len() == turns.len()
    &&& forall|k: int|
        0 <= k < turns.len() ==> working_set::is_record(
            #[trigger] c.views[k],
            turns[k].ids,
            "all"@,
            working_set::family_image(luts, turns[k].g1),
            key,
            digest,
        )
}

/// The items are the turns over a LUT family.
pub open spec fn are_items(items: Seq<WorkItem>, turns: Seq<TurnModel>, luts: Seq<NamedLut>) -> bool {
    &&& items.len() == turns.len()
    &&& forall|k: int|
        0 <= k < items.len() ==> (#[trigger] items[k]).ids@ == turns[k].ids && items[k].sketch@
            == turns[k].g1 && items[k].luts@ == luts
}

fn empty_tf() -> (r: Vec<u64>)
    ensures
        r@.len() == lattice::TOTAL_BITS,
        forall|k: int| 0 <= k < r@.len() ==> r@[k] == 0,
{
    let mut r: Vec<u64> = Vec::new();
    for i in 0..lattice::TOTAL_BITS
        invariant
            r@.len() == i,
            forall|k: int| 0 <= k < i ==> r@[k] == 0,
    {
        r.push(0);
    }
    r
}

/// Build the unified context of the recorded turns.
fn context_of<K: Fn(&Vec<Vec<u8>>) -> String, D: Fn(&Vec<Vec<u8>>) -> String>(
    turns: &Vec<TurnRecord>,
    luts: &[NamedLut],
    key: &K,
    digest: &D,
) -> (r: Context)
    requires
        forall|k: int| 0 <= k < turns@.len() ==> (#[trigger] turns@[k]).g1.wf(),
        working_set::family_wf(luts@),
        views::total(key),
        views::total(digest),
        context::square_fits(
            MatrixModel::empty().learn_all(collections(records(turns@))).nodes.len(),
        ),
    ensures
        r.wf(),
        is_context(r@, records(turns@), luts@, key, digest),
{
    let mut items: Vec<WorkItem> = Vec::new();
    for i in 0..turns.len()
        invariant
            forall|k: int| 0 <= k < turns@.len() ==> (#[trigger] turns@[k]).g1.wf(),
            working_set::family_wf(luts@),
            items@.len() == i,
            forall|k: int|
                0 <= k < i ==> (#[trigger] items@[k]).ids@ == turns@[k].ids@ && items@[k].sketch@
                    == turns@[k].g1@ && items@[k].luts@ == luts@ && working_set::item_wf(items@[k]),
    {
        let turn = &turns[i];
        items.push(WorkItem { sketch: &turn.g1, ids: turn.ids.as_slice(), luts });
    }
    let ghost model = records(turns@);
    proof {
        assert(are_items(items@, model, luts@));
        assert(working_set::sources(items@) =~= collections(model));
    }
    let r = working_set::unified_context_for(items.as_slice(), key, digest);
    proof {
        assert forall|k: int| 0 <= k < model.len() implies working_set::is_record(
            #[trigger] r@.views[k],
            model[k].ids,
            "all"@,
            working_set::family_image(luts@, model[k].g1),
            key,
            digest,
        ) by {
            assert(items@[k].ids@ == turns@[k].ids@);
        }
    }
    r
}

impl CortexApp {
    /// The sketches and the context are well-formed, the frequencies cover
    /// every address, and the turn counter counts the turns.
    pub closed spec fn wf(&self) -> bool {
        &&& self.context.wf()
        &&& self.g1.wf()
        &&& self.g2.wf()
        &&& self.g3.wf()
        &&& self.tf_base@.len() == lattice::TOTAL_BITS
        &&& self.turn == self.turns@.len()
        &&& forall|k: int| 0 <= k < self.turns@.len() ==> (#[trigger] self.turns@[k]).g1.wf()
    }

    /// The leaf keys of the context in ascending order.
    pub closed spec fn keys(&self) -> Seq<Seq<char>> {
        self.context.keys()
    }

    /// A fresh loop.
    pub fn new() -> (r: Self)
        ensures
            r.wf(),
            r@.turns == Seq::<TurnModel>::empty(),
            r@.context == ContextModel::empty(),
            r@.g1 == Set::<u32>::empty(),
            r@.g2 == Set::<u32>::empty(),
            r@.g3 == Set::<u32>::empty(),
            r@.tf_base.len() == lattice::TOTAL_BITS,
            forall|k: int| 0 <= k < r@.tf_base.len() ==> r@.tf_base[k] == 0,
    {
        let r = CortexApp {
            turns: Vec::new(),
            context: Context::new(),
            g1: HLLSet::new(),
            g2: HLLSet::new(),
            g3: HLLSet::new(),
            tf_base: empty_tf(),
            turn: 0,
        };
        assert(r@.turns =~= Seq::<TurnModel>::empty());
        r
    }

    /// The turns that a commit log records, each with its sketch.
    pub fn read_log<P: Fn(&Vec<u8>) -> (u32, u32)>(log: &[LogEntry], position: &P) -> (r: Vec<
        TurnRecord,
    >)
        requires
            hashing::is_locator(position),
        ensures
            recovered(records(r@), logged(log@), position),
            forall|k: int| 0 <= k < r@.len() ==> (#[trigger] r@[k]).g1.wf(),
    {
        let mut turns: Vec<TurnRecord> = Vec::new();
        assert(log@.take(0) =~= Seq::empty());
        for i in 0..log.len()
            invariant
                hashing::is_locator(position),
                recovered(records(turns@), logged(log@.take(i as int)), position),
                forall|k: int| 0 <= k < turns@.len() ==> (#[trigger] turns@[k]).g1.wf(),
        {
            assert(log@.take(i + 1).drop_last() =~= log@.take(i as int));
            let entry = &log[i];
            if let Some(m) = &entry.message {
                if let Some(ids) = message::parse_ids_message(m.as_str()) {
                    let g1 = sketch_of(ids.as_slice(), position);
                    let turn = TurnRecord { ids, g1, commit: Some(entry.id.clone()) };
                    let ghost turns0 = turns@;
                    let ghost last = turn@;
                    turns.push(turn);
                    proof {
                        assert(records(turns@) =~= records(turns0).push(last));
                    }
                }
            }
        }
        assert(log@.take(log@.len() as int) =~= log@);
        turns
    }

    /// Recovery: resume from the turns that the commit log records, the head's
    /// channel states and its term frequencies.
    pub fn open<K: Fn(&Vec<Vec<u8>>) -> String, D: Fn(&Vec<Vec<u8>>) -> String>(
        turns: Vec<TurnRecord>,
        states: Option<(HLLSet, HLLSet, HLLSet)>,
        tf: Option<Vec<u64>>,
        luts: &[NamedLut],
        key: &K,
        digest: &D,
    ) -> (r: Self)
        requires
            forall|k: int| 0 <= k < turns@.len() ==> (#[trigger] turns@[k]).g1.wf(),
            states matches Some(s) ==> s.0.wf() && s.1.wf() && s.2.wf(),
            tf matches Some(v) ==> v@.len() == lattice::TOTAL_BITS,
            working_set::family_wf(luts@),
            views::total(key),
            views::total(digest),
            context::square_fits(
                MatrixModel::empty().learn_all(collections(records(turns@))).nodes.len(),
            ),
        ensures
            r.wf(),
            r@.turns == records(turns@),
            is_context(r@.context, r@.turns, luts@, key, digest),
            match states {
                Some(s) => r@.g1 == s.0@ && r@.g2 == s.1@ && r@.g3 == s.2@,
                None => r@.g1 == Set::<u32>::empty() && r@.g2 == Set::<u32>::empty() && r@.g3
                    == Set::<u32>::empty(),
            },
            match tf {
                Some(v) => r@.tf_base == v@,
                None => r@.tf_base.len() == lattice::TOTAL_BITS && (forall|k: int|
                    0 <= k < r@.tf_base.len() ==> r@.tf_base[k] == 0),
            },
    {
        let context = context_of(&turns, luts, key, digest);
        let (g1, g2, g3) = match states {
            Some(s) => s,
            None => (HLLSet::new(), HLLSet::new(), HLLSet::new()),
        };
        let tf_base = match tf {
            Some(v) => v,
            None => empty_tf(),
        };
        let turn = turns.len() as u64;
        CortexApp { turns, context, g1, g2, g3, tf_base, turn }
    }

    /// The recorded turns.
    pub fn turns(&self) -> (r: &[TurnRecord])
        ensures
            records(r@) == self@.turns,
    {
        self.turns.as_slice()
    }

    /// The unified context.
    pub fn context(&self) -> (r: &Context)
        requires
            self.wf(),
        ensures
            r.wf(),
            r@ == self@.context,
            r.keys() == self.keys(),
    {
        &self.context
    }

    /// How many turns were recorded.
    pub fn turn_count(&self) -> (r: u64)
        requires
            self.wf(),
        ensures
            r == self@.turns.len(),
    {
        self.turn
    }

    /// The cumulative working set of the first channel.
    pub fn working_g1(&self) -> (r: &HLLSet)
        requires
            self.wf(),
        ensures
            r.wf(),
            r@ == self@.g1,
    {
        &self.g1
    }

    /// The term frequencies restored on opening.
    pub fn tf_base(&self) -> (r: &[u64])
        ensures
            r@ == self@.tf_base,
    {
        self.tf_base.as_slice()
    }

    /// The full monotone term frequency: the restored baseline plus what was
    /// ingested since the start.
    pub fn current_tf(&self, since_start: &[u64]) -> (r: Vec<u64>)
        requires
            self.wf(),
            since_start@.len() == self@.tf_base.len(),
            forall|k: int|
                0 <= k < since_start@.len() ==> #[trigger] since_start@[k] + self@.tf_base[k]
                    <= u64::MAX,
        ensures
            r@.map_values(|v: u64| v as int) == summed(self@.tf_base, since_start@),
    {
        let mut r: Vec<u64> = Vec::new();
        for i in 0..self.tf_base.len()
            invariant
                self.wf(),
                since_start@.len() == self.tf_base@.len(),
                forall|k: int|
                    0 <= k < since_start@.len() ==> #[trigger] since_start@[k] + self.tf_base@[k]
                        <= u64::MAX,
                r@.len() == i,
                forall|k: int| 0 <= k < i ==> r@[k] == self.tf_base@[k] + since_start@[k],
        {
            assert(since_start@[i as int] + self.tf_base@[i as int] <= u64::MAX);
            r.push(self.tf_base[i] + since_start[i]);
        }
        assert(r@.map_values(|v: u64| v as int) =~= summed(self@.tf_base, since_start@));
        r
    }

    /// Begin a turn: join the sketches of the pass into the working set, and
    /// say what would be committed on top of `head`.
    pub fn begin_turn(
        &mut self,
        ids: &[TokenId],
        channels: (&HLLSet, &HLLSet, &HLLSet),
        since_start: &[u64],
        head: Option<String>,
    ) -> (r: CommitProposal)
        requires
            old(self).wf(),
            channels.0.wf(),
            channels.1.wf(),
            channels.2.wf(),
            since_start@.len() == old(self)@.tf_base.len(),
            forall|k: int|
                0 <= k < since_start@.len() ==> #[trigger] since_start@[k] + old(self)@.tf_base[k]
                    <= u64::MAX,
        ensures
            final(self).wf(),
            final(self)@ == old(self)@.absorb(channels.0@, channels.1@, channels.2@),
            final(self).keys() == old(self).keys(),
            r.g1.wf() && r.g1@ == final(self)@.g1,
            r.g2.wf() && r.g2@ == final(self)@.g2,
            r.g3.wf() && r.g3@ == final(self)@.g3,
            r.tf@.map_values(|v: u64| v as int) == summed(old(self)@.tf_base, since_start@),
            r.message@ == message::message_text(ids@),
            tree::texts(r.parents@) == match head {
                Some(h) => seq![h@],
                None => Seq::empty(),
            },
    {
        let (c1, c2, c3) = channels;
        self.g1 = self.g1.union(c1);
        self.g2 = self.g2.union(c2);
        self.g3 = self.g3.union(c3);
        let tf = self.current_tf(since_start);
        let ghost h = head;
        let mut parents: Vec<String> = Vec::new();
        if let Some(id) = head {
            parents.push(id);
        }
        proof {
            assert(tree::texts(parents@) =~= match h {
                Some(x) => seq![x@],
                None => Seq::empty(),
            });
        }
        CommitProposal {
            g1: self.g1.clone(),
            g2: self.g2.clone(),
            g3: self.g3.clone(),
            tf,
            parents,
            message: message::ids_message(ids),
        }
    }

    /// Finish a turn: record it with the commit it produced, rebuild the
    /// context over all turns, and report the step.
    pub fn finish_turn<K: Fn(&Vec<Vec<u8>>) -> String, D: Fn(&Vec<Vec<u8>>) -> String>(
        &mut self,
        ids: &[TokenId],
        turn_g1: HLLSet,
        commit: Option<String>,
        luts: &[NamedLut],
        key: &K,
        digest: &D,
    ) -> (r: TurnStep)
        requires
            old(self).wf(),
            turn_g1.wf(),
            working_set::family_wf(luts@),
            views::total(key),
            views::total(digest),
            context::square_fits(
                MatrixModel::empty().learn_all(
                    collections(old(self)@.turns).push(ids@),
                ).nodes.len(),
            ),
        ensures
            final(self).wf(),
            final(self)@.turns == old(self)@.turns.push(
                TurnModel {
                    ids: ids@,
                    g1: turn_g1@,
                    commit: match commit {
                        Some(c) => Some(c@),
                        None => None,
                    },
                },
            ),
            is_context(final(self)@.context, final(self)@.turns, luts@, key, digest),
            final(self)@.g1 == old(self)@.g1,
            final(self)@.g2 == old(self)@.g2,
            final(self)@.g3 == old(self)@.g3,
            final(self)@.tf_base == old(self)@.tf_base,
            tree::texts(r.diff.added@) == final(self).keys().filter(
                |h: Seq<char>| old(self)@.context.tree.contains_key(h) == false,
            ),
            tree::texts(r.diff.removed@) == old(self).keys().filter(
                |h: Seq<char>| final(self)@.context.tree.contains_key(h) == false,
            ),
            tree::texts(r.diff.retained@) == old(self).keys().filter(
                |h: Seq<char>| final(self)@.context.tree.contains_key(h) == true,
            ),
            order::ascending_tokens(order::tokens(r.full_image@)),
            order::tokens(r.full_image@).to_set() == context_unified::image_tokens(
                final(self)@.context.views,
            ),
    {
        let ghost before = self@;
        let turn = TurnRecord { ids: slice_to_vec(ids), g1: turn_g1, commit };
        let ghost last = turn@;
        self.turns.push(turn);
        self.turn = self.turns.len() as u64;
        proof {
            assert(records(self.turns@) =~= before.turns.push(last));
            assert(collections(records(self.turns@)) =~= collections(before.turns).push(ids@));
        }
        let next = context_of(&self.turns, luts, key, digest);
        let diff = self.context.diff(&next);
        self.context = next;
        let full_image = self.context.full_image_tokens();
        TurnStep { diff, full_image }
    }
}

impl Default for CortexApp {
    fn default() -> (r: Self)
        ensures
            r.wf(),
            r@.turns == Seq::<TurnModel>::empty(),
            r@.context == ContextModel::empty(),
            r@.g1 == Set::<u32>::empty(),
            r@.g2 == Set::<u32>::empty(),
            r@.g3 == Set::<u32>::empty(),
            r@.tf_base.len() == lattice::TOTAL_BITS,
            forall|k: int| 0 <= k < r@.tf_base.len() ==> r@.tf_base[k] == 0,
    {
        CortexApp::new()
    }
}

// ── Laws ───────────────────────────────────────────────────────────────────

/// The entries are the commits of the turns, each with the turn's message.
pub open spec fn commits(log: Seq<LogEntry>, turns: Seq<(Seq<char>, Seq<TokenId>)>) -> bool {
    &&& log.len() == turns.len()
    &&& forall|k: int|
        0 <= k < log.len() ==> (#[trigger] log[k]).id@ == turns[k].0 && log[k].message is Some
            && log[k].message->0@ == message::message_text(turns[k].1)
}

/// Recovery reads back what was committed: a log of the commits of non-empty
/// turns records those turns, in order.
pub proof fn recovery_reads_back_the_commits(
    log: Seq<LogEntry>,
    turns: Seq<(Seq<char>, Seq<TokenId>)>,
)
    requires
        commits(log, turns),
        forall|k: int| 0 <= k < turns.len() ==> (#[trigger] turns[k]).1.len() > 0,
    ensures
        logged(log) == turns,
    decreases log.len(),
{
    if log.len() == 0 {
        assert(logged(log) =~= turns);
    } else {
        let init = log.drop_last();
        let prior = turns.drop_last();
        assert forall|k: int| 0 <= k < init.len() implies (#[trigger] init[k]).id@ == prior[k].0
            && init[k].message is Some && init[k].message->0@ == message::message_text(
            prior[k].1,
        ) by {
            assert(log[k] == init[k]);
        }
        assert forall|k: int| 0 <= k < prior.len() implies (#[trigger] prior[k]).1.len() > 0 by {
            assert(turns[k] == prior[k]);
        }
        recovery_reads_back_the_commits(init, prior);
        let last = turns[turns.len() - 1];
        assert(log[log.len() - 1].message->0@ == message::message_text(last.1));
        message::messages_read_back(last.1);
        assert(logged(log) =~= prior.push(last));
        assert(prior.push(last) =~= turns);
    }
}

/// Entries without ids change nothing: foreign commits and unreadable ones are
/// passed over.
pub proof fn foreign_commits_are_passed_over(log: Seq<LogEntry>, entry: LogEntry)
    requires
        entry_ids(entry) is None,
    ensures
        logged(log.push(entry)) == logged(log),
{
    assert(log.push(entry).drop_last() =~= log);
}

/// The working set only grows, and a pass that was absorbed already brings
/// nothing new.
pub proof fn the_working_set_is_cumulative(m: AppModel, c1: Set<u32>, c2: Set<u32>, c3: Set<u32>)
    ensures
        m.g1.subset_of(m.absorb(c1, c2, c3).g1),
        m.g2.subset_of(m.absorb(c1, c2, c3).g2),
        m.g3.subset_of(m.absorb(c1, c2, c3).g3),
        m.absorb(c1, c2, c3).absorb(c1, c2, c3) == m.absorb(c1, c2, c3),
        c1.subset_of(m.g1) && c2.subset_of(m.g2) && c3.subset_of(m.g3) ==> m.absorb(c1, c2, c3)
            == m,
{
    let once = m.absorb(c1, c2, c3);
    assert(once.absorb(c1, c2, c3) =~= once);
    if c1.subset_of(m.g1) && c2.subset_of(m.g2) && c3.subset_of(m.g3) {
        assert(once =~= m);
    }
}

/// Passes commute: the working set does not depend on the order of the turns.
pub proof fn passes_commute(
    m: AppModel,
    a: (Set<u32>, Set<u32>, Set<u32>),
    b: (Set<u32>, Set<u32>, Set<u32>),
)
    ensures
        m.absorb(a.0, a.1, a.2).absorb(b.0, b.1, b.2) == m.absorb(b.0, b.1, b.2).absorb(
            a.0,
            a.1,
            a.2,
        ),
{
    assert(m.absorb(a.0, a.1, a.2).absorb(b.0, b.1, b.2) =~= m.absorb(b.0, b.1, b.2).absorb(
        a.0,
        a.1,
        a.2,
    ));
}

/// Term frequency never falls below the restored baseline, and more ingestion
/// never lowers it.
pub proof fn frequencies_are_monotone(base: Seq<u64>, a: Seq<u64>, b: Seq<u64>, k: int)
    requires
        0 <= k < base.len(),
        a[k] <= b[k],
    ensures
        base[k] <= summed(base, a)[k] <= summed(base, b)[k],
{
}

} // verus!
