//! TF-LUT: the monotonic term-frequency reverse index.
//!
//! - `register` interns an encoding id in the append-only LUT;
//! - `observe` accumulates per-id term frequency from ingested inputs
//!   (monotonic, ungated: the LUT is never filtered);
//! - `materialize` resolves a sketch through the LUT; term frequency decides
//!   only where several ids collide on one bit.

use crate::hashing;
use crate::index;
use crate::index::HashedToken;
use crate::kstorage::{Coverage, TokenLutStorage};
use crate::lattice;
use crate::lattice::HLLSet;
use crate::order;
use vstd::prelude::*;

verus! {

// ── The model ──────────────────────────────────────────────────────────────

/// What a TF-LUT holds: the reverse index and each id's term frequency.
#[verifier::ext_equal]
pub struct TfModel {
    pub lut: Map<Seq<u8>, index::Slot>,
    pub tf: Map<Seq<u8>, nat>,
}

/// How often an id occurs in a list.
pub open spec fn occurrences(ids: Seq<Seq<u8>>, id: Seq<u8>) -> nat
    decreases ids.len(),
{
    if ids.len() == 0 {
        0
    } else {
        occurrences(ids.drop_last(), id) + if ids.last() == id {
            1nat
        } else {
            0nat
        }
    }
}

impl TfModel {
    /// The same ids are indexed and counted.
    pub open spec fn valid(self) -> bool {
        self.lut.dom() == self.tf.dom()
    }

    /// Nothing registered.
    pub open spec fn empty() -> TfModel {
        TfModel { lut: Map::empty(), tf: Map::empty() }
    }

    /// The term frequency of an id, 0 if it was never observed.
    pub open spec fn count(self, id: Seq<u8>) -> nat {
        if self.tf.contains_key(id) {
            self.tf[id]
        } else {
            0
        }
    }

    /// With an id interned.
    pub open spec fn register(self, t: HashedToken) -> TfModel {
        TfModel {
            lut: index::enter(self.lut, t),
            tf: self.tf.insert(t.bytes@, self.count(t.bytes@)),
        }
    }

    /// With an id interned and counted once more.
    pub open spec fn observe_one(self, t: HashedToken) -> TfModel {
        TfModel {
            lut: index::enter(self.lut, t),
            tf: self.tf.insert(t.bytes@, self.count(t.bytes@) + 1),
        }
    }

    /// With a batch of ids observed one after the other.
    pub open spec fn observe(self, ts: Seq<HashedToken>) -> TfModel
        decreases ts.len(),
    {
        if ts.len() == 0 {
            self
        } else {
            self.observe(ts.drop_last()).observe_one(ts.last())
        }
    }

    /// `a` is preferred to `b` in a collision group: the higher term
    /// frequency wins, and byte order breaks ties.
    pub open spec fn preferred(self, a: Seq<u8>, b: Seq<u8>) -> bool {
        self.count(a) > self.count(b) || (self.count(a) == self.count(b) && order::before(a, b))
    }

    /// `t` is the token that an address resolves to: the preferred one of the
    /// fiber.
    pub open spec fn wins(self, bit: u32, t: Seq<u8>) -> bool {
        &&& index::fiber(self.lut, bit).contains(t)
        &&& forall|u: Seq<u8>| #[trigger]
            index::fiber(self.lut, bit).contains(u) && u != t ==> self.preferred(t, u)
    }

    /// The addresses among `bits` that resolve to a token, in order.
    pub open spec fn covered(self, bits: Seq<u32>) -> Seq<u32> {
        bits.filter(|bit: u32| index::resolves(self.lut, bit))
    }

    /// `out` are the tokens that the addresses `bits` resolve to, in bit order.
    pub open spec fn materializes(self, bits: Seq<u32>, out: Seq<Seq<u8>>) -> bool {
        &&& out.len() == self.covered(bits).len()
        &&& forall|k: int| 0 <= k < out.len() ==> self.wins(self.covered(bits)[k], #[trigger] out[k])
    }
}

// ── The index ──────────────────────────────────────────────────────────────

/// Monotonic TF reverse index over encoding ids.
#[derive(Debug)]
pub struct TfLut {
    storage: TokenLutStorage,
    counts: Vec<u64>,
}

impl View for TfLut {
    type V = TfModel;

    closed spec fn view(&self) -> TfModel {
        let ids = self.storage.listed();
        TfModel {
            lut: self.storage@,
            tf: Map::new(
                |t: Seq<u8>| ids.contains(t),
                |t: Seq<u8>| self.counts@[ids.index_of(t)] as nat,
            ),
        }
    }
}

impl TfLut {
    /// Every registered id has its count.
    pub closed spec fn wf(&self) -> bool {
        &&& self.storage.wf()
        &&& self.counts@.len() == self.storage.listed().len()
    }

    /// The same ids are indexed and counted, finitely many.
    pub proof fn lemma_valid(&self)
        requires
            self.wf(),
        ensures
            self@.valid(),
            self@.tf.dom().finite(),
    {
        self.storage.lemma_listed();
        assert(self@.lut.dom() =~= self@.tf.dom());
    }

    proof fn lemma_count(&self, k: int)
        requires
            self.wf(),
            0 <= k < self.counts@.len(),
        ensures
            self@.tf.contains_key(self.storage.listed()[k]),
            self@.lut.contains_key(self.storage.listed()[k]),
            self@.tf[self.storage.listed()[k]] == self.counts@[k],
    {
        self.storage.lemma_listed();
        let ids = self.storage.listed();
        assert(ids.contains(ids[k]));
        assert(ids[ids.index_of(ids[k])] == ids[k]);
    }

    /// Create an empty TF-LUT.
    pub fn new() -> (r: Self)
        ensures
            r.wf(),
            r@ == TfModel::empty(),
    {
        let r = TfLut { storage: TokenLutStorage::new(), counts: Vec::new() };
        assert(r@.tf =~= Map::<Seq<u8>, nat>::empty());
        r
    }

    /// Intern an id and return where it stands.
    fn intern(&mut self, id: HashedToken) -> (i: usize)
        requires
            old(self).wf(),
            lattice::in_grid(id.position),
        ensures
            final(self).wf(),
            final(self)@ == old(self)@.register(id),
            i < final(self).counts@.len(),
            final(self).storage.listed()[i as int] == id.bytes@,
    {
        let ghost before = *self;
        let ghost t = id;
        let found = self.storage.lut().index_of(id.bytes.as_slice());
        match found {
            Some(i) => {
                proof {
                    self.lemma_count(i as int);
                    assert(self@.tf =~= self@.register(t).tf);
                }
                i
            },
            None => {
                let i = self.counts.len();
                self.storage.insert_hashed(id);
                self.counts.push(0);
                proof {
                    before.storage.lemma_listed();
                    self.storage.lemma_listed();
                    let ids0 = before.storage.listed();
                    let ids = self.storage.listed();
                    assert(ids == ids0.push(t.bytes@));
                    assert forall|x: Seq<u8>| #[trigger]
                        self@.tf.contains_key(x) == before@.register(t).tf.contains_key(x) by {
                        if ids0.contains(x) {
                            assert(ids[ids0.index_of(x)] == x);
                        }
                        if x == t.bytes@ {
                            assert(ids[i as int] == x);
                        }
                        if ids.contains(x) && ids.index_of(x) < i {
                            assert(ids0[ids.index_of(x)] == x);
                        }
                    }
                    assert forall|x: Seq<u8>| #[trigger]
                        self@.tf.contains_key(x) implies self@.tf[x] == before@.register(t).tf[x] by {
                        let k = ids.index_of(x);
                        self.lemma_count(k);
                        if k < i {
                            before.lemma_count(k);
                            assert(ids0[k] == x);
                            assert(x != t.bytes@);
                        } else {
                            assert(!before@.tf.contains_key(x));
                        }
                    }
                    assert(self@.tf =~= before@.register(t).tf);
                }
                i
            },
        }
    }

    /// Intern an encoding id (append-only, idempotent).
    pub fn register<H: Fn(&Vec<u8>) -> (u64, (u32, u32))>(&mut self, id: Vec<u8>, hasher: &H)
        requires
            old(self).wf(),
            hashing::is_hasher(hasher),
        ensures
            final(self).wf(),
            exists|h: HashedToken| #[trigger]
                hashing::hashes(hasher, id@, h) && final(self)@ == old(self)@.register(h),
    {
        let hashed = hashing::hash_token(id, hasher);
        self.register_hashed(hashed);
    }

    /// Accumulate term frequency for a batch of ingested ids.
    pub fn observe<H: Fn(&Vec<u8>) -> (u64, (u32, u32))>(&mut self, ids: &[Vec<u8>], hasher: &H)
        requires
            old(self).wf(),
            hashing::is_hasher(hasher),
            forall|t: Seq<u8>| #[trigger]
                old(self)@.count(t) + occurrences(order::tokens(ids@), t) <= u64::MAX,
        ensures
            final(self).wf(),
            exists|hs: Seq<HashedToken>| #[trigger]
                hashing::hashes_all(hasher, order::tokens(ids@), hs) && final(self)@ == old(
                    self,
                )@.observe(hs),
    {
        let hashed = hashing::hash_tokens(ids, hasher);
        proof {
            assert(index::bytes_of(hashed@) =~= order::tokens(ids@)) by {
                assert forall|k: int| 0 <= k < hashed@.len() implies index::bytes_of(hashed@)[k]
                    == order::tokens(ids@)[k] by {
                    assert(hashing::hashes(hasher, order::tokens(ids@)[k], hashed@[k]));
                }
            }
        }
        self.observe_hashed(hashed.as_slice());
    }

    /// Intern a hashed id.
    pub fn register_hashed(&mut self, id: HashedToken)
        requires
            old(self).wf(),
            lattice::in_grid(id.position),
        ensures
            final(self).wf(),
            final(self)@ == old(self)@.register(id),
    {
        self.intern(id);
    }

    /// Accumulate term frequency for a batch of hashed ids.
    pub fn observe_hashed(&mut self, ids: &[HashedToken])
        requires
            old(self).wf(),
            forall|k: int| 0 <= k < ids@.len() ==> lattice::in_grid((#[trigger] ids@[k]).position),
            forall|t: Seq<u8>| #[trigger]
                old(self)@.count(t) + occurrences(index::bytes_of(ids@), t) <= u64::MAX,
        ensures
            final(self).wf(),
            final(self)@ == old(self)@.observe(ids@),
    {
        let ghost m0 = self@;
        for i in 0..ids.len()
            invariant
                self.wf(),
                forall|k: int|
                    0 <= k < ids@.len() ==> lattice::in_grid((#[trigger] ids@[k]).position),
                forall|t: Seq<u8>| #[trigger] m0.count(t) + occurrences(index::bytes_of(ids@), t)
                    <= u64::MAX,
                self@ == m0.observe(ids@.take(i as int)),
        {
            let ghost m = self@;
            let ghost id = ids@[i as int].bytes@;
            proof {
                let t = ids@.take(i + 1);
                assert(t.drop_last() =~= ids@.take(i as int));
                frequency_counts_occurrences(m0, ids@.take(i as int), id);
                let all = index::bytes_of(ids@);
                assert(index::bytes_of(ids@.take(i as int)) =~= all.take(i as int));
                lemma_occurrences_prefix(all, i + 1, id);
                assert(m0.count(id) + occurrences(all, id) <= u64::MAX);
            }
            let k = self.intern(ids[i].clone());
            proof {
                self.lemma_count(k as int);
            }
            let ghost mid = *self;
            let n = self.counts[k];
            self.counts.set(k, n + 1);
            proof {
                let listed = self.storage.listed();
                assert(listed == mid.storage.listed());
                self.storage.lemma_listed();
                assert forall|x: Seq<u8>| #[trigger] self@.tf.contains_key(x) implies self@.tf[x]
                    == m.observe_one(ids@[i as int]).tf[x] by {
                    let j = listed.index_of(x);
                    assert(listed[j] == x);
                    self.lemma_count(j);
                    mid.lemma_count(j);
                    if j != k {
                        assert(x != id);
                    }
                }
                assert(self@.tf =~= m.observe_one(ids@[i as int]).tf);
                assert(self@ =~= m.observe_one(ids@[i as int]));
            }
        }
        assert(ids@.take(ids@.len() as int) =~= ids@);
    }

    /// Term frequency of an encoding id (0 if never observed).
    pub fn tf(&self, id: &[u8]) -> (r: u64)
        requires
            self.wf(),
        ensures
            r == self@.count(id@),
    {
        proof {
            self.lemma_valid();
        }
        match self.storage.lut().index_of(id) {
            Some(i) => {
                proof {
                    self.lemma_count(i as int);
                }
                self.counts[i]
            },
            None => 0,
        }
    }

    /// Whether the id is registered in the forward map (exact LUT gate).
    pub fn known(&self, id: &[u8]) -> (r: bool)
        requires
            self.wf(),
        ensures
            r == self@.tf.contains_key(id@),
    {
        proof {
            self.lemma_valid();
            assert(self@.lut.contains_key(id@) == self@.tf.dom().contains(id@));
        }
        self.storage.registered(id)
    }

    /// Where the token stands that an address resolves to.
    fn winner(&self, bit: u32) -> (r: Option<usize>)
        requires
            self.wf(),
        ensures
            match r {
                Some(i) => i < self.counts@.len() && self@.wins(
                    bit,
                    self.storage.listed()[i as int],
                ) && index::resolves(self@.lut, bit),
                None => !index::resolves(self@.lut, bit),
            },
    {
        let mut best: Option<usize> = None;
        let ghost ids = self.storage.listed();
        let count = self.counts.len();
        proof {
            self.storage.lemma_listed();
        }
        for i in 0..count
            invariant
                self.wf(),
                ids == self.storage.listed(),
                ids.no_duplicates(),
                count == self.counts@.len(),
                count == ids.len(),
                match best {
                    Some(b) => b < i && index::fiber(self@.lut, bit).contains(ids[b as int]) && (
                    forall|k: int|
                        0 <= k < i && #[trigger] index::fiber(self@.lut, bit).contains(ids[k]) && k
                            != b ==> self@.preferred(ids[b as int], ids[k])),
                    None => forall|k: int|
                        0 <= k < i ==> !#[trigger] index::fiber(self@.lut, bit).contains(ids[k]),
                },
        {
            let (c, _h) = self.storage.lut().slot(i);
            proof {
                self.lemma_count(i as int);
            }
            if c == bit {
                assert(index::fiber(self@.lut, bit).contains(ids[i as int]));
                match best {
                    None => {
                        best = Some(i);
                    },
                    Some(b) => {
                        proof {
                            self.lemma_count(b as int);
                            order::lemma_before_total(ids[b as int], ids[i as int]);
                        }
                        let better = self.counts[i] > self.counts[b] || (self.counts[i]
                            == self.counts[b] && order::bytes_before(
                            self.storage.lut().token(i),
                            self.storage.lut().token(b),
                        ));
                        assert(better == self@.preferred(ids[i as int], ids[b as int]));
                        if better {
                            proof {
                                assert forall|k: int|
                                    0 <= k < i + 1 && #[trigger] index::fiber(
                                        self@.lut,
                                        bit,
                                    ).contains(ids[k]) && k != i implies self@.preferred(
                                    ids[i as int],
                                    ids[k],
                                ) by {
                                    if k != b {
                                        preference_is_an_order(
                                            self@,
                                            ids[i as int],
                                            ids[b as int],
                                            ids[k],
                                        );
                                    }
                                }
                            }
                            best = Some(i);
                        }
                    },
                }
            } else {
                assert(!index::fiber(self@.lut, bit).contains(ids[i as int]));
            }
        }
        proof {
            self.storage.lemma_listed();
            match best {
                Some(b) => {
                    let t = ids[b as int];
                    assert(self@.lut.contains_key(t));
                    assert forall|u: Seq<u8>| #[trigger]
                        index::fiber(self@.lut, bit).contains(u) && u != t implies self@.preferred(
                        t,
                        u,
                    ) by {
                        assert(self@.lut.contains_key(u));
                        let k = ids.index_of(u);
                        assert(index::fiber(self@.lut, bit).contains(ids[k]));
                    }
                },
                None => {
                    if index::resolves(self@.lut, bit) {
                        let u = choose|u: Seq<u8>| #[trigger]
                            self@.lut.contains_key(u) && self@.lut[u].cell == bit;
                        let k = ids.index_of(u);
                        assert(index::fiber(self@.lut, bit).contains(ids[k]));
                    }
                },
            }
        }
        best
    }

    /// Materialize a sketch through the LUT.
    ///
    /// Each active bit with registered ids yields one of them. Where several
    /// ids collide on a bit, term frequency selects the winner (ties: byte
    /// order). The output is in bit order.
    pub fn materialize(&self, hllset: &HLLSet) -> (r: Vec<Vec<u8>>)
        requires
            self.wf(),
            hllset.wf(),
        ensures
            self@.materializes(hllset.bits(), order::tokens(r@)),
    {
        let bits = hllset.positions();
        let mut out: Vec<Vec<u8>> = Vec::new();
        let ghost known = |bit: u32| index::resolves(self@.lut, bit);
        assert(bits@.take(0).filter(known) =~= Seq::empty());
        for i in 0..bits.len()
            invariant
                self.wf(),
                known == (|bit: u32| index::resolves(self@.lut, bit)),
                self@.materializes(bits@.take(i as int), order::tokens(out@)),
        {
            let ghost t = bits@.take(i as int);
            let ghost out0 = order::tokens(out@);
            proof {
                assert(bits@.take(i + 1) =~= t.push(bits@[i as int]));
                t.lemma_filter_push(bits@[i as int], known);
            }
            if let Some(k) = self.winner(bits[i]) {
                out.push(order::copy_bytes(self.storage.lut().token(k)));
                assert(order::tokens(out@) =~= out0.push(self.storage.listed()[k as int]));
            }
        }
        assert(bits@.take(bits@.len() as int) =~= bits@);
        out
    }

    /// Coverage gauge: how many bits of a sketch resolve.
    pub fn coverage(&self, hllset: &HLLSet) -> (r: Coverage)
        requires
            self.wf(),
            hllset.wf(),
        ensures
            r.total == hllset@.len(),
            r.resolved == self@.covered(hllset.bits()).len(),
            r.resolved == r.total <==> (forall|bit: u32| #[trigger]
                hllset@.contains(bit) ==> index::resolves(self@.lut, bit)),
    {
        self.storage.coverage(hllset)
    }

    /// Number of registered encoding ids.
    pub fn len(&self) -> (r: usize)
        requires
            self.wf(),
        ensures
            r == self@.tf.dom().len(),
    {
        proof {
            self.lemma_valid();
            self.storage.lemma_listed();
        }
        self.counts.len()
    }

    /// Whether the LUT is empty.
    pub fn is_empty(&self) -> (r: bool)
        requires
            self.wf(),
        ensures
            r == (self@.tf.dom() == Set::<Seq<u8>>::empty()),
    {
        proof {
            if self.counts@.len() == 0 {
                assert(self@.tf.dom() =~= Set::<Seq<u8>>::empty());
            } else {
                self.lemma_count(0);
                assert(self@.tf.dom().contains(self.storage.listed()[0]));
            }
        }
        self.counts.len() == 0
    }
}

impl Default for TfLut {
    fn default() -> (r: Self)
        ensures
            r.wf(),
            r@ == TfModel::empty(),
    {
        TfLut::new()
    }
}

impl Clone for TfLut {
    fn clone(&self) -> (r: Self)
        ensures
            r@ == self@,
            self.wf() ==> r.wf(),
    {
        let counts = self.counts.clone();
        assert(counts@ =~= self.counts@);
        TfLut { storage: self.storage.clone(), counts }
    }
}

// ── Laws ───────────────────────────────────────────────────────────────────

proof fn lemma_occurrences_prefix(ts: Seq<Seq<u8>>, k: int, id: Seq<u8>)
    requires
        0 < k <= ts.len(),
    ensures
        occurrences(ts.take(k), id) <= occurrences(ts, id),
        ts[k - 1] == id ==> occurrences(ts.take(k - 1), id) + 1 <= occurrences(ts, id),
    decreases ts.len() - k,
{
    assert(ts.take(k).drop_last() =~= ts.take(k - 1));
    if k == ts.len() {
        assert(ts.take(k) =~= ts);
    } else {
        assert(ts.take(k + 1).drop_last() =~= ts.take(k));
        lemma_occurrences_prefix(ts, k + 1, id);
    }
}

/// Term frequency counts occurrences: a batch adds to each id's frequency as
/// often as the id occurs in it. It never falls.
pub proof fn frequency_counts_occurrences(m: TfModel, ts: Seq<HashedToken>, id: Seq<u8>)
    ensures
        m.observe(ts).count(id) == m.count(id) + occurrences(index::bytes_of(ts), id),
        m.observe(ts).count(id) >= m.count(id),
    decreases ts.len(),
{
    if ts.len() > 0 {
        assert(index::bytes_of(ts).drop_last() =~= index::bytes_of(ts.drop_last()));
        frequency_counts_occurrences(m, ts.drop_last(), id);
        frequency_counts_occurrences(m, ts.drop_last(), ts.last().bytes@);
    }
}

/// Interning is idempotent, and it changes no frequency.
pub proof fn interning_is_idempotent(m: TfModel, t: HashedToken, id: Seq<u8>)
    requires
        m.valid(),
    ensures
        m.register(t).register(t) == m.register(t),
        m.register(t).count(id) == m.count(id),
        m.register(t).valid(),
{
    assert(m.register(t).register(t) =~= m.register(t));
    assert(m.register(t).lut.dom() =~= m.register(t).tf.dom());
}

/// Observation is append-only: every known id stays known, at its address.
pub proof fn observation_is_append_only(m: TfModel, ts: Seq<HashedToken>)
    requires
        m.valid(),
    ensures
        m.lut.submap_of(m.observe(ts).lut),
        m.tf.dom().subset_of(m.observe(ts).tf.dom()),
        m.observe(ts).valid(),
        forall|k: int|
            0 <= k < ts.len() ==> m.observe(ts).tf.contains_key((#[trigger] ts[k]).bytes@),
    decreases ts.len(),
{
    if ts.len() > 0 {
        let init = ts.drop_last();
        observation_is_append_only(m, init);
        let n = m.observe(init).observe_one(ts.last());
        assert(n.lut.dom() =~= n.tf.dom());
        assert forall|k: int| 0 <= k < ts.len() implies n.tf.contains_key(
            (#[trigger] ts[k]).bytes@,
        ) by {
            if k < init.len() {
                assert(init[k] == ts[k]);
            }
        }
    }
}

/// Preference among colliding ids is a strict total order.
pub proof fn preference_is_an_order(m: TfModel, a: Seq<u8>, b: Seq<u8>, c: Seq<u8>)
    ensures
        !m.preferred(a, a),
        a != b ==> (m.preferred(a, b) <==> !m.preferred(b, a)),
        m.preferred(a, b) && m.preferred(b, c) ==> m.preferred(a, c),
{
    order::lemma_before_irreflexive(a);
    order::lemma_before_total(a, b);
    if order::before(a, b) && order::before(b, c) {
        order::lemma_before_transitive(a, b, c);
    }
}

/// An address resolves to one token at most.
pub proof fn winners_are_unique(m: TfModel, bit: u32, t: Seq<u8>, u: Seq<u8>)
    requires
        m.wins(bit, t),
        m.wins(bit, u),
    ensures
        t == u,
{
    if t != u {
        preference_is_an_order(m, t, u, t);
    }
}

/// Where one id alone hashes to an address, the address resolves to it,
/// whatever the frequencies.
pub proof fn lone_candidates_win(m: TfModel, bit: u32, t: Seq<u8>)
    requires
        index::fiber(m.lut, bit) == Set::<Seq<u8>>::empty().insert(t),
    ensures
        m.wins(bit, t),
{
    assert(index::fiber(m.lut, bit).contains(t));
}

/// The winner of an address is always one of its candidates, so what a sketch
/// materializes to lies in its image.
pub proof fn materialized_tokens_are_candidates(
    m: TfModel,
    h: &HLLSet,
    out: Seq<Seq<u8>>,
    k: int,
)
    requires
        h.wf(),
        m.materializes(h.bits(), out),
        0 <= k < out.len(),
    ensures
        index::image(m.lut, h@).contains(out[k]),
{
    let known = |bit: u32| index::resolves(m.lut, bit);
    h.lemma_bits();
    let bit = m.covered(h.bits())[k];
    assert(h.bits().filter(known).contains(bit));
    h.bits().lemma_filter_contains_rev(known, bit);
    assert(m.wins(bit, out[k]));
    assert(h.bits().contains(bit));
}

} // verus!
