//! K-storage: the LUTs as the K side of attention.
//!
//! A storage resolves tokens to [`KeyRef`]s (the K direction) and sketches to
//! candidate tokens (the V direction), with a coverage gauge.
//!
//! - [`TokenLutStorage`] is the single-seed storage over a [`LutIndex`].
//! - [`CatalogLutStorage`] is the multi-seed storage with quorum consensus.
//!
//! Hashing is done by functions that the caller supplies; each lookup also
//! stands on its own, over the hashes and positions that they gave.

use crate::hashing;
use crate::index;
use crate::index::{HashedToken, LutIndex};
use crate::lattice;
use crate::lattice::HLLSet;
use crate::order;
use vstd::prelude::*;

verus! {

/// Default catalog seeds.
pub const DEFAULT_CATALOG_SEEDS: [u64; 3] = [0, 1, 2];

// ── Keys ───────────────────────────────────────────────────────────────────

/// A key reference into the sketch realm.
#[derive(Debug, PartialEq, Eq)]
pub enum KeyRef {
    /// One bit cell: `bit = reg * 32 + tz`.
    Cell(u32),
    /// One cell per seed, and the quorum: the least number of seeds that must
    /// match for consensus.
    Cells(Vec<u32>, usize),
}

impl KeyRef {
    /// All cell positions carried by this key.
    pub open spec fn cell_seq(&self) -> Seq<u32> {
        match self {
            KeyRef::Cell(bit) => seq![*bit],
            KeyRef::Cells(cells, _) => cells@,
        }
    }

    /// All cell positions carried by this key.
    pub fn cells(&self) -> (r: Vec<u32>)
        ensures
            r@ == self.cell_seq(),
    {
        match self {
            KeyRef::Cell(bit) => {
                let mut r: Vec<u32> = Vec::new();
                r.push(*bit);
                assert(r@ =~= seq![*bit]);
                r
            },
            KeyRef::Cells(cells, _) => {
                let r = cells.clone();
                assert(r@ =~= cells@);
                r
            },
        }
    }

    /// Consensus quorum, if this is a multi-seed key.
    pub fn quorum(&self) -> (r: Option<usize>)
        ensures
            r == match self {
                KeyRef::Cell(_) => None,
                KeyRef::Cells(_, q) => Some(*q),
            },
    {
        match self {
            KeyRef::Cell(_) => None,
            KeyRef::Cells(_, q) => Some(*q),
        }
    }
}

impl Clone for KeyRef {
    fn clone(&self) -> (r: Self)
        ensures
            r.cell_seq() == self.cell_seq(),
            match (*self, r) {
                (KeyRef::Cell(_), KeyRef::Cell(_)) => true,
                (KeyRef::Cells(_, p), KeyRef::Cells(_, q)) => p == q,
                _ => false,
            },
    {
        match self {
            KeyRef::Cell(bit) => KeyRef::Cell(*bit),
            KeyRef::Cells(_, q) => KeyRef::Cells(self.cells(), *q),
        }
    }
}

/// How many bits of a sketch a storage resolves, out of how many.
#[derive(Clone, Copy, Debug, PartialEq, Eq)]
pub struct Coverage {
    pub resolved: usize,
    pub total: usize,
}

impl Coverage {
    /// Whether every bit resolves.
    pub fn is_full(&self) -> (r: bool)
        ensures
            r == (self.resolved == self.total),
    {
        self.resolved == self.total
    }
}

// ── Single seed ────────────────────────────────────────────────────────────

/// Single-seed storage over a [`LutIndex`] (ordered streams).
#[derive(Debug)]
pub struct TokenLutStorage {
    lut: LutIndex,
}

impl View for TokenLutStorage {
    type V = Map<Seq<u8>, index::Slot>;

    closed spec fn view(&self) -> Map<Seq<u8>, index::Slot> {
        self.lut@
    }
}

impl TokenLutStorage {
    /// The index is well-formed.
    pub closed spec fn wf(&self) -> bool {
        self.lut.wf()
    }

    /// The tokens in registration order.
    pub closed spec fn listed(&self) -> Seq<Seq<u8>> {
        self.lut.listed()
    }

    /// The listed tokens are the registered ones, each once.
    pub proof fn lemma_listed(&self)
        requires
            self.wf(),
        ensures
            self.listed().no_duplicates(),
            self.listed().to_set() == self@.dom(),
            self@.dom().finite(),
            self@.dom().len() == self.listed().len(),
            forall|t: Seq<u8>| #[trigger] self@.contains_key(t) <==> self.listed().contains(t),
    {
        self.lut.lemma_listed();
    }

    /// Create an empty storage.
    pub fn new() -> (r: Self)
        ensures
            r.wf(),
            r@ == Map::<Seq<u8>, index::Slot>::empty(),
            r.listed() == Seq::<Seq<u8>>::empty(),
    {
        TokenLutStorage { lut: LutIndex::new() }
    }

    /// Wrap an existing LUT.
    pub fn from_lut(lut: LutIndex) -> (r: Self)
        requires
            lut.wf(),
        ensures
            r.wf(),
            r@ == lut@,
            r.listed() == lut.listed(),
    {
        TokenLutStorage { lut }
    }

    /// Build storage from tokens.
    pub fn from_tokens<H: Fn(&Vec<u8>) -> (u64, (u32, u32))>(
        tokens: &[Vec<u8>],
        hasher: &H,
    ) -> (r: Self)
        requires
            hashing::is_hasher(hasher),
        ensures
            r.wf(),
            exists|hs: Seq<HashedToken>| #[trigger]
                hashing::hashes_all(hasher, order::tokens(tokens@), hs) && r@ == index::enter_all(
                    Map::empty(),
                    hs,
                ),
            r.listed() == order::first_seen(order::tokens(tokens@)),
    {
        let hashed = hashing::hash_tokens(tokens, hasher);
        assert(index::bytes_of(hashed@) =~= order::tokens(tokens@));
        TokenLutStorage::from_hashed(hashed.as_slice())
    }

    /// Build storage from hashed tokens.
    pub fn from_hashed(tokens: &[HashedToken]) -> (r: Self)
        requires
            forall|k: int|
                0 <= k < tokens@.len() ==> lattice::in_grid((#[trigger] tokens@[k]).position),
        ensures
            r.wf(),
            r@ == index::enter_all(Map::empty(), tokens@),
            r.listed() == order::first_seen(index::bytes_of(tokens@)),
    {
        let mut r = TokenLutStorage::new();
        assert(index::bytes_of(tokens@.take(0)) =~= Seq::empty());
        for i in 0..tokens.len()
            invariant
                forall|k: int|
                    0 <= k < tokens@.len() ==> lattice::in_grid((#[trigger] tokens@[k]).position),
                r.wf(),
                r@ == index::enter_all(Map::empty(), tokens@.take(i as int)),
                r.listed() == order::first_seen(index::bytes_of(tokens@.take(i as int))),
        {
            proof {
                r.lemma_listed();
                assert(tokens@.take(i + 1).drop_last() =~= tokens@.take(i as int));
                assert(index::bytes_of(tokens@.take(i + 1)).drop_last() =~= index::bytes_of(
                    tokens@.take(i as int),
                ));
            }
            r.insert_hashed(tokens[i].clone());
        }
        assert(tokens@.take(tokens@.len() as int) =~= tokens@);
        r
    }

    /// Register a token in the LUT (idempotent).
    pub fn insert<H: Fn(&Vec<u8>) -> (u64, (u32, u32))>(&mut self, token: Vec<u8>, hasher: &H)
        requires
            old(self).wf(),
            hashing::is_hasher(hasher),
        ensures
            final(self).wf(),
            exists|h: HashedToken| #[trigger]
                hashing::hashes(hasher, token@, h) && final(self)@ == index::enter(old(self)@, h),
            final(self).listed() == if old(self)@.contains_key(token@) {
                old(self).listed()
            } else {
                old(self).listed().push(token@)
            },
    {
        let hashed = hashing::hash_token(token, hasher);
        self.insert_hashed(hashed);
    }

    /// Register a hashed token in the LUT (idempotent).
    pub fn insert_hashed(&mut self, token: HashedToken)
        requires
            old(self).wf(),
            lattice::in_grid(token.position),
        ensures
            final(self).wf(),
            final(self)@ == index::enter(old(self)@, token),
            final(self).listed() == if old(self)@.contains_key(token.bytes@) {
                old(self).listed()
            } else {
                old(self).listed().push(token.bytes@)
            },
    {
        self.lut.insert_token(token);
    }

    /// Access the underlying LUT.
    pub fn lut(&self) -> (r: &LutIndex)
        requires
            self.wf(),
        ensures
            r.wf(),
            r@ == self@,
            r.listed() == self.listed(),
    {
        &self.lut
    }

    /// Consume and return the underlying LUT.
    pub fn into_lut(self) -> (r: LutIndex)
        requires
            self.wf(),
        ensures
            r.wf(),
            r@ == self@,
            r.listed() == self.listed(),
    {
        self.lut
    }

    /// Whether the token is registered in the LUT.
    pub fn registered(&self, token: &[u8]) -> (r: bool)
        requires
            self.wf(),
        ensures
            r == self@.contains_key(token@),
    {
        self.lut.index_of(token).is_some()
    }

    /// The key a token maps to: the cell of its position.
    pub fn key_of<H: Fn(&Vec<u8>) -> (u64, (u32, u32))>(&self, token: &[u8], hasher: &H) -> (r:
        KeyRef)
        requires
            hashing::is_hasher(hasher),
        ensures
            exists|h: HashedToken| #[trigger]
                hashing::hashes(hasher, token@, h) && r == KeyRef::Cell(
                    lattice::address(h.position),
                ),
    {
        let hashed = hashing::hash_token(order::copy_bytes(token), hasher);
        self.key_at(hashed.position)
    }

    /// The key of the tokens that hash to `position`.
    pub fn key_at(&self, position: (u32, u32)) -> (r: KeyRef)
        requires
            lattice::in_grid(position),
        ensures
            r == KeyRef::Cell(lattice::address(position)),
    {
        KeyRef::Cell(lattice::cell(position))
    }

    /// The candidate tokens of a sketch, in byte order.
    pub fn candidates(&self, hllset: &HLLSet) -> (r: Vec<Vec<u8>>)
        requires
            self.wf(),
            hllset.wf(),
        ensures
            order::ascending_tokens(order::tokens(r@)),
            order::tokens(r@).to_set() == index::image(self@, hllset@),
    {
        self.lut.materialize(hllset)
    }

    /// How many bits of a sketch have a registered candidate.
    pub fn coverage(&self, hllset: &HLLSet) -> (r: Coverage)
        requires
            self.wf(),
            hllset.wf(),
        ensures
            r.total == hllset@.len(),
            r.resolved == hllset.bits().filter(|bit: u32| index::resolves(self@, bit)).len(),
            r.resolved == r.total <==> (forall|bit: u32| #[trigger]
                hllset@.contains(bit) ==> index::resolves(self@, bit)),
    {
        let bits = hllset.positions();
        let mut resolved: usize = 0;
        let ghost known = |bit: u32| index::resolves(self@, bit);
        assert(bits@.take(0).filter(known) =~= Seq::empty());
        for i in 0..bits.len()
            invariant
                self.wf(),
                known == (|bit: u32| index::resolves(self@, bit)),
                resolved <= i,
                resolved == bits@.take(i as int).filter(known).len(),
                resolved == i <==> (forall|k: int|
                    0 <= k < i ==> index::resolves(self@, #[trigger] bits@[k])),
        {
            proof {
                let t = bits@.take(i as int);
                assert(bits@.take(i + 1) =~= t.push(bits@[i as int]));
                t.lemma_filter_push(bits@[i as int], known);
            }
            if self.lut.occupied(bits[i]) {
                resolved = resolved + 1;
            }
        }
        proof {
            assert(bits@.take(bits@.len() as int) =~= bits@);
            lemma_all_bits(hllset, known);
        }
        Coverage { resolved, total: hllset.popcount() }
    }

    /// Register a token in the LUT (append-only, idempotent).
    ///
    /// Departure is a lattice operation, never a LUT deletion: once a token is
    /// registered it stays registered.
    pub fn register<H: Fn(&Vec<u8>) -> (u64, (u32, u32))>(&mut self, token: Vec<u8>, hasher: &H)
        requires
            old(self).wf(),
            hashing::is_hasher(hasher),
        ensures
            final(self).wf(),
            exists|h: HashedToken| #[trigger]
                hashing::hashes(hasher, token@, h) && final(self)@ == index::enter(old(self)@, h),
            final(self).listed() == if old(self)@.contains_key(token@) {
                old(self).listed()
            } else {
                old(self).listed().push(token@)
            },
    {
        self.insert(token, hasher);
    }

    /// Resolve a content address back to token bytes: the registered token
    /// with the hash, looked up at the position that the hash decides.
    pub fn resolve<L: Fn(u64) -> (u32, u32)>(&self, hash: u64, locate: &L) -> (r: Option<Vec<u8>>)
        requires
            self.wf(),
            call_requires(locate, (hash,)),
            forall|p: (u32, u32)| #[trigger]
                call_ensures(locate, (hash,), p) ==> lattice::in_grid(p),
        ensures
            exists|p: (u32, u32)| #[trigger]
                call_ensures(locate, (hash,), p) && is_resolution(self@, hash, p, r),
    {
        let p = locate(hash);
        let r = self.resolve_at(hash, p);
        assert(call_ensures(locate, (hash,), p) && is_resolution(self@, hash, p, r));
        r
    }

    /// The registered token with the given hash, which decides `position`; the
    /// first in byte order where hashes coincide.
    pub fn resolve_at(&self, hash: u64, position: (u32, u32)) -> (r: Option<Vec<u8>>)
        requires
            self.wf(),
            lattice::in_grid(position),
        ensures
            is_resolution(self@, hash, position, r),
    {
        let bit = lattice::cell(position);
        let mut best: Option<usize> = None;
        let count = self.lut.len();
        for i in 0..count
            invariant
                self.wf(),
                count == self.listed().len(),
                bit == lattice::address(position),
                match best {
                    Some(b) => b < i && addressed(self@, self.listed()[b as int], hash, position)
                        && (forall|k: int|
                        0 <= k < i && #[trigger] addressed(self@, self.listed()[k], hash, position)
                            && k != b ==> order::before(
                            self.listed()[b as int],
                            self.listed()[k],
                        )),
                    None => forall|k: int|
                        0 <= k < i ==> !#[trigger] addressed(
                            self@,
                            self.listed()[k],
                            hash,
                            position,
                        ),
                },
        {
            let (c, h) = self.lut.slot(i);
            proof {
                self.lut.lemma_listed();
                assert(self.lut.listed().contains(self.listed()[i as int]));
                assert(self@.contains_key(self.listed()[i as int]));
            }
            if c == bit && h == hash {
                assert(addressed(self@, self.listed()[i as int], hash, position));
                match best {
                    None => {
                        best = Some(i);
                    },
                    Some(b) => {
                        proof {
                            assert(self.listed()[b as int] != self.listed()[i as int]);
                            order::lemma_before_total(
                                self.listed()[b as int],
                                self.listed()[i as int],
                            );
                        }
                        if order::bytes_before(self.lut.token(i), self.lut.token(b)) {
                            proof {
                                assert forall|k: int|
                                    0 <= k < i + 1 && #[trigger] addressed(
                                        self@,
                                        self.listed()[k],
                                        hash,
                                        position,
                                    ) && k != i implies order::before(
                                    self.listed()[i as int],
                                    self.listed()[k],
                                ) by {
                                    if k != b {
                                        order::lemma_before_transitive(
                                            self.listed()[i as int],
                                            self.listed()[b as int],
                                            self.listed()[k],
                                        );
                                    }
                                }
                            }
                            best = Some(i);
                        }
                    },
                }
            }
        }
        proof {
            self.lut.lemma_listed();
            assert forall|u: Seq<u8>| #[trigger] addressed(self@, u, hash, position) implies (
            exists|k: int|
                0 <= k < self.listed().len() && u == #[trigger] self.listed()[k] && addressed(
                    self@,
                    self.listed()[k],
                    hash,
                    position,
                )) by {
                let k = self.listed().index_of(u);
                assert(self.listed()[k] == u);
            }
        }
        match best {
            Some(b) => Some(order::copy_bytes(self.lut.token(b))),
            None => None,
        }
    }
}

// ── Several seeds ──────────────────────────────────────────────────────────

/// Multi-seed storage: a catalog of values with quorum consensus (unordered
/// streams).
#[derive(Debug)]
pub struct CatalogLutStorage {
    values: Vec<Vec<u8>>,
    seeds: Vec<u64>,
}

/// What a catalog holds: its values in registration order, and its seeds.
#[verifier::ext_equal]
pub struct CatalogModel {
    pub values: Seq<Seq<u8>>,
    pub seeds: Seq<u64>,
}

/// `values` with `value` at the end, unless it is there already.
pub open spec fn add_value(values: Seq<Seq<u8>>, value: Seq<u8>) -> Seq<Seq<u8>> {
    if values.contains(value) {
        values
    } else {
        values.push(value)
    }
}

/// `values` with further values added one after the other.
pub open spec fn add_values(values: Seq<Seq<u8>>, more: Seq<Seq<u8>>) -> Seq<Seq<u8>>
    decreases more.len(),
{
    if more.len() == 0 {
        values
    } else {
        add_value(add_values(values, more.drop_last()), more.last())
    }
}

/// The addresses of a row of positions.
pub open spec fn addresses(row: Seq<(u32, u32)>) -> Seq<u32> {
    row.map_values(|p: (u32, u32)| lattice::address(p))
}

/// How many of the positions in `row` are active in `h`.
pub open spec fn hits(h: Set<u32>, row: Seq<(u32, u32)>) -> nat {
    addresses(row).filter(|bit: u32| h.contains(bit)).len()
}

/// The items whose index is kept, in order.
pub open spec fn kept<T>(items: Seq<T>, keep: spec_fn(int) -> bool) -> Seq<T>
    decreases items.len(),
{
    if items.len() == 0 {
        Seq::empty()
    } else {
        let rest = kept(items.drop_last(), keep);
        if keep(items.len() - 1) {
            rest.push(items.last())
        } else {
            rest
        }
    }
}

impl CatalogModel {
    /// The least number of seeds that must match: all but one, and at least
    /// one.
    pub open spec fn quorum(self) -> nat {
        if self.seeds.len() <= 2 {
            1
        } else {
            (self.seeds.len() - 1) as nat
        }
    }

    /// `table` holds the positions of each value under each seed.
    pub open spec fn fits(self, table: Seq<Vec<(u32, u32)>>) -> bool {
        &&& table.len() == self.values.len()
        &&& forall|k: int|
            0 <= k < table.len() ==> (#[trigger] table[k])@.len() == self.seeds.len()
        &&& forall|k: int, s: int|
            0 <= k < table.len() && 0 <= s < table[k]@.len() ==> lattice::in_grid(
                #[trigger] table[k]@[s],
            )
    }

    /// The values that a sketch supports under a quorum of seeds.
    pub open spec fn supported(self, h: Set<u32>, table: Seq<Vec<(u32, u32)>>) -> Seq<Seq<u8>> {
        kept(self.values, |k: int| hits(h, table[k]@) >= self.quorum())
    }

    /// The values that stand at a position under any seed.
    pub open spec fn standing(self, p: (u32, u32), table: Seq<Vec<(u32, u32)>>) -> Seq<Seq<u8>> {
        kept(self.values, |k: int| table[k]@.contains(p))
    }

    /// `r` is the first value with the hash, none where no value has it.
    pub open spec fn is_match(self, hash: u64, hashes: Seq<u64>, r: Option<Vec<u8>>) -> bool {
        match r {
            Some(v) => exists|k: int|
                0 <= k < hashes.len() && #[trigger] hashes[k] == hash && v@ == self.values[k] && (
                forall|j: int| 0 <= j < k ==> #[trigger] hashes[j] != hash),
            None => forall|k: int| 0 <= k < hashes.len() ==> #[trigger] hashes[k] != hash,
        }
    }

    /// `c` counts the addresses, and those of them that resolve.
    pub open spec fn covers(
        self,
        bits: Seq<u32>,
        table: Seq<Vec<(u32, u32)>>,
        c: Coverage,
    ) -> bool {
        &&& c.total == bits.len()
        &&& c.resolved == bits.filter(|bit: u32| self.resolves(bit, table)).len()
    }

    /// Some value stands at the address under some seed.
    pub open spec fn resolves(self, bit: u32, table: Seq<Vec<(u32, u32)>>) -> bool {
        exists|k: int| 0 <= k < self.values.len() && #[trigger] table[k]@.contains(
            lattice::position(bit),
        )
    }
}

impl View for CatalogLutStorage {
    type V = CatalogModel;

    closed spec fn view(&self) -> CatalogModel {
        CatalogModel { values: order::tokens(self.values@), seeds: self.seeds@ }
    }
}

impl CatalogLutStorage {
    /// No value occurs twice, and there are seeds enough for consensus.
    pub closed spec fn wf(&self) -> bool {
        &&& order::tokens(self.values@).no_duplicates()
        &&& self.seeds@.len() >= 2
    }

    /// The values differ from each other.
    pub proof fn lemma_wf(&self)
        requires
            self.wf(),
        ensures
            self@.values.no_duplicates(),
            self@.seeds.len() >= 2,
    {
    }

    /// Create an empty storage with the default seeds.
    pub fn new() -> (r: Self)
        ensures
            r.wf(),
            r@.values == Seq::<Seq<u8>>::empty(),
            r@.seeds == DEFAULT_CATALOG_SEEDS@,
    {
        CatalogLutStorage::with_seeds(DEFAULT_CATALOG_SEEDS.as_slice())
    }

    /// Create storage with custom seeds (at least 2 for consensus).
    pub fn with_seeds(seeds: &[u64]) -> (r: Self)
        requires
            seeds@.len() >= 2,
        ensures
            r.wf(),
            r@.values == Seq::<Seq<u8>>::empty(),
            r@.seeds == seeds@,
    {
        let r = CatalogLutStorage { values: Vec::new(), seeds: vstd::slice::slice_to_vec(seeds) };
        assert(r@.values =~= Seq::<Seq<u8>>::empty());
        r
    }

    /// Build storage from values.
    pub fn from_values(values: &[Vec<u8>]) -> (r: Self)
        ensures
            r.wf(),
            r@.values == add_values(Seq::empty(), order::tokens(values@)),
            r@.seeds == DEFAULT_CATALOG_SEEDS@,
    {
        let mut r = CatalogLutStorage::new();
        let ghost all = order::tokens(values@);
        for i in 0..values.len()
            invariant
                all == order::tokens(values@),
                r.wf(),
                r@.values == add_values(Seq::empty(), all.take(i as int)),
                r@.seeds == DEFAULT_CATALOG_SEEDS@,
        {
            assert(all.take(i + 1).drop_last() =~= all.take(i as int));
            r.insert(order::copy_bytes(values[i].as_slice()));
        }
        assert(all.take(values@.len() as int) =~= all);
        r
    }

    /// Register a value in the LUT (idempotent).
    pub fn insert(&mut self, value: Vec<u8>)
        requires
            old(self).wf(),
        ensures
            final(self).wf(),
            final(self)@.values == add_value(old(self)@.values, value@),
            final(self)@.seeds == old(self)@.seeds,
    {
        match order::find_token(&self.values, value.as_slice()) {
            Some(i) => {
                assert(self@.values[i as int] == value@);
            },
            None => {
                let ghost values0 = self@.values;
                let ghost v = value@;
                self.values.push(value);
                proof {
                    assert(self@.values =~= values0.push(v));
                }
            },
        }
    }

    /// The seeds used by this storage.
    pub fn seeds(&self) -> (r: &[u64])
        ensures
            r@ == self@.seeds,
    {
        self.seeds.as_slice()
    }

    /// The registered values.
    pub fn values(&self) -> (r: &[Vec<u8>])
        ensures
            order::tokens(r@) == self@.values,
    {
        self.values.as_slice()
    }

    /// The least number of seeds that must match.
    pub fn quorum(&self) -> (r: usize)
        requires
            self.wf(),
        ensures
            r == self@.quorum(),
    {
        let n = self.seeds.len() - 1;
        if n < 1 {
            1
        } else {
            n
        }
    }

    /// The key a token maps to: one cell for each seed, with the quorum.
    pub fn key_of<S: Fn(&Vec<u8>, u64) -> (u32, u32)>(&self, token: &[u8], place: &S) -> (r: KeyRef)
        requires
            self.wf(),
            hashing::is_placement(place),
        ensures
            exists|row: Seq<(u32, u32)>| #[trigger]
                hashing::is_row(place, token@, self@.seeds, row) && (r matches KeyRef::Cells(
                    cells,
                    quorum,
                ) && cells@ == addresses(row) && quorum == self@.quorum()),
    {
        let value = order::copy_bytes(token);
        let row = hashing::row_of(&value, self.seeds.as_slice(), place);
        self.key_at(row.as_slice())
    }

    /// The key of the tokens that hash to `positions`, seed by seed.
    pub fn key_at(&self, positions: &[(u32, u32)]) -> (r: KeyRef)
        requires
            self.wf(),
            positions@.len() == self@.seeds.len(),
            forall|s: int| 0 <= s < positions@.len() ==> lattice::in_grid(#[trigger] positions@[s]),
        ensures
            r matches KeyRef::Cells(cells, quorum) && cells@ == addresses(positions@) && quorum
                == self@.quorum(),
    {
        let mut cells: Vec<u32> = Vec::new();
        let ghost all = addresses(positions@);
        for s in 0..positions.len()
            invariant
                all == addresses(positions@),
                forall|k: int|
                    0 <= k < positions@.len() ==> lattice::in_grid(#[trigger] positions@[k]),
                cells@ == all.take(s as int),
        {
            cells.push(lattice::cell(positions[s]));
            assert(all.take(s + 1) =~= all.take(s as int).push(all[s as int]));
        }
        assert(all.take(positions@.len() as int) =~= all);
        KeyRef::Cells(cells, self.quorum())
    }

    /// The positions of each value under each seed.
    fn table<S: Fn(&Vec<u8>, u64) -> (u32, u32)>(&self, place: &S) -> (r: Vec<Vec<(u32, u32)>>)
        requires
            self.wf(),
            hashing::is_placement(place),
        ensures
            hashing::is_table(place, self@.values, self@.seeds, r@),
            self@.fits(r@),
    {
        let r = hashing::table_of(self.values.as_slice(), self.seeds.as_slice(), place);
        proof {
            assert forall|k: int| 0 <= k < r@.len() implies (#[trigger] r@[k])@.len()
                == self@.seeds.len() by {
                assert(hashing::is_row(place, self@.values[k], self@.seeds, r@[k]@));
            }
        }
        r
    }

    /// The candidate values of a sketch: those with a quorum of active cells,
    /// in registration order.
    pub fn candidates<S: Fn(&Vec<u8>, u64) -> (u32, u32)>(&self, hllset: &HLLSet, place: &S) -> (r:
        Vec<Vec<u8>>)
        requires
            self.wf(),
            hllset.wf(),
            hashing::is_placement(place),
        ensures
            exists|table: Seq<Vec<(u32, u32)>>| #[trigger]
                hashing::is_table(place, self@.values, self@.seeds, table) && order::tokens(r@)
                    == self@.supported(hllset@, table),
    {
        let table = self.table(place);
        self.supported_values(hllset, table.as_slice())
    }

    /// The values with a quorum of active cells, given the positions of each
    /// value, in registration order.
    pub fn supported_values(&self, hllset: &HLLSet, table: &[Vec<(u32, u32)>]) -> (r: Vec<Vec<u8>>)
        requires
            self.wf(),
            hllset.wf(),
            self@.fits(table@),
        ensures
            order::tokens(r@) == self@.supported(hllset@, table@),
    {
        let quorum = self.quorum();
        let mut out: Vec<Vec<u8>> = Vec::new();
        let ghost keep = |k: int| hits(hllset@, table@[k]@) >= self@.quorum();
        let ghost values = self@.values;
        assert(order::tokens(out@) =~= kept(values.take(0), keep));
        for i in 0..self.values.len()
            invariant
                self.wf(),
                hllset.wf(),
                self@.fits(table@),
                values == self@.values,
                values.len() == self.values@.len(),
                quorum == self@.quorum(),
                keep == (|k: int| hits(hllset@, table@[k]@) >= self@.quorum()),
                order::tokens(out@) == kept(values.take(i as int), keep),
        {
            let n = count_hits(hllset, table[i].as_slice());
            assert(values.take(i + 1).drop_last() =~= values.take(i as int));
            if n >= quorum {
                let ghost out0 = out@;
                out.push(order::copy_bytes(self.values[i].as_slice()));
                assert(order::tokens(out@) =~= order::tokens(out0).push(values[i as int]));
            }
        }
        assert(values.take(values.len() as int) =~= values);
        out
    }

    /// Candidates registered at `(reg, zeros)` under any seed, in registration
    /// order.
    pub fn candidates_at<S: Fn(&Vec<u8>, u64) -> (u32, u32)>(
        &self,
        reg: u32,
        zeros: u32,
        place: &S,
    ) -> (r: Vec<Vec<u8>>)
        requires
            self.wf(),
            hashing::is_placement(place),
        ensures
            exists|table: Seq<Vec<(u32, u32)>>| #[trigger]
                hashing::is_table(place, self@.values, self@.seeds, table) && order::tokens(r@)
                    == self@.standing((reg, zeros), table),
    {
        let table = self.table(place);
        self.standing_values(reg, zeros, table.as_slice())
    }

    /// The values at `(reg, zeros)` under any seed, given the positions of
    /// each value, in registration order.
    pub fn standing_values(&self, reg: u32, zeros: u32, table: &[Vec<(u32, u32)>]) -> (r: Vec<
        Vec<u8>,
    >)
        requires
            self.wf(),
            self@.fits(table@),
        ensures
            order::tokens(r@) == self@.standing((reg, zeros), table@),
    {
        let mut out: Vec<Vec<u8>> = Vec::new();
        let ghost keep = |k: int| table@[k]@.contains((reg, zeros));
        let ghost values = self@.values;
        assert(order::tokens(out@) =~= kept(values.take(0), keep));
        for i in 0..self.values.len()
            invariant
                self.wf(),
                self@.fits(table@),
                values == self@.values,
                values.len() == self.values@.len(),
                keep == (|k: int| table@[k]@.contains((reg, zeros))),
                order::tokens(out@) == kept(values.take(i as int), keep),
        {
            assert(values.take(i + 1).drop_last() =~= values.take(i as int));
            if stands_at(table[i].as_slice(), reg, zeros) {
                let ghost out0 = out@;
                out.push(order::copy_bytes(self.values[i].as_slice()));
                assert(order::tokens(out@) =~= order::tokens(out0).push(values[i as int]));
            }
        }
        assert(values.take(values.len() as int) =~= values);
        out
    }

    /// How many bits of a sketch have a candidate under any seed.
    pub fn coverage<S: Fn(&Vec<u8>, u64) -> (u32, u32)>(&self, hllset: &HLLSet, place: &S) -> (r:
        Coverage)
        requires
            self.wf(),
            hllset.wf(),
            hashing::is_placement(place),
        ensures
            exists|table: Seq<Vec<(u32, u32)>>| #[trigger]
                hashing::is_table(place, self@.values, self@.seeds, table) && self@.covers(
                    hllset.bits(),
                    table,
                    r,
                ),
    {
        let table = self.table(place);
        self.covered_bits(hllset, table.as_slice())
    }

    /// How many bits of a sketch have a candidate, given the positions of each
    /// value.
    pub fn covered_bits(&self, hllset: &HLLSet, table: &[Vec<(u32, u32)>]) -> (r: Coverage)
        requires
            self.wf(),
            hllset.wf(),
            self@.fits(table@),
        ensures
            self@.covers(hllset.bits(), table@, r),
            r.total == hllset@.len(),
            r.resolved == r.total <==> (forall|bit: u32| #[trigger]
                hllset@.contains(bit) ==> self@.resolves(bit, table@)),
    {
        let bits = hllset.positions();
        let mut resolved: usize = 0;
        let ghost known = |bit: u32| self@.resolves(bit, table@);
        assert(bits@.take(0).filter(known) =~= Seq::empty());
        for i in 0..bits.len()
            invariant
                self.wf(),
                self@.fits(table@),
                known == (|bit: u32| self@.resolves(bit, table@)),
                resolved <= i,
                resolved == bits@.take(i as int).filter(known).len(),
                resolved == i <==> (forall|k: int|
                    0 <= k < i ==> self@.resolves(#[trigger] bits@[k], table@)),
        {
            proof {
                let t = bits@.take(i as int);
                assert(bits@.take(i + 1) =~= t.push(bits@[i as int]));
                t.lemma_filter_push(bits@[i as int], known);
            }
            let (reg, zeros) = lattice::register_and_bit(bits[i]);
            let at = self.standing_values(reg, zeros, table);
            proof {
                let keep = |k: int| table@[k]@.contains((reg, zeros));
                lemma_kept_nonempty(self@.values, keep);
                assert(order::tokens(at@).len() == at@.len());
                if self@.resolves(bits@[i as int], table@) {
                    let k = choose|k: int|
                        0 <= k < self@.values.len() && #[trigger] table@[k]@.contains(
                            lattice::position(bits@[i as int]),
                        );
                    assert(keep(k));
                }
            }
            if at.len() > 0 {
                resolved = resolved + 1;
            }
        }
        proof {
            assert(bits@.take(bits@.len() as int) =~= bits@);
            lemma_all_bits(hllset, known);
        }
        Coverage { resolved, total: hllset.popcount() }
    }

    /// Register a value in the LUT (append-only, idempotent).
    pub fn register(&mut self, value: Vec<u8>)
        requires
            old(self).wf(),
        ensures
            final(self).wf(),
            final(self)@.values == add_value(old(self)@.values, value@),
            final(self)@.seeds == old(self)@.seeds,
    {
        self.insert(value);
    }

    /// Resolve a content address (a seed-0 hash) back to the first registered
    /// value that has it.
    pub fn resolve<G: Fn(&Vec<u8>) -> u64>(&self, hash: u64, seed0: &G) -> (r: Option<Vec<u8>>)
        requires
            forall|v: &Vec<u8>| #[trigger] call_requires(seed0, (v,)),
        ensures
            exists|hashes: Seq<u64>| #[trigger]
                are_hashes(seed0, self@.values, hashes) && self@.is_match(hash, hashes, r),
    {
        let mut hashes: Vec<u64> = Vec::new();
        for i in 0..self.values.len()
            invariant
                forall|v: &Vec<u8>| #[trigger] call_requires(seed0, (v,)),
                hashes@.len() == i,
                self@.values == order::tokens(self.values@),
                forall|k: int|
                    0 <= k < i ==> has_hash(seed0, self@.values[k], #[trigger] hashes@[k]),
        {
            let h = seed0(&self.values[i]);
            assert(call_ensures(seed0, (&self.values@[i as int],), h));
            assert(has_hash(seed0, self@.values[i as int], h));
            hashes.push(h);
        }
        let r = self.matching_value(hash, hashes.as_slice());
        assert(are_hashes(seed0, self@.values, hashes@));
        r
    }

    /// The first registered value with the given seed-0 hash; `hashes` are
    /// those of the values, in registration order.
    pub fn matching_value(&self, hash: u64, hashes: &[u64]) -> (r: Option<Vec<u8>>)
        requires
            hashes@.len() == self@.values.len(),
        ensures
            self@.is_match(hash, hashes@, r),
    {
        for i in 0..hashes.len()
            invariant
                hashes@.len() == self@.values.len(),
                self@.values.len() == self.values@.len(),
                forall|j: int| 0 <= j < i ==> #[trigger] hashes@[j] != hash,
        {
            if hashes[i] == hash {
                let v = order::copy_bytes(self.values[i].as_slice());
                assert(v@ == self@.values[i as int]);
                return Some(v);
            }
        }
        None
    }
}

/// `h` is a possible hash of the value.
pub open spec fn has_hash<G: Fn(&Vec<u8>) -> u64>(seed0: &G, value: Seq<u8>, h: u64) -> bool {
    exists|v: &Vec<u8>| v@ == value && #[trigger] call_ensures(seed0, (v,), h)
}

/// The hashes are those of the values, one to one.
pub open spec fn are_hashes<G: Fn(&Vec<u8>) -> u64>(
    seed0: &G,
    values: Seq<Seq<u8>>,
    hashes: Seq<u64>,
) -> bool {
    &&& hashes.len() == values.len()
    &&& forall|k: int|
        0 <= k < hashes.len() ==> has_hash(seed0, values[k], #[trigger] hashes[k])
}

/// How many of the positions in `row` are active in `hllset`.
fn count_hits(hllset: &HLLSet, row: &[(u32, u32)]) -> (n: usize)
    requires
        hllset.wf(),
        forall|s: int| 0 <= s < row@.len() ==> lattice::in_grid(#[trigger] row@[s]),
    ensures
        n == hits(hllset@, row@),
{
    let mut n: usize = 0;
    let ghost all = addresses(row@);
    let ghost active = |bit: u32| hllset@.contains(bit);
    assert(all.take(0).filter(active) =~= Seq::empty());
    for s in 0..row.len()
        invariant
            hllset.wf(),
            forall|k: int| 0 <= k < row@.len() ==> lattice::in_grid(#[trigger] row@[k]),
            all == addresses(row@),
            active == (|bit: u32| hllset@.contains(bit)),
            n <= s,
            n == all.take(s as int).filter(active).len(),
    {
        proof {
            let t = all.take(s as int);
            assert(all.take(s + 1) =~= t.push(all[s as int]));
            t.lemma_filter_push(all[s as int], active);
        }
        if hllset.contains(lattice::cell(row[s])) {
            n = n + 1;
        }
    }
    assert(all.take(row@.len() as int) =~= all);
    n
}

/// Whether `(reg, zeros)` is among the positions in `row`.
fn stands_at(row: &[(u32, u32)], reg: u32, zeros: u32) -> (r: bool)
    ensures
        r == row@.contains((reg, zeros)),
{
    for s in 0..row.len()
        invariant
            forall|k: int| 0 <= k < s ==> #[trigger] row@[k] != (reg, zeros),
    {
        let (a, b) = row[s];
        if a == reg && b == zeros {
            assert(row@[s as int] == (reg, zeros));
            return true;
        }
    }
    false
}

proof fn lemma_kept_nonempty<T>(items: Seq<T>, keep: spec_fn(int) -> bool)
    ensures
        kept(items, keep).len() > 0 <==> (exists|k: int| 0 <= k < items.len() && #[trigger] keep(k)),
    decreases items.len(),
{
    if items.len() > 0 {
        lemma_kept_nonempty(items.drop_last(), keep);
        let last = items.len() - 1;
        assert(keep(last) || !keep(last));
    }
}

impl Default for CatalogLutStorage {
    fn default() -> (r: Self)
        ensures
            r.wf(),
            r@.values == Seq::<Seq<u8>>::empty(),
            r@.seeds == DEFAULT_CATALOG_SEEDS@,
    {
        CatalogLutStorage::new()
    }
}

impl Clone for CatalogLutStorage {
    fn clone(&self) -> (r: Self)
        ensures
            r@ == self@,
            self.wf() ==> r.wf(),
    {
        let seeds = self.seeds.clone();
        assert(seeds@ =~= self.seeds@);
        CatalogLutStorage { values: order::copy_tokens(self.values.as_slice()), seeds }
    }
}

// ── Shared ─────────────────────────────────────────────────────────────────

/// `t` is registered at `position` under `hash`.
pub open spec fn addressed(
    m: Map<Seq<u8>, index::Slot>,
    t: Seq<u8>,
    hash: u64,
    position: (u32, u32),
) -> bool {
    m.contains_key(t) && m[t].cell == lattice::address(position) && m[t].hash == hash
}

/// `r` is the token registered at `position` under `hash`, the first in byte
/// order where there are several, none where there is none.
pub open spec fn is_resolution(
    m: Map<Seq<u8>, index::Slot>,
    hash: u64,
    position: (u32, u32),
    r: Option<Vec<u8>>,
) -> bool {
    match r {
        Some(t) => addressed(m, t@, hash, position) && (forall|u: Seq<u8>| #[trigger]
            addressed(m, u, hash, position) && u != t@ ==> order::before(t@, u)),
        None => forall|u: Seq<u8>| !#[trigger] addressed(m, u, hash, position),
    }
}

proof fn lemma_all_bits(h: &HLLSet, known: spec_fn(u32) -> bool)
    requires
        h.wf(),
    ensures
        (forall|k: int| 0 <= k < h.bits().len() ==> known(#[trigger] h.bits()[k])) <==> (forall|
            bit: u32,
        | #[trigger]
            h@.contains(bit) ==> known(bit)),
        h.bits().len() == h@.len(),
{
    h.lemma_bits();
    if forall|k: int| 0 <= k < h.bits().len() ==> known(#[trigger] h.bits()[k]) {
        assert forall|bit: u32| #[trigger] h@.contains(bit) implies known(bit) by {
            let k = h.bits().index_of(bit);
            assert(known(h.bits()[k]));
        }
    }
    if forall|bit: u32| #[trigger] h@.contains(bit) ==> known(bit) {
        assert forall|k: int| 0 <= k < h.bits().len() implies known(#[trigger] h.bits()[k]) by {
            assert(h.bits().contains(h.bits()[k]));
            assert(h@.contains(h.bits()[k]));
        }
    }
}

impl Default for TokenLutStorage {
    fn default() -> (r: Self)
        ensures
            r.wf(),
            r@ == Map::<Seq<u8>, index::Slot>::empty(),
            r.listed() == Seq::<Seq<u8>>::empty(),
    {
        TokenLutStorage::new()
    }
}

impl Clone for TokenLutStorage {
    fn clone(&self) -> (r: Self)
        ensures
            r@ == self@,
            r.listed() == self.listed(),
            self.wf() ==> r.wf(),
    {
        TokenLutStorage { lut: self.lut.clone() }
    }
}

} // verus!
