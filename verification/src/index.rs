//! The reverse index: registered tokens by the address they hash to.
//!
//! Hashing happens outside: a token arrives with its hash and its position.

use crate::lattice;
use crate::lattice::HLLSet;
use crate::order;
use vstd::prelude::*;

verus! {

/// A token with its seed-0 hash and the position that the hash decides.
#[derive(Debug, PartialEq, Eq)]
pub struct HashedToken {
    pub bytes: Vec<u8>,
    pub hash: u64,
    pub position: (u32, u32),
}

impl Clone for HashedToken {
    fn clone(&self) -> (r: Self)
        ensures
            r.bytes@ == self.bytes@,
            r.hash == self.hash,
            r.position == self.position,
    {
        HashedToken {
            bytes: order::copy_bytes(self.bytes.as_slice()),
            hash: self.hash,
            position: self.position,
        }
    }
}

/// What the index keeps of a token: the address and the hash.
pub struct Slot {
    pub cell: u32,
    pub hash: u64,
}

/// The slot of a hashed token.
pub open spec fn slot_of(t: HashedToken) -> Slot {
    Slot { cell: lattice::address(t.position), hash: t.hash }
}

/// The index `m` with a token entered. What is registered stays as it is.
pub open spec fn enter(m: Map<Seq<u8>, Slot>, t: HashedToken) -> Map<Seq<u8>, Slot> {
    if m.contains_key(t.bytes@) {
        m
    } else {
        m.insert(t.bytes@, slot_of(t))
    }
}

/// The bytes of hashed tokens.
pub open spec fn bytes_of(ts: Seq<HashedToken>) -> Seq<Seq<u8>> {
    ts.map_values(|t: HashedToken| t.bytes@)
}

/// The index `m` with tokens entered one after the other.
pub open spec fn enter_all(m: Map<Seq<u8>, Slot>, ts: Seq<HashedToken>) -> Map<Seq<u8>, Slot>
    decreases ts.len(),
{
    if ts.len() == 0 {
        m
    } else {
        enter(enter_all(m, ts.drop_last()), ts.last())
    }
}

/// The fiber of an address: the registered tokens that hash to it.
pub open spec fn fiber(m: Map<Seq<u8>, Slot>, bit: u32) -> Set<Seq<u8>> {
    Set::new(|t: Seq<u8>| m.contains_key(t) && m[t].cell == bit)
}

/// Some registered token hashes to the address.
pub open spec fn resolves(m: Map<Seq<u8>, Slot>, bit: u32) -> bool {
    exists|t: Seq<u8>| #[trigger] m.contains_key(t) && m[t].cell == bit
}

/// The image of a sketch: the union of the fibers of its active addresses.
pub open spec fn image(m: Map<Seq<u8>, Slot>, h: Set<u32>) -> Set<Seq<u8>> {
    Set::new(|t: Seq<u8>| m.contains_key(t) && h.contains(m[t].cell))
}

/// The sketch of all registered tokens.
pub open spec fn sketch(m: Map<Seq<u8>, Slot>) -> Set<u32> {
    Set::new(|bit: u32| resolves(m, bit))
}

/// The append-only reverse index: tokens by the address they hash to.
#[derive(Debug)]
pub struct LutIndex {
    tokens: Vec<Vec<u8>>,
    cells: Vec<u32>,
    hashes: Vec<u64>,
}

impl View for LutIndex {
    type V = Map<Seq<u8>, Slot>;

    closed spec fn view(&self) -> Map<Seq<u8>, Slot> {
        let ts = order::tokens(self.tokens@);
        Map::new(
            |t: Seq<u8>| ts.contains(t),
            |t: Seq<u8>|
                Slot { cell: self.cells@[ts.index_of(t)], hash: self.hashes@[ts.index_of(t)] },
        )
    }
}

impl LutIndex {
    /// The tokens in registration order.
    pub closed spec fn listed(&self) -> Seq<Seq<u8>> {
        order::tokens(self.tokens@)
    }

    /// Every token is listed once, with an address in range and a hash.
    pub closed spec fn wf(&self) -> bool {
        &&& order::tokens(self.tokens@).no_duplicates()
        &&& self.cells@.len() == self.tokens@.len()
        &&& self.hashes@.len() == self.tokens@.len()
        &&& forall|k: int|
            0 <= k < self.cells@.len() ==> (#[trigger] self.cells@[k]) < lattice::TOTAL_BITS
    }

    /// The listed tokens are the registered ones, each once.
    pub proof fn lemma_listed(&self)
        requires
            self.wf(),
        ensures
            self.listed().no_duplicates(),
            self.listed().to_set() == self@.dom(),
            self@.dom().finite(),
            self@.dom().len() == self.listed().len(),
            forall|t: Seq<u8>| #[trigger] self@.contains_key(t) <==> self.listed().contains(t),
            forall|t: Seq<u8>| #[trigger]
                self@.contains_key(t) ==> self@[t].cell < lattice::TOTAL_BITS,
    {
        assert(self.listed().to_set() =~= self@.dom());
        self.listed().unique_seq_to_set();
        vstd::seq_lib::seq_to_set_is_finite(self.listed());
    }

    proof fn lemma_entry(&self, k: int)
        requires
            self.wf(),
            0 <= k < self.tokens@.len(),
        ensures
            self@.contains_key(self.tokens@[k]@),
            self@[self.tokens@[k]@] == (Slot { cell: self.cells@[k], hash: self.hashes@[k] }),
            self.listed()[k] == self.tokens@[k]@,
            self.listed().len() == self.tokens@.len(),
    {
        let ts = order::tokens(self.tokens@);
        assert(ts[k] == self.tokens@[k]@);
        assert(ts.contains(ts[k]));
        assert(ts[ts.index_of(ts[k])] == ts[k]);
    }

    /// The empty index.
    pub fn new() -> (r: Self)
        ensures
            r.wf(),
            r@ == Map::<Seq<u8>, Slot>::empty(),
            r.listed() == Seq::<Seq<u8>>::empty(),
    {
        let r = LutIndex { tokens: Vec::new(), cells: Vec::new(), hashes: Vec::new() };
        assert(r@ =~= Map::<Seq<u8>, Slot>::empty());
        assert(r.listed() =~= Seq::<Seq<u8>>::empty());
        r
    }

    /// Number of registered tokens.
    pub fn len(&self) -> (r: usize)
        requires
            self.wf(),
        ensures
            r == self@.dom().len(),
            r == self.listed().len(),
    {
        proof {
            self.lemma_listed();
        }
        self.tokens.len()
    }

    /// Where a token stands in registration order.
    pub fn index_of(&self, token: &[u8]) -> (r: Option<usize>)
        requires
            self.wf(),
        ensures
            match r {
                Some(i) => i < self.listed().len() && self.listed()[i as int] == token@,
                None => !self@.contains_key(token@),
            },
            r is Some <==> self@.contains_key(token@),
    {
        let r = order::find_token(&self.tokens, token);
        proof {
            if r is Some {
                self.lemma_entry(r->0 as int);
            }
        }
        r
    }

    /// Register a token (append-only, idempotent). Returns where it stands.
    pub fn insert_token(&mut self, token: HashedToken) -> (i: usize)
        requires
            old(self).wf(),
            lattice::in_grid(token.position),
        ensures
            final(self).wf(),
            final(self)@ == enter(old(self)@, token),
            final(self).listed() == if old(self)@.contains_key(token.bytes@) {
                old(self).listed()
            } else {
                old(self).listed().push(token.bytes@)
            },
            i < final(self).listed().len(),
            final(self).listed()[i as int] == token.bytes@,
    {
        let found = self.index_of(token.bytes.as_slice());
        if let Some(i) = found {
            return i;
        }
        let ghost before = *self;
        let ghost t = token;
        let bit = lattice::cell(token.position);
        let i = self.tokens.len();
        self.tokens.push(token.bytes);
        self.cells.push(bit);
        self.hashes.push(token.hash);
        proof {
            let ts0 = before.listed();
            let ts = self.listed();
            before.lemma_listed();
            assert(ts =~= ts0.push(t.bytes@));
            assert(!ts0.contains(t.bytes@));
            assert(ts.no_duplicates());
            assert forall|x: Seq<u8>| #[trigger]
                self@.contains_key(x) == enter(before@, t).contains_key(x) by {
                if ts0.contains(x) {
                    let k = ts0.index_of(x);
                    assert(ts[k] == x);
                }
                if x == t.bytes@ {
                    assert(ts[i as int] == x);
                }
                if ts.contains(x) {
                    let k = ts.index_of(x);
                    if k < i {
                        assert(ts0[k] == x);
                    }
                }
            }
            assert forall|x: Seq<u8>| #[trigger] self@.contains_key(x) implies self@[x] == enter(
                before@,
                t,
            )[x] by {
                let k = ts.index_of(x);
                self.lemma_entry(k);
                if k < i {
                    before.lemma_entry(k);
                }
            }
            assert(self@ =~= enter(before@, t));
        }
        i
    }

    /// The address and the hash of the token that stands at `i`.
    pub fn slot(&self, i: usize) -> (r: (u32, u64))
        requires
            self.wf(),
            i < self.listed().len(),
        ensures
            self@[self.listed()[i as int]] == (Slot { cell: r.0, hash: r.1 }),
    {
        proof {
            self.lemma_entry(i as int);
        }
        (self.cells[i], self.hashes[i])
    }

    /// The token that stands at `i`.
    pub fn token(&self, i: usize) -> (r: &[u8])
        requires
            self.wf(),
            i < self.listed().len(),
        ensures
            r@ == self.listed()[i as int],
    {
        self.tokens[i].as_slice()
    }

    /// The tokens registered at an address, in byte order.
    pub fn fiber(&self, bit: u32) -> (r: Vec<Vec<u8>>)
        requires
            self.wf(),
        ensures
            order::ascending_tokens(order::tokens(r@)),
            order::tokens(r@).to_set() == fiber(self@, bit),
    {
        let mut r: Vec<Vec<u8>> = Vec::new();
        assert(order::tokens(r@).to_set() =~= Set::<Seq<u8>>::empty());
        for i in 0..self.tokens.len()
            invariant
                self.wf(),
                order::ascending_tokens(order::tokens(r@)),
                forall|t: Seq<u8>| #[trigger]
                    order::tokens(r@).to_set().contains(t) <==> (exists|k: int|
                        0 <= k < i && #[trigger] self.tokens@[k]@ == t && self.cells@[k] == bit),
        {
            if self.cells[i] == bit {
                let ghost r0 = order::tokens(r@).to_set();
                order::insert_token(&mut r, order::copy_bytes(self.tokens[i].as_slice()));
                proof {
                    assert forall|t: Seq<u8>| #[trigger]
                        order::tokens(r@).to_set().contains(t) <==> (exists|k: int|
                            0 <= k < i + 1 && #[trigger] self.tokens@[k]@ == t && self.cells@[k]
                                == bit) by {
                        assert(order::tokens(r@).to_set().contains(t) <==> r0.contains(t) || t
                            == self.tokens@[i as int]@);
                    }
                }
            }
        }
        proof {
            assert forall|t: Seq<u8>| #[trigger]
                order::tokens(r@).to_set().contains(t) <==> fiber(self@, bit).contains(t) by {
                if fiber(self@, bit).contains(t) {
                    self.lemma_listed();
                    let k = self.listed().index_of(t);
                    self.lemma_entry(k);
                    assert(self.tokens@[k]@ == t);
                }
                if order::tokens(r@).to_set().contains(t) {
                    let k = choose|k: int|
                        0 <= k < self.tokens@.len() && #[trigger] self.tokens@[k]@ == t
                            && self.cells@[k] == bit;
                    self.lemma_entry(k);
                }
            }
            assert(order::tokens(r@).to_set() =~= fiber(self@, bit));
        }
        r
    }

    /// Whether some token is registered at an address.
    pub fn occupied(&self, bit: u32) -> (r: bool)
        requires
            self.wf(),
        ensures
            r == resolves(self@, bit),
    {
        for i in 0..self.cells.len()
            invariant
                self.wf(),
                forall|k: int| 0 <= k < i ==> #[trigger] self.cells@[k] != bit,
        {
            if self.cells[i] == bit {
                proof {
                    self.lemma_entry(i as int);
                    assert(self@.contains_key(self.tokens@[i as int]@));
                }
                return true;
            }
        }
        proof {
            if resolves(self@, bit) {
                let t = choose|t: Seq<u8>| #[trigger] self@.contains_key(t) && self@[t].cell == bit;
                self.lemma_listed();
                let k = self.listed().index_of(t);
                self.lemma_entry(k);
                assert(self.cells@[k] == bit);
            }
        }
        false
    }

    /// The tokens that a sketch materializes to, in byte order.
    pub fn materialize(&self, hllset: &HLLSet) -> (r: Vec<Vec<u8>>)
        requires
            self.wf(),
            hllset.wf(),
        ensures
            order::ascending_tokens(order::tokens(r@)),
            order::tokens(r@).to_set() == image(self@, hllset@),
    {
        let mut r: Vec<Vec<u8>> = Vec::new();
        assert(order::tokens(r@).to_set() =~= Set::<Seq<u8>>::empty());
        for i in 0..self.tokens.len()
            invariant
                self.wf(),
                hllset.wf(),
                order::ascending_tokens(order::tokens(r@)),
                forall|t: Seq<u8>| #[trigger]
                    order::tokens(r@).to_set().contains(t) <==> (exists|k: int|
                        0 <= k < i && #[trigger] self.tokens@[k]@ == t && hllset@.contains(
                            self.cells@[k],
                        )),
        {
            if hllset.contains(self.cells[i]) {
                let ghost r0 = order::tokens(r@).to_set();
                order::insert_token(&mut r, order::copy_bytes(self.tokens[i].as_slice()));
                proof {
                    assert forall|t: Seq<u8>| #[trigger]
                        order::tokens(r@).to_set().contains(t) <==> (exists|k: int|
                            0 <= k < i + 1 && #[trigger] self.tokens@[k]@ == t && hllset@.contains(
                                self.cells@[k],
                            )) by {
                        assert(order::tokens(r@).to_set().contains(t) <==> r0.contains(t) || t
                            == self.tokens@[i as int]@);
                    }
                }
            }
        }
        proof {
            assert forall|t: Seq<u8>| #[trigger]
                order::tokens(r@).to_set().contains(t) <==> image(self@, hllset@).contains(t) by {
                if image(self@, hllset@).contains(t) {
                    self.lemma_listed();
                    let k = self.listed().index_of(t);
                    self.lemma_entry(k);
                    assert(self.tokens@[k]@ == t);
                }
                if order::tokens(r@).to_set().contains(t) {
                    let k = choose|k: int|
                        0 <= k < self.tokens@.len() && #[trigger] self.tokens@[k]@ == t
                            && hllset@.contains(self.cells@[k]);
                    self.lemma_entry(k);
                }
            }
            assert(order::tokens(r@).to_set() =~= image(self@, hllset@));
        }
        r
    }
}

impl Default for LutIndex {
    fn default() -> (r: Self)
        ensures
            r.wf(),
            r@ == Map::<Seq<u8>, Slot>::empty(),
            r.listed() == Seq::<Seq<u8>>::empty(),
    {
        LutIndex::new()
    }
}

impl Clone for LutIndex {
    fn clone(&self) -> (r: Self)
        ensures
            r@ == self@,
            r.listed() == self.listed(),
            self.wf() ==> r.wf(),
    {
        let tokens = order::copy_tokens(self.tokens.as_slice());
        let cells = self.cells.clone();
        let hashes = self.hashes.clone();
        assert(cells@ =~= self.cells@);
        assert(hashes@ =~= self.hashes@);
        let r = LutIndex { tokens, cells, hashes };
        assert(order::tokens(r.tokens@).len() == r.tokens@.len());
        assert(order::tokens(self.tokens@).len() == self.tokens@.len());
        r
    }
}

} // verus!
