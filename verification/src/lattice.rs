//! The sketch lattice: HLLSets as sets of bit addresses.
//!
//! A sketch has 1024 registers of 32 bits; a token hashes to one
//! `(register, trailing zeros)` position, whose address is
//! `register * 32 + trailing zeros`.

use crate::order;
use vstd::prelude::*;

verus! {

/// Registers of a sketch.
pub const REGISTERS: u32 = 1024;

/// Bits of one register.
pub const BITS_PER_REG: u32 = 32;

/// Bit addresses of a sketch.
pub const TOTAL_BITS: u32 = 32768;

// ── Bit addresses ──────────────────────────────────────────────────────────

/// `p` names a register and a bit of it.
pub open spec fn in_grid(p: (u32, u32)) -> bool {
    p.0 < REGISTERS && p.1 < BITS_PER_REG
}

/// The address of the bit at position `p`.
pub open spec fn address(p: (u32, u32)) -> u32 {
    (p.0 * BITS_PER_REG + p.1) as u32
}

/// The position of the bit at address `bit`.
pub open spec fn position(bit: u32) -> (u32, u32) {
    (bit / BITS_PER_REG, bit % BITS_PER_REG)
}

/// The address of the bit at position `p`.
pub fn cell(p: (u32, u32)) -> (bit: u32)
    requires
        in_grid(p),
    ensures
        bit == address(p),
        bit < TOTAL_BITS,
{
    p.0 * BITS_PER_REG + p.1
}

/// The register and the bit of it that `bit` addresses.
pub fn register_and_bit(bit: u32) -> (p: (u32, u32))
    ensures
        p == position(bit),
{
    (bit / BITS_PER_REG, bit % BITS_PER_REG)
}

/// Addresses and positions correspond one to one.
pub proof fn addresses_name_positions(p: (u32, u32), bit: u32)
    ensures
        in_grid(p) ==> address(p) < TOTAL_BITS && position(address(p)) == p,
        bit < TOTAL_BITS ==> in_grid(position(bit)) && address(position(bit)) == bit,
{
}

// ── Sketches ───────────────────────────────────────────────────────────────

/// A sketch: the set of its active bit addresses.
#[derive(Debug, PartialEq, Eq)]
pub struct HLLSet {
    bits: Vec<u32>,
}

impl View for HLLSet {
    type V = Set<u32>;

    closed spec fn view(&self) -> Set<u32> {
        self.bits@.to_set()
    }
}

impl HLLSet {
    /// The active bit addresses in ascending order.
    pub closed spec fn bits(&self) -> Seq<u32> {
        self.bits@
    }

    /// The addresses are kept in ascending order and in range.
    pub closed spec fn wf(&self) -> bool {
        &&& order::ascending(self.bits@)
        &&& forall|k: int| 0 <= k < self.bits@.len() ==> (#[trigger] self.bits@[k]) < TOTAL_BITS
    }

    /// The ascending addresses are those of the set, each in range.
    pub proof fn lemma_bits(&self)
        requires
            self.wf(),
        ensures
            order::ascending(self.bits()),
            self.bits().to_set() == self@,
            self@.finite(),
            self@.len() == self.bits().len(),
            forall|bit: u32| #[trigger] self@.contains(bit) ==> bit < TOTAL_BITS,
            forall|bit: u32| #[trigger] self@.contains(bit) <==> self.bits().contains(bit),
    {
        assert(self.bits@.no_duplicates());
        self.bits@.unique_seq_to_set();
        vstd::seq_lib::seq_to_set_is_finite(self.bits@);
    }

    /// The empty sketch.
    pub fn new() -> (h: Self)
        ensures
            h.wf(),
            h@ == Set::<u32>::empty(),
    {
        let h = HLLSet { bits: Vec::new() };
        assert(h@ =~= Set::<u32>::empty());
        h
    }

    /// The sketch of the given bit addresses.
    pub fn from_bits(bits: &[u32]) -> (h: Self)
        requires
            forall|k: int| 0 <= k < bits@.len() ==> (#[trigger] bits@[k]) < TOTAL_BITS,
        ensures
            h.wf(),
            h@ == bits@.to_set(),
    {
        let sorted = order::sorted_ids(bits);
        proof {
            assert forall|k: int| 0 <= k < sorted@.len() implies (#[trigger] sorted@[k])
                < TOTAL_BITS by {
                assert(sorted@.to_set().contains(sorted@[k]));
                assert(bits@.contains(sorted@[k]));
            }
        }
        HLLSet { bits: sorted }
    }

    /// The sketch of a token collection, from its tokens' positions.
    pub fn from_positions(positions: &[(u32, u32)]) -> (h: Self)
        requires
            forall|k: int| 0 <= k < positions@.len() ==> in_grid(#[trigger] positions@[k]),
        ensures
            h.wf(),
            h@ == positions@.map_values(|p: (u32, u32)| address(p)).to_set(),
    {
        let mut bits: Vec<u32> = Vec::new();
        let ghost addresses = positions@.map_values(|p: (u32, u32)| address(p));
        for i in 0..positions.len()
            invariant
                addresses == positions@.map_values(|p: (u32, u32)| address(p)),
                forall|k: int| 0 <= k < positions@.len() ==> in_grid(#[trigger] positions@[k]),
                bits@ == addresses.take(i as int),
                forall|k: int| 0 <= k < bits@.len() ==> (#[trigger] bits@[k]) < TOTAL_BITS,
        {
            bits.push(cell(positions[i]));
            assert(addresses.take(i + 1) =~= addresses.take(i as int).push(addresses[i as int]));
        }
        assert(addresses.take(positions@.len() as int) =~= addresses);
        HLLSet::from_bits(bits.as_slice())
    }

    /// The active bit addresses, in ascending order.
    pub fn positions(&self) -> (r: &[u32])
        ensures
            r@ == self.bits(),
    {
        self.bits.as_slice()
    }

    /// Whether the bit at `bit` is active.
    pub fn contains(&self, bit: u32) -> (r: bool)
        requires
            self.wf(),
        ensures
            r == self@.contains(bit),
    {
        order::holds_id(&self.bits, bit)
    }

    /// Number of active bits.
    pub fn popcount(&self) -> (r: usize)
        requires
            self.wf(),
        ensures
            r == self@.len(),
    {
        proof {
            self.lemma_bits();
        }
        self.bits.len()
    }

    /// Whether no bit is active.
    pub fn is_empty(&self) -> (r: bool)
        ensures
            r == (self@ == Set::<u32>::empty()),
    {
        proof {
            if self.bits@.len() == 0 {
                assert(self@ =~= Set::<u32>::empty());
            } else {
                assert(self@.contains(self.bits@[0]));
            }
        }
        self.bits.len() == 0
    }

    /// The bits active in either sketch.
    pub fn union(&self, other: &Self) -> (r: Self)
        requires
            self.wf(),
            other.wf(),
        ensures
            r.wf(),
            r@ == self@.union(other@),
    {
        let mut out: HLLSet = self.clone();
        assert(self@.union(other.bits@.take(0).to_set()) =~= self@);
        for i in 0..other.bits.len()
            invariant
                other.wf(),
                out.wf(),
                out@ == self@.union(other.bits@.take(i as int).to_set()),
        {
            let ghost out0 = out;
            let bit = other.bits[i];
            let ghost t = other.bits@.take(i as int);
            order::insert_id(&mut out.bits, bit);
            proof {
                assert(other.bits@.take(i + 1) =~= t.push(bit));
                t.lemma_push_to_set_commute(bit);
                assert(out@ =~= self@.union(other.bits@.take(i + 1).to_set()));
                assert forall|k: int| 0 <= k < out.bits@.len() implies (#[trigger] out.bits@[k])
                    < TOTAL_BITS by {
                    assert(out@.contains(out.bits@[k]));
                    if out.bits@[k] != bit {
                        assert(out0.bits@.to_set().contains(out.bits@[k]));
                        assert(out0.bits@.contains(out.bits@[k]));
                    }
                }
            }
        }
        assert(other.bits@.take(other.bits@.len() as int) =~= other.bits@);
        out
    }

    /// The bits whose presence in `other` is `keep`.
    fn select(&self, other: &Self, keep: bool) -> (r: Self)
        requires
            self.wf(),
            other.wf(),
        ensures
            r.wf(),
            forall|bit: u32| #[trigger]
                r@.contains(bit) <==> self@.contains(bit) && (other@.contains(bit) == keep),
    {
        let mut bits: Vec<u32> = Vec::new();
        for i in 0..self.bits.len()
            invariant
                self.wf(),
                other.wf(),
                order::ascending(bits@),
                forall|k: int|
                    0 <= k < bits@.len() ==> (#[trigger] bits@[k]) < TOTAL_BITS && (exists|j: int|
                        0 <= j < i && self.bits@[j] == bits@[k]) && (other@.contains(bits@[k])
                        == keep),
                forall|j: int|
                    0 <= j < i && (other@.contains(#[trigger] self.bits@[j]) == keep)
                        ==> bits@.contains(self.bits@[j]),
        {
            let bit = self.bits[i];
            if other.contains(bit) == keep {
                let ghost bits0 = bits@;
                bits.push(bit);
                proof {
                    assert(bits@[bits@.len() - 1] == bit);
                    assert forall|j: int|
                        0 <= j < i + 1 && (other@.contains(#[trigger] self.bits@[j])
                            == keep) implies bits@.contains(self.bits@[j]) by {
                        if j < i {
                            let k = bits0.index_of(self.bits@[j]);
                            assert(bits@[k] == self.bits@[j]);
                        }
                    }
                }
            }
        }
        let r = HLLSet { bits };
        proof {
            assert forall|bit: u32| #[trigger] r@.contains(bit) <==> self@.contains(bit) && (
            other@.contains(bit) == keep) by {
                if r.bits@.contains(bit) {
                    let k = r.bits@.index_of(bit);
                    assert(r.bits@[k] == bit);
                }
                if self.bits@.contains(bit) {
                    let j = self.bits@.index_of(bit);
                    assert(self.bits@[j] == bit);
                }
            }
        }
        r
    }

    /// The bits active in both sketches.
    pub fn intersection(&self, other: &Self) -> (r: Self)
        requires
            self.wf(),
            other.wf(),
        ensures
            r.wf(),
            r@ == self@.intersect(other@),
    {
        let r = self.select(other, true);
        assert(r@ =~= self@.intersect(other@));
        r
    }

    /// The bits of `self` that are not active in `other`.
    pub fn difference(&self, other: &Self) -> (r: Self)
        requires
            self.wf(),
            other.wf(),
        ensures
            r.wf(),
            r@ == self@.difference(other@),
    {
        let r = self.select(other, false);
        assert(r@ =~= self@.difference(other@));
        r
    }
}

impl Default for HLLSet {
    fn default() -> (h: Self)
        ensures
            h.wf(),
            h@ == Set::<u32>::empty(),
    {
        HLLSet::new()
    }
}

impl Clone for HLLSet {
    fn clone(&self) -> (h: Self)
        ensures
            h@ == self@,
            h.bits() == self.bits(),
            self.wf() ==> h.wf(),
    {
        let bits = self.bits.clone();
        assert(bits@ =~= self.bits@);
        HLLSet { bits }
    }
}

// ── Laws ───────────────────────────────────────────────────────────────────

/// The join of sketches is idempotent, commutative and associative, and the
/// empty sketch is its unit.
pub proof fn union_is_a_join(a: Set<u32>, b: Set<u32>, c: Set<u32>)
    ensures
        a.union(a) == a,
        a.union(b) == b.union(a),
        a.union(b).union(c) == a.union(b.union(c)),
        a.union(Set::empty()) == a,
        a.subset_of(a.union(b)),
{
    assert(a.union(a) =~= a);
    assert(a.union(b) =~= b.union(a));
    assert(a.union(b).union(c) =~= a.union(b.union(c)));
    assert(a.union(Set::empty()) =~= a);
}

/// The Noether invariants: of the step from `prev` to `now`, the departed and
/// the retained bits make up `prev`, the retained and the new bits make up
/// `now`, and no bit is both departed and new.
pub proof fn noether_invariants(prev: Set<u32>, now: Set<u32>)
    ensures
        prev.difference(now).union(now.intersect(prev)) == prev,
        now.intersect(prev).union(now.difference(prev)) == now,
        prev.difference(now).intersect(now.difference(prev)) == Set::<u32>::empty(),
{
    assert(prev.difference(now).union(now.intersect(prev)) =~= prev);
    assert(now.intersect(prev).union(now.difference(prev)) =~= now);
    assert(prev.difference(now).intersect(now.difference(prev)) =~= Set::<u32>::empty());
}

} // verus!
