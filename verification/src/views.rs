//! Relational views: what a sketch materializes to through one LUT, with the
//! pair of keys it was computed from.
//!
//! Content addressing happens outside: a digest is computed by a function that
//! the caller supplies.

use crate::order;
use vstd::prelude::*;

verus! {

/// `name` is a possible result of the digest function on `ts`.
pub open spec fn names<D: Fn(&Vec<Vec<u8>>) -> String>(
    digest: &D,
    ts: Seq<Seq<u8>>,
    name: Seq<char>,
) -> bool {
    exists|v: &Vec<Vec<u8>>, s: String|
        order::tokens(v@) == ts && s@ == name && #[trigger] call_ensures(digest, (v,), s)
}

/// The digest function can be applied to every list of tokens.
pub open spec fn total<D: Fn(&Vec<Vec<u8>>) -> String>(digest: &D) -> bool {
    forall|v: &Vec<Vec<u8>>| #[trigger] call_requires(digest, (v,))
}

/// The name that a digest function gives to a list of tokens.
pub fn name_of<D: Fn(&Vec<Vec<u8>>) -> String>(tokens: &Vec<Vec<u8>>, digest: &D) -> (r: String)
    requires
        total(digest),
    ensures
        names(digest, order::tokens(tokens@), r@),
{
    digest(tokens)
}

/// The distinct tokens of a list, in byte order.
pub fn canonical_tokens(tokens: &[Vec<u8>]) -> (r: Vec<Vec<u8>>)
    ensures
        order::ascending_tokens(order::tokens(r@)),
        order::tokens(r@).to_set() == order::tokens(tokens@).to_set(),
{
    let mut r: Vec<Vec<u8>> = Vec::new();
    let ghost all = order::tokens(tokens@);
    assert(order::tokens(r@).to_set() =~= all.take(0).to_set());
    for i in 0..tokens.len()
        invariant
            all == order::tokens(tokens@),
            order::ascending_tokens(order::tokens(r@)),
            order::tokens(r@).to_set() == all.take(i as int).to_set(),
    {
        order::insert_token(&mut r, order::copy_bytes(tokens[i].as_slice()));
        proof {
            let t = all.take(i as int);
            assert(all.take(i + 1) =~= t.push(all[i as int]));
            t.lemma_push_to_set_commute(all[i as int]);
        }
    }
    assert(all.take(all.len() as int) =~= all);
    r
}

/// A view record: the sketch's key, the LUT's name, the materialized tokens
/// as a canonical set, and their digest.
#[derive(Debug, PartialEq, Eq)]
pub struct ViewRecord {
    pub h: String,
    pub l: String,
    pub tokens: Vec<Vec<u8>>,
    pub digest: String,
}

/// Model of a [`ViewRecord`].
#[verifier::ext_equal]
pub struct ViewModel {
    pub h: Seq<char>,
    pub l: Seq<char>,
    pub tokens: Seq<Seq<u8>>,
    pub digest: Seq<char>,
}

impl View for ViewRecord {
    type V = ViewModel;

    open spec fn view(&self) -> ViewModel {
        ViewModel {
            h: self.h@,
            l: self.l@,
            tokens: order::tokens(self.tokens@),
            digest: self.digest@,
        }
    }
}

/// The models of a list of view records.
pub open spec fn records(v: Seq<ViewRecord>) -> Seq<ViewModel> {
    v.map_values(|r: ViewRecord| r@)
}

impl ViewRecord {
    /// A record over the distinct tokens, in byte order, with their digest.
    pub fn new<D: Fn(&Vec<Vec<u8>>) -> String>(
        h: String,
        l: String,
        tokens: &[Vec<u8>],
        digest: &D,
    ) -> (r: Self)
        requires
            total(digest),
        ensures
            r@.h == h@,
            r@.l == l@,
            order::ascending_tokens(r@.tokens),
            r@.tokens.to_set() == order::tokens(tokens@).to_set(),
            names(digest, r@.tokens, r@.digest),
    {
        let tokens = canonical_tokens(tokens);
        let digest = name_of(&tokens, digest);
        ViewRecord { h, l, tokens, digest }
    }

    /// The pair that identifies the view: the sketch's key and the LUT's name.
    pub fn cache_key(&self) -> (r: (String, String))
        ensures
            r.0@ == self@.h,
            r.1@ == self@.l,
    {
        (self.h.clone(), self.l.clone())
    }

    /// Whether two records agree in every field.
    pub fn same(&self, other: &Self) -> (r: bool)
        ensures
            r == (self@ == other@),
    {
        if !(self.h == other.h) || !(self.l == other.l) || !(self.digest == other.digest)
            || self.tokens.len() != other.tokens.len() {
            proof {
                assert(self@.tokens.len() == self.tokens@.len());
                assert(other@.tokens.len() == other.tokens@.len());
            }
            return false;
        }
        for i in 0..self.tokens.len()
            invariant
                self.h@ == other.h@,
                self.l@ == other.l@,
                self.digest@ == other.digest@,
                self.tokens@.len() == other.tokens@.len(),
                forall|k: int| 0 <= k < i ==> (#[trigger] self.tokens@[k])@ == other.tokens@[k]@,
        {
            if !order::same_bytes(self.tokens[i].as_slice(), other.tokens[i].as_slice()) {
                assert(self@.tokens[i as int] != other@.tokens[i as int]);
                return false;
            }
        }
        assert(self@.tokens =~= other@.tokens);
        true
    }
}

impl Clone for ViewRecord {
    fn clone(&self) -> (r: Self)
        ensures
            r@ == self@,
    {
        ViewRecord {
            h: self.h.clone(),
            l: self.l.clone(),
            tokens: order::copy_tokens(self.tokens.as_slice()),
            digest: self.digest.clone(),
        }
    }
}

/// A copy of a list of view records.
pub fn copy_records(v: &[ViewRecord]) -> (r: Vec<ViewRecord>)
    ensures
        records(r@) == records(v@),
{
    let mut r: Vec<ViewRecord> = Vec::new();
    assert(records(r@) =~= records(v@).take(0));
    for i in 0..v.len()
        invariant
            records(r@) == records(v@).take(i as int),
    {
        let ghost r0 = r@;
        r.push(v[i].clone());
        assert(records(r@) =~= records(r0).push(v@[i as int]@));
        assert(records(v@).take(i + 1) =~= records(v@).take(i as int).push(v@[i as int]@));
    }
    assert(records(v@).take(v@.len() as int) =~= records(v@));
    r
}

} // verus!
