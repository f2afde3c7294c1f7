//! Hashing at the edge: the functions that the caller supplies, and what they
//! make of tokens.
//!
//! A hasher gives a token its seed-0 hash and the position that the hash
//! decides; a seeded placement gives a value its position under a seed.

use crate::index::HashedToken;
use crate::lattice;
use crate::order;
use crate::tid;
use crate::TokenId;
use vstd::prelude::*;

verus! {

// ── One seed ───────────────────────────────────────────────────────────────

/// The hasher can be applied to every token, and its positions are positions
/// of a sketch.
pub open spec fn is_hasher<H: Fn(&Vec<u8>) -> (u64, (u32, u32))>(hasher: &H) -> bool {
    &&& forall|t: &Vec<u8>| #[trigger] call_requires(hasher, (t,))
    &&& forall|t: &Vec<u8>, r: (u64, (u32, u32))| #[trigger]
        call_ensures(hasher, (t,), r) ==> lattice::in_grid(r.1)
}

/// `h` is the token `t` with a hash and a position that the hasher gives it.
pub open spec fn hashes<H: Fn(&Vec<u8>) -> (u64, (u32, u32))>(
    hasher: &H,
    t: Seq<u8>,
    h: HashedToken,
) -> bool {
    h.bytes@ == t && exists|v: &Vec<u8>|
        v@ == t && #[trigger] call_ensures(hasher, (v,), (h.hash, h.position))
}

/// The hashed tokens are the tokens, one to one.
pub open spec fn hashes_all<H: Fn(&Vec<u8>) -> (u64, (u32, u32))>(
    hasher: &H,
    ts: Seq<Seq<u8>>,
    hs: Seq<HashedToken>,
) -> bool {
    &&& hs.len() == ts.len()
    &&& forall|k: int| 0 <= k < hs.len() ==> hashes(hasher, ts[k], #[trigger] hs[k])
}

/// Hash a token.
pub fn hash_token<H: Fn(&Vec<u8>) -> (u64, (u32, u32))>(token: Vec<u8>, hasher: &H) -> (r:
    HashedToken)
    requires
        is_hasher(hasher),
    ensures
        hashes(hasher, token@, r),
        lattice::in_grid(r.position),
{
    let given = hasher(&token);
    let ghost v = token;
    let r = HashedToken { bytes: token, hash: given.0, position: given.1 };
    assert(call_ensures(hasher, (&v,), (r.hash, r.position)));
    r
}

/// Hash a list of tokens.
pub fn hash_tokens<H: Fn(&Vec<u8>) -> (u64, (u32, u32))>(tokens: &[Vec<u8>], hasher: &H) -> (r: Vec<
    HashedToken,
>)
    requires
        is_hasher(hasher),
    ensures
        hashes_all(hasher, order::tokens(tokens@), r@),
        forall|k: int| 0 <= k < r@.len() ==> lattice::in_grid((#[trigger] r@[k]).position),
{
    let mut r: Vec<HashedToken> = Vec::new();
    for i in 0..tokens.len()
        invariant
            is_hasher(hasher),
            r@.len() == i,
            forall|k: int|
                0 <= k < i ==> hashes(hasher, tokens@[k]@, #[trigger] r@[k]) && lattice::in_grid(
                    r@[k].position,
                ),
    {
        r.push(hash_token(order::copy_bytes(tokens[i].as_slice()), hasher));
    }
    r
}

// ── Ids ────────────────────────────────────────────────────────────────────

/// The position function can be applied to every token, and its results are
/// positions of a sketch.
pub open spec fn is_locator<P: Fn(&Vec<u8>) -> (u32, u32)>(position: &P) -> bool {
    &&& forall|t: &Vec<u8>| #[trigger] call_requires(position, (t,))
    &&& forall|t: &Vec<u8>, p: (u32, u32)| #[trigger]
        call_ensures(position, (t,), p) ==> lattice::in_grid(p)
}

/// `p` is a possible result of the position function on `t`.
pub open spec fn stands<P: Fn(&Vec<u8>) -> (u32, u32)>(
    position: &P,
    t: Seq<u8>,
    p: (u32, u32),
) -> bool {
    exists|v: &Vec<u8>| v@ == t && #[trigger] call_ensures(position, (v,), p)
}

/// The position function gives equal tokens one position, whenever it is asked.
pub open spec fn is_steady<P: Fn(&Vec<u8>) -> (u32, u32)>(position: &P) -> bool {
    forall|v: &Vec<u8>, w: &Vec<u8>, p: (u32, u32), q: (u32, u32)|
        v@ == w@ && #[trigger] call_ensures(position, (v,), p) && #[trigger] call_ensures(
            position,
            (w,),
            q,
        ) ==> p == q
}

/// The positions belong to the tokens of the ids, one to one.
pub open spec fn are_positions<P: Fn(&Vec<u8>) -> (u32, u32)>(
    ps: Seq<(u32, u32)>,
    ids: Seq<TokenId>,
    position: &P,
) -> bool {
    &&& ps.len() == ids.len()
    &&& forall|k: int| 0 <= k < ps.len() ==> stands(position, tid::tid(ids[k]), #[trigger] ps[k])
}

/// A steady position function gives a list of ids one list of positions.
pub proof fn positions_are_steady<P: Fn(&Vec<u8>) -> (u32, u32)>(
    ps: Seq<(u32, u32)>,
    qs: Seq<(u32, u32)>,
    ids: Seq<TokenId>,
    position: &P,
)
    requires
        is_steady(position),
        are_positions(ps, ids, position),
        are_positions(qs, ids, position),
    ensures
        ps == qs,
{
    assert forall|k: int| 0 <= k < ps.len() implies ps[k] == qs[k] by {
        assert(stands(position, tid::tid(ids[k]), ps[k]));
        assert(stands(position, tid::tid(ids[k]), qs[k]));
    }
    assert(ps =~= qs);
}

/// The positions of the tokens of a list of ids.
pub fn positions_of<P: Fn(&Vec<u8>) -> (u32, u32)>(ids: &[TokenId], position: &P) -> (r: Vec<
    (u32, u32),
>)
    requires
        is_locator(position),
    ensures
        are_positions(r@, ids@, position),
        forall|k: int| 0 <= k < r@.len() ==> lattice::in_grid(#[trigger] r@[k]),
{
    let mut ps: Vec<(u32, u32)> = Vec::new();
    for i in 0..ids.len()
        invariant
            is_locator(position),
            ps@.len() == i,
            forall|k: int|
                0 <= k < i ==> stands(position, tid::tid(ids@[k]), #[trigger] ps@[k])
                    && lattice::in_grid(ps@[k]),
    {
        let token = tid::token_in_bytes(ids[i]);
        let p = position(&token);
        assert(call_ensures(position, (&token,), p));
        assert(stands(position, tid::tid(ids@[i as int]), p));
        ps.push(p);
    }
    ps
}

// ── Several seeds ──────────────────────────────────────────────────────────

/// The placement can be applied to every value and seed, and its results are
/// positions of a sketch.
pub open spec fn is_placement<S: Fn(&Vec<u8>, u64) -> (u32, u32)>(place: &S) -> bool {
    &&& forall|v: &Vec<u8>, seed: u64| #[trigger] call_requires(place, (v, seed))
    &&& forall|v: &Vec<u8>, seed: u64, p: (u32, u32)| #[trigger]
        call_ensures(place, (v, seed), p) ==> lattice::in_grid(p)
}

/// `p` is a possible position of the value under the seed.
pub open spec fn places<S: Fn(&Vec<u8>, u64) -> (u32, u32)>(
    place: &S,
    value: Seq<u8>,
    seed: u64,
    p: (u32, u32),
) -> bool {
    exists|v: &Vec<u8>| v@ == value && #[trigger] call_ensures(place, (v, seed), p)
}

/// `row` holds a position of the value under each seed.
pub open spec fn is_row<S: Fn(&Vec<u8>, u64) -> (u32, u32)>(
    place: &S,
    value: Seq<u8>,
    seeds: Seq<u64>,
    row: Seq<(u32, u32)>,
) -> bool {
    &&& row.len() == seeds.len()
    &&& forall|s: int| 0 <= s < row.len() ==> places(place, value, seeds[s], #[trigger] row[s])
}

/// `table` holds the row of each value.
pub open spec fn is_table<S: Fn(&Vec<u8>, u64) -> (u32, u32)>(
    place: &S,
    values: Seq<Seq<u8>>,
    seeds: Seq<u64>,
    table: Seq<Vec<(u32, u32)>>,
) -> bool {
    &&& table.len() == values.len()
    &&& forall|k: int|
        0 <= k < table.len() ==> is_row(place, values[k], seeds, (#[trigger] table[k])@)
}

/// The positions of a value under each seed.
pub fn row_of<S: Fn(&Vec<u8>, u64) -> (u32, u32)>(value: &Vec<u8>, seeds: &[u64], place: &S) -> (r:
    Vec<(u32, u32)>)
    requires
        is_placement(place),
    ensures
        is_row(place, value@, seeds@, r@),
        forall|s: int| 0 <= s < r@.len() ==> lattice::in_grid(#[trigger] r@[s]),
{
    let mut r: Vec<(u32, u32)> = Vec::new();
    for s in 0..seeds.len()
        invariant
            is_placement(place),
            r@.len() == s,
            forall|k: int|
                0 <= k < s ==> places(place, value@, seeds@[k], #[trigger] r@[k])
                    && lattice::in_grid(r@[k]),
    {
        let p = place(value, seeds[s]);
        assert(call_ensures(place, (value, seeds@[s as int]), p));
        r.push(p);
    }
    r
}

/// The rows of a list of values.
pub fn table_of<S: Fn(&Vec<u8>, u64) -> (u32, u32)>(
    values: &[Vec<u8>],
    seeds: &[u64],
    place: &S,
) -> (r: Vec<Vec<(u32, u32)>>)
    requires
        is_placement(place),
    ensures
        is_table(place, order::tokens(values@), seeds@, r@),
        forall|k: int, s: int|
            0 <= k < r@.len() && 0 <= s < r@[k]@.len() ==> lattice::in_grid(#[trigger] r@[k]@[s]),
{
    let mut r: Vec<Vec<(u32, u32)>> = Vec::new();
    for i in 0..values.len()
        invariant
            is_placement(place),
            r@.len() == i,
            forall|k: int|
                0 <= k < i ==> is_row(place, values@[k]@, seeds@, (#[trigger] r@[k])@),
            forall|k: int, s: int|
                0 <= k < r@.len() && 0 <= s < r@[k]@.len() ==> lattice::in_grid(
                    #[trigger] r@[k]@[s],
                ),
    {
        let row = row_of(&values[i], seeds, place);
        let ghost r0 = r@;
        let ghost last = row;
        r.push(row);
        proof {
            assert forall|k: int, s: int|
                0 <= k < r@.len() && 0 <= s < r@[k]@.len() implies lattice::in_grid(
                #[trigger] r@[k]@[s],
            ) by {
                if k < i {
                    assert(r@[k] == r0[k]);
                    assert(lattice::in_grid(r0[k]@[s]));
                } else {
                    assert(lattice::in_grid(last@[s]));
                }
            }
        }
    }
    r
}

} // verus!
