//! The `tid{n}` inscription of token ids.

use crate::order;
use crate::text;
use crate::TokenId;
use vstd::prelude::*;

verus! {

/// The bytes of a decimal numeral.
pub open spec fn numeral_bytes(n: nat) -> Seq<u8> {
    text::decimal(n).map_values(|c: char| c as u8)
}

/// The token of an id: `tid` and the decimal numeral.
pub open spec fn tid(n: TokenId) -> Seq<u8> {
    seq![116u8, 105u8, 100u8] + numeral_bytes(n as nat)
}

/// The tokens of a list of ids.
pub open spec fn tids(ids: Seq<TokenId>) -> Seq<Seq<u8>> {
    ids.map_values(|n: TokenId| tid(n))
}

fn push_numeral(v: &mut Vec<u8>, n: u32)
    ensures
        final(v)@ == old(v)@ + numeral_bytes(n as nat),
    decreases n,
{
    let ghost v0 = v@;
    if n >= 10 {
        push_numeral(v, n / 10);
    }
    let d: u8 = (n % 10) as u8;
    v.push(48 + d);
    assert(v@ =~= v0 + numeral_bytes(n as nat));
}

/// The token of an id.
pub fn token_in_bytes(n: TokenId) -> (r: Vec<u8>)
    ensures
        r@ == tid(n),
{
    let mut r: Vec<u8> = Vec::new();
    r.push(116);
    r.push(105);
    r.push(100);
    assert(r@ =~= seq![116u8, 105u8, 100u8]);
    push_numeral(&mut r, n);
    r
}

/// The tokens of a list of ids, in order.
pub fn tokens_in_bytes(ids: &[TokenId]) -> (r: Vec<Vec<u8>>)
    ensures
        order::tokens(r@) == tids(ids@),
{
    let mut r: Vec<Vec<u8>> = Vec::new();
    assert(order::tokens(r@) =~= tids(ids@.take(0)));
    for i in 0..ids.len()
        invariant
            order::tokens(r@) == tids(ids@.take(i as int)),
    {
        let ghost r0 = r@;
        r.push(token_in_bytes(ids[i]));
        assert(order::tokens(r@) =~= order::tokens(r0).push(tid(ids@[i as int])));
        assert(tids(ids@.take(i + 1)) =~= tids(ids@.take(i as int)).push(tid(ids@[i as int])));
    }
    assert(ids@.take(ids@.len() as int) =~= ids@);
    r
}

/// The numeral characters of a token.
spec fn numeral_chars(t: Seq<u8>) -> Seq<char> {
    t.skip(3).map_values(|b: u8| b as char)
}

proof fn lemma_tid(n: TokenId)
    ensures
        numeral_chars(tid(n)) == text::decimal(n as nat),
        tid(n).len() > 3,
{
    text::lemma_decimal(n as nat);
    let d = text::decimal(n as nat);
    let t = tid(n);
    assert forall|k: int| 0 <= k < d.len() implies numeral_chars(t)[k] == d[k] by {
        assert(text::is_digit(d[k]));
        assert(t.skip(3)[k] == t[3 + k]);
        assert(t[3 + k] == d[k] as u8);
    }
    assert(numeral_chars(t) =~= d);
}

/// Distinct ids have distinct tokens.
pub proof fn inscription_is_injective(a: TokenId, b: TokenId)
    requires
        tid(a) == tid(b),
    ensures
        a == b,
{
    lemma_tid(a);
    lemma_tid(b);
    text::lemma_decimal(a as nat);
    text::lemma_decimal(b as nat);
}

/// The id whose token `t` is.
pub fn parse_token_id(t: &[u8]) -> (r: Option<TokenId>)
    ensures
        match r {
            Some(n) => t@ == tid(n),
            None => forall|n: TokenId| t@ != #[trigger] tid(n),
        },
{
    if t.len() <= 3 {
        proof {
            assert forall|n: TokenId| t@ != #[trigger] tid(n) by {
                lemma_tid(n);
            }
        }
        return None;
    }
    let ghost s = numeral_chars(t@);
    let mut value: u64 = 0;
    assert(s.take(0) =~= Seq::<char>::empty());
    for i in 3..t.len()
        invariant
            t@.len() > 3,
            s == numeral_chars(t@),
            value <= u32::MAX,
            value == text::numeral(s.take(i - 3)),
    {
        let b = t[i];
        assert(s[i - 3] == t@.skip(3)[i - 3] as char);
        assert(s.take(i - 2).drop_last() =~= s.take(i - 3));
        assert(s.take(i - 2).last() == b as char);
        if b < 48 || b > 57 {
            proof {
                assert forall|n: TokenId| t@ != #[trigger] tid(n) by {
                    if t@ == tid(n) {
                        lemma_tid(n);
                        text::lemma_decimal(n as nat);
                        assert(text::is_digit(text::decimal(n as nat)[i - 3]));
                    }
                }
            }
            return None;
        }
        value = value * 10 + (b - 48) as u64;
        if value > u32::MAX as u64 {
            proof {
                assert forall|n: TokenId| t@ != #[trigger] tid(n) by {
                    if t@ == tid(n) {
                        lemma_tid(n);
                        text::lemma_decimal(n as nat);
                        text::lemma_numeral_prefix(s, i - 2);
                    }
                }
            }
            return None;
        }
    }
    let n = value as u32;
    assert(s.take(t@.len() - 3) =~= s);
    let again = token_in_bytes(n);
    if order::same_bytes(again.as_slice(), t) {
        Some(n)
    } else {
        proof {
            assert forall|m: TokenId| t@ != #[trigger] tid(m) by {
                if t@ == tid(m) {
                    lemma_tid(m);
                    text::lemma_decimal(m as nat);
                }
            }
        }
        None
    }
}

} // verus!
