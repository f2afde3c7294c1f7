//! Commit messages: each carries the token ids of one turn.

use crate::text;
use crate::TokenId;
use vstd::prelude::*;

verus! {

/// The text that introduces the ids.
pub open spec fn prefix() -> Seq<char> {
    seq!['i', 'd', 's', '=']
}

/// The message of a turn: the prefix and the comma-separated ids.
pub open spec fn message_text(ids: Seq<TokenId>) -> Seq<char> {
    prefix() + text::joined(text::numerals(ids))
}

/// The ids that the fields spell: blank fields are skipped, and one field that
/// is no id spoils the whole list.
pub open spec fn field_ids(fields: Seq<Seq<char>>) -> Option<Seq<TokenId>>
    decreases fields.len(),
{
    if fields.len() == 0 {
        Some(Seq::empty())
    } else {
        let field = text::trimmed(fields.last());
        match field_ids(fields.drop_last()) {
            None => None,
            Some(ids) => if field.len() == 0 {
                Some(ids)
            } else {
                match text::parsed_u32(field) {
                    None => None,
                    Some(id) => Some(ids.push(id)),
                }
            },
        }
    }
}

/// The ids that a message carries: none without the prefix, with a field that
/// is no id, or with no id at all.
pub open spec fn message_ids(m: Seq<char>) -> Option<Seq<TokenId>> {
    if m.len() >= 4 && m.take(4) == prefix() {
        match field_ids(text::pieces(m.skip(4), text::comma())) {
            None => None,
            Some(ids) => if ids.len() == 0 {
                None
            } else {
                Some(ids)
            },
        }
    } else {
        None
    }
}

/// The commit message of a turn over `ids`.
pub fn ids_message(ids: &[TokenId]) -> (m: String)
    ensures
        m@ == message_text(ids@),
{
    let mut m = "ids=".to_owned();
    proof {
        reveal_strlit("ids=");
        assert(m@ =~= prefix());
    }
    text::push_ids(&mut m, ids);
    m
}

proof fn lemma_spoiled(fields: Seq<Seq<char>>, k: int)
    requires
        0 <= k <= fields.len(),
        field_ids(fields.take(k)) is None,
    ensures
        field_ids(fields) is None,
    decreases fields.len() - k,
{
    if k == fields.len() {
        assert(fields.take(k) =~= fields);
    } else {
        assert(fields.take(k + 1).drop_last() =~= fields.take(k));
        lemma_spoiled(fields, k + 1);
    }
}

/// The ids that a commit message carries.
pub fn parse_ids_message(message: &str) -> (r: Option<Vec<TokenId>>)
    ensures
        match r {
            Some(ids) => message_ids(message@) == Some(ids@),
            None => message_ids(message@) is None,
        },
{
    let v = text::chars_of(message);
    if v.len() < 4 || v[0] != 'i' || v[1] != 'd' || v[2] != 's' || v[3] != '=' {
        proof {
            if v@.len() >= 4 && v@.take(4) == prefix() {
                assert(v@.take(4)[0] == 'i' && v@.take(4)[1] == 'd' && v@.take(4)[2] == 's'
                    && v@.take(4)[3] == '=');
            }
        }
        return None;
    }
    assert(v@.take(4) =~= prefix());
    let bounds = text::comma_bounds(&v, 4);
    let ghost fields = text::pieces(v@.skip(4), text::comma());
    let mut ids: Vec<TokenId> = Vec::new();
    assert(fields.take(0) =~= Seq::empty());
    for k in 0..bounds.len()
        invariant
            v@ == message@,
            v@.len() >= 4,
            v@.take(4) == prefix(),
            fields == text::pieces(v@.skip(4), text::comma()),
            text::bounds_within(bounds@, v@.len()),
            text::spans(v@, bounds@) == fields,
            field_ids(fields.take(k as int)) == Some(ids@),
    {
        let (lo, hi) = bounds[k];
        assert(text::spans(v@, bounds@)[k as int] == v@.subrange(lo as int, hi as int));
        assert(fields.take(k + 1).drop_last() =~= fields.take(k as int));
        let (a, b) = text::trim_bounds(&v, lo, hi);
        if a < b {
            match text::parse_u32(&v, a, b) {
                Some(id) => ids.push(id),
                None => {
                    proof {
                        lemma_spoiled(fields, k + 1);
                    }
                    return None;
                },
            }
        }
    }
    assert(fields.take(fields.len() as int) =~= fields);
    if ids.len() == 0 {
        None
    } else {
        Some(ids)
    }
}

proof fn lemma_numerals_read_back(ids: Seq<TokenId>)
    ensures
        field_ids(text::numerals(ids)) == Some(ids),
    decreases ids.len(),
{
    let fields = text::numerals(ids);
    if ids.len() > 0 {
        lemma_numerals_read_back(ids.drop_last());
        assert(fields.drop_last() =~= text::numerals(ids.drop_last()));
        text::lemma_decimal(ids.last() as nat);
        text::lemma_decimal_parses(ids.last());
        assert(ids.drop_last().push(ids.last()) =~= ids);
    } else {
        assert(ids =~= Seq::empty());
    }
}

/// A turn's ids are read back from its own commit message, in order and with
/// repetitions.
pub proof fn messages_read_back(ids: Seq<TokenId>)
    requires
        ids.len() > 0,
    ensures
        message_ids(message_text(ids)) == Some(ids),
{
    let fields = text::numerals(ids);
    let m = message_text(ids);
    assert forall|i: int, k: int| 0 <= i < fields.len() && 0 <= k < fields[i].len() implies
        #[trigger] fields[i][k] != ',' by {
        text::lemma_decimal(ids[i] as nat);
        assert(text::is_digit(text::decimal(ids[i] as nat)[k]));
    }
    text::lemma_split_joined(fields);
    assert(m.take(4) =~= prefix());
    assert(m.skip(4) =~= text::joined(fields));
    lemma_numerals_read_back(ids);
}

/// The message of an empty turn carries no ids.
pub proof fn empty_messages_carry_nothing()
    ensures
        message_ids(message_text(Seq::empty())) is None,
{
    let m = message_text(Seq::empty());
    assert(text::numerals(Seq::empty()) =~= Seq::empty());
    assert(m.skip(4) =~= Seq::<char>::empty());
    assert(m.take(4) =~= prefix());
    let fields = text::pieces(m.skip(4), text::comma());
    assert(fields =~= seq![Seq::empty()]);
    assert(fields.drop_last() =~= Seq::empty());
    assert(field_ids(fields.drop_last()) == Some(Seq::<TokenId>::empty()));
    assert(text::trimmed(fields.last()) =~= Seq::<char>::empty());
}

} // verus!
