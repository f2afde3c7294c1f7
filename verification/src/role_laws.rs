//! What roles, registries, vocabularies and scripts amount to, stated of
//! characters, places and numbers.

use crate::llm;
use crate::llm::StubModel;
use crate::role;
use crate::role::Role;
use crate::text;
use crate::TokenId;
use vstd::prelude::*;

verus! {

// ── Roles ──────────────────────────────────────────────────────────────────

/// `c` is the small letter `l` or the capital of it.
spec fn letter(c: char, l: char) -> bool {
    c == l || c as int + 32 == l as int
}

/// A text names the expert or the leader exactly where it spells the word,
/// each letter small or capital, with nothing but whitespace around it.
pub proof fn roles_are_named_by_their_words(s: Seq<char>)
    ensures
        role::named_role(s) == Some(Role::Expert) <==> text::trimmed(s).len() == 6 && (forall|k: int|
            0 <= k < 6 ==> #[trigger] text::trimmed(s)[k] == seq!['e', 'x', 'p', 'e', 'r', 't'][k]
                || text::trimmed(s)[k] == seq!['E', 'X', 'P', 'E', 'R', 'T'][k]),
        role::named_role(s) == Some(Role::Leader) <==> text::trimmed(s).len() == 6 && (forall|k: int|
            0 <= k < 6 ==> #[trigger] text::trimmed(s)[k] == seq!['l', 'e', 'a', 'd', 'e', 'r'][k]
                || text::trimmed(s)[k] == seq!['L', 'E', 'A', 'D', 'E', 'R'][k]),
{
    reveal_strlit("expert");
    reveal_strlit("leader");
    let w = text::trimmed(s);
    let low = w.map_values(|c: char| role::lower(c));
    assert("expert"@ =~= seq!['e', 'x', 'p', 'e', 'r', 't']);
    assert("leader"@ =~= seq!['l', 'e', 'a', 'd', 'e', 'r']);
    let small_e = seq!['e', 'x', 'p', 'e', 'r', 't'];
    let large_e = seq!['E', 'X', 'P', 'E', 'R', 'T'];
    let small_l = seq!['l', 'e', 'a', 'd', 'e', 'r'];
    let large_l = seq!['L', 'E', 'A', 'D', 'E', 'R'];
    if w.len() == 6 {
        assert forall|k: int| 0 <= k < 6 implies (letter(w[k], small_e[k]) <==> w[k] == small_e[k]
            || w[k] == large_e[k]) by {}
        assert forall|k: int| 0 <= k < 6 implies (letter(w[k], small_l[k]) <==> w[k] == small_l[k]
            || w[k] == large_l[k]) by {}
        if forall|k: int| 0 <= k < 6 ==> #[trigger] w[k] == small_e[k] || w[k] == large_e[k] {
            assert(w[0] == 'e' || w[0] == 'E');
            assert(w[1] == 'x' || w[1] == 'X');
            assert(w[2] == 'p' || w[2] == 'P');
            assert(w[3] == 'e' || w[3] == 'E');
            assert(w[4] == 'r' || w[4] == 'R');
            assert(w[5] == 't' || w[5] == 'T');
        }
        if forall|k: int| 0 <= k < 6 ==> #[trigger] w[k] == small_l[k] || w[k] == large_l[k] {
            assert(w[0] == 'l' || w[0] == 'L');
            assert(w[1] == 'e' || w[1] == 'E');
            assert(w[2] == 'a' || w[2] == 'A');
            assert(w[3] == 'd' || w[3] == 'D');
            assert(w[4] == 'e' || w[4] == 'E');
            assert(w[5] == 'r' || w[5] == 'R');
        }
        lemma_letter(w[0], 'e');
        lemma_letter(w[1], 'x');
        lemma_letter(w[2], 'p');
        lemma_letter(w[3], 'e');
        lemma_letter(w[4], 'r');
        lemma_letter(w[5], 't');
        lemma_letter(w[0], 'l');
        lemma_letter(w[1], 'e');
        lemma_letter(w[2], 'a');
        lemma_letter(w[3], 'd');
        lemma_letter(w[4], 'e');
        lemma_letter(w[5], 'r');
        if letter(w[0], 'e') && letter(w[1], 'x') && letter(w[2], 'p') && letter(w[3], 'e')
            && letter(w[4], 'r') && letter(w[5], 't') {
            assert(low =~= "expert"@);
        }
        if letter(w[0], 'l') && letter(w[1], 'e') && letter(w[2], 'a') && letter(w[3], 'd')
            && letter(w[4], 'e') && letter(w[5], 'r') {
            assert(low =~= "leader"@);
        }
    }
    if low == "expert"@ {
        assert(low.len() == 6);
        assert(low[0] == 'e' && low[1] == 'x' && low[2] == 'p' && low[3] == 'e' && low[4] == 'r'
            && low[5] == 't');
    }
    if low == "leader"@ {
        assert(low.len() == 6);
        assert(low[0] == 'l' && low[1] == 'e' && low[2] == 'a' && low[3] == 'd' && low[4] == 'e'
            && low[5] == 'r');
    }
}

proof fn lemma_letter(c: char, l: char)
    requires
        'a' <= l && l <= 'z',
    ensures
        role::lower(c) == l <==> letter(c, l),
{
    vstd::utf8::char_is_scalar(c);
    vstd::utf8::char_is_scalar(l);
}

/// A role's name is the word for it.
pub proof fn role_names_are_their_words()
    ensures
        Role::Expert.name() == seq!['e', 'x', 'p', 'e', 'r', 't'],
        Role::Leader.name() == seq!['l', 'e', 'a', 'd', 'e', 'r'],
{
    reveal_strlit("expert");
    reveal_strlit("leader");
    assert("expert"@ =~= seq!['e', 'x', 'p', 'e', 'r', 't']);
    assert("leader"@ =~= seq!['l', 'e', 'a', 'd', 'e', 'r']);
}

/// Of several pairs the last one that names a role under the key `role`
/// configures it; where none does, the role is expert.
pub proof fn the_last_naming_pair_configures(pairs: Seq<(Seq<char>, Seq<char>)>, k: int)
    ensures
        0 <= k < pairs.len() && pairs[k].0 == seq!['r', 'o', 'l', 'e'] && role::named_role(
            pairs[k].1,
        ) is Some && (forall|j: int|
            k < j < pairs.len() ==> (#[trigger] pairs[j]).0 != seq!['r', 'o', 'l', 'e']
                || role::named_role(pairs[j].1) is None) ==> role::configured_role(pairs)
            == role::named_role(pairs[k].1)->0,
        (forall|j: int|
            0 <= j < pairs.len() ==> (#[trigger] pairs[j]).0 != seq!['r', 'o', 'l', 'e']
                || role::named_role(pairs[j].1) is None) ==> role::configured_role(pairs)
            == Role::Expert,
    decreases pairs.len(),
{
    reveal_strlit("role");
    assert("role"@ =~= seq!['r', 'o', 'l', 'e']);
    if pairs.len() > 0 {
        let init = pairs.drop_last();
        let n = pairs.len() - 1;
        the_last_naming_pair_configures(init, k);
        assert(pairs[n] == pairs.last());
        assert forall|j: int| 0 <= j < n implies #[trigger] init[j] == pairs[j] by {}
    }
}

/// Experts are enrolled once, behind those before them.
pub proof fn experts_are_enrolled_once(experts: Seq<Seq<char>>, id: Seq<char>, x: Seq<char>)
    ensures
        experts.is_prefix_of(role::enrol(experts, id)),
        role::enrol(experts, id).contains(x) <==> experts.contains(x) || x == id,
        experts.no_duplicates() ==> role::enrol(experts, id).no_duplicates(),
        role::enrol(experts, id).len() <= experts.len() + 1,
{
    let e = role::enrol(experts, id);
    if experts.contains(x) {
        let i = experts.index_of(x);
        assert(e[i] == x);
    }
    if !experts.contains(id) {
        assert(e[experts.len() as int] == id);
    }
}

/// Merged outputs hold an id exactly where one of the outputs holds it.
pub proof fn merged_outputs_hold_every_id(outputs: Seq<Vec<TokenId>>, t: TokenId)
    ensures
        role::all_ids(outputs).contains(t) <==> (exists|k: int, i: int|
            0 <= k < outputs.len() && 0 <= i < outputs[k]@.len() && #[trigger] outputs[k]@[i] == t),
{
    if role::all_ids(outputs).contains(t) {
        let k = choose|k: int| 0 <= k < outputs.len() && #[trigger] outputs[k]@.contains(t);
        let i = outputs[k]@.index_of(t);
        assert(outputs[k]@[i] == t);
    }
    if exists|k: int, i: int|
        0 <= k < outputs.len() && 0 <= i < outputs[k]@.len() && #[trigger] outputs[k]@[i] == t {
        let (k, i) = choose|k: int, i: int|
            0 <= k < outputs.len() && 0 <= i < outputs[k]@.len() && #[trigger] outputs[k]@[i] == t;
        assert(outputs[k]@.contains(t));
    }
}

// ── Vocabularies ───────────────────────────────────────────────────────────

/// Words are added to a vocabulary once, behind those before them, in turn: a
/// new word gets the next free place, and no word loses its own.
pub proof fn words_are_added_once_and_in_turn(
    vocab: Seq<Seq<char>>,
    words: Seq<Seq<char>>,
    k: int,
    w: Seq<char>,
)
    requires
        0 <= k <= words.len(),
    ensures
        vocab.is_prefix_of(llm::add_words(vocab, words)),
        llm::add_words(vocab, words).contains(w) <==> vocab.contains(w) || words.contains(w),
        vocab.no_duplicates() ==> llm::add_words(vocab, words).no_duplicates(),
        llm::add_words(vocab, words.take(k)).is_prefix_of(llm::add_words(vocab, words)),
    decreases words.len(),
{
    if words.len() > 0 {
        let init = words.drop_last();
        let n = words.len() - 1;
        words_are_added_once_and_in_turn(vocab, init, 0, w);
        let rest = llm::add_words(vocab, init);
        let all = llm::add_words(vocab, words);
        if words.contains(w) {
            let i = words.index_of(w);
            if i < n {
                assert(init[i] == w);
            }
        }
        if init.contains(w) {
            let i = init.index_of(w);
            assert(words[i] == w);
        }
        assert(words[n] == words.last());
        if rest.contains(w) {
            let i = rest.index_of(w);
            assert(all[i] == w);
        }
        if !rest.contains(words.last()) {
            assert(all[rest.len() as int] == words.last());
        }
    }
    if k == words.len() {
        assert(words.take(k) =~= words);
    } else {
        words_are_added_once_and_in_turn(vocab, words.drop_last(), k, w);
        assert(words.drop_last().take(k) =~= words.take(k));
    }
}

/// The ids of a text tell its words apart: two words have one id exactly where
/// they are equal, character for character, punctuation included.
pub proof fn ids_tell_words_apart(
    vocab: Seq<Seq<char>>,
    s: Seq<char>,
    ids: Seq<TokenId>,
    i: int,
    j: int,
)
    requires
        vocab.no_duplicates(),
        llm::are_ids(ids, text::words(s), llm::add_words(vocab, text::words(s))),
        0 <= i < ids.len(),
        0 <= j < ids.len(),
    ensures
        ids.len() == text::words(s).len(),
        ids[i] == ids[j] <==> text::words(s)[i] == text::words(s)[j],
        llm::add_words(vocab, text::words(s))[ids[i] as int] == text::words(s)[i],
{
    let words = text::words(s);
    words_are_added_once_and_in_turn(vocab, words, 0, words[i]);
    let all = llm::add_words(vocab, words);
    assert(all[ids[i] as int] == words[i]);
    assert(all[ids[j] as int] == words[j]);
}

/// A text of words that are new and differ from each other gets the next free
/// ids in order.
pub proof fn new_words_get_the_next_ids(
    vocab: Seq<Seq<char>>,
    words: Seq<Seq<char>>,
    ids: Seq<TokenId>,
    k: int,
)
    requires
        (vocab + words).no_duplicates(),
        llm::are_ids(ids, words, llm::add_words(vocab, words)),
        0 <= k < words.len(),
    ensures
        llm::add_words(vocab, words) == vocab + words,
        ids[k] == vocab.len() + k,
{
    lemma_new_words(vocab, words);
    let all = vocab + words;
    assert(all[ids[k] as int] == words[k]);
    assert(all[vocab.len() + k] == words[k]);
}

proof fn lemma_new_words(vocab: Seq<Seq<char>>, words: Seq<Seq<char>>)
    requires
        (vocab + words).no_duplicates(),
    ensures
        llm::add_words(vocab, words) == vocab + words,
    decreases words.len(),
{
    if words.len() == 0 {
        assert(vocab + words =~= vocab);
    } else {
        let init = words.drop_last();
        let n = (vocab + words).len() - 1;
        assert((vocab + words).drop_last() =~= vocab + init);
        assert((vocab + words)[n] == words.last());
        lemma_new_words(vocab, init);
        if (vocab + init).contains(words.last()) {
            let k = (vocab + init).index_of(words.last());
            assert((vocab + words)[k] == (vocab + words)[n]);
        }
        assert((vocab + init).push(words.last()) =~= vocab + words);
    }
}

// ── Scripts ────────────────────────────────────────────────────────────────

/// Each turn that is asked for moves the script on by one, and the turn that
/// comes is the one at the position.
pub proof fn scripts_move_on_turn_by_turn(s: StubModel, turns: Seq<Vec<TokenId>>, k: int)
    ensures
        s.next().pos == s.pos + 1,
        s.next().turns == s.turns,
        s.pos < s.turns.len() ==> s.turn() == Some(s.turns[s.pos as int]),
        s.pos >= s.turns.len() ==> s.turn() is None,
        llm::turn_ids(turns).len() == turns.len(),
        0 <= k < turns.len() ==> llm::turn_ids(turns)[k] == turns[k]@,
{
}

} // verus!
