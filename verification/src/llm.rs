//! Token sources: the deterministic stub and the session of a local LLM.
//!
//! A source produces token turns and never waits on the cortex. [`StubLlm`]
//! replays a script. [`OllamaLlm`] decides what becomes of the completions of
//! a local model; the caller runs the model.

use crate::text;
use crate::tree;
use crate::TokenId;
use vstd::prelude::*;
use vstd::slice::slice_to_vec;
use vstd::string::*;

verus! {

/// A producer of token turns.
pub trait TurnSource {
    /// The source's own counters have room for one more turn.
    open spec fn has_room(&self) -> bool {
        true
    }

    /// The next turn's token ids, or `None` when the source is exhausted.
    fn next_turn(&mut self) -> Option<Vec<TokenId>>
        requires
            old(self).has_room(),
    ;
}

// ── The stub ───────────────────────────────────────────────────────────────

/// A deterministic, scripted LLM stub.
#[derive(Debug)]
pub struct StubLlm {
    turns: Vec<Vec<TokenId>>,
    pos: usize,
}

/// The contents of a list of turns.
pub open spec fn turn_ids(turns: Seq<Vec<TokenId>>) -> Seq<Seq<TokenId>> {
    turns.map_values(|t: Vec<TokenId>| t@)
}

/// Model of a [`StubLlm`]: the script and how many turns were asked for.
#[verifier::ext_equal]
pub struct StubModel {
    pub turns: Seq<Seq<TokenId>>,
    pub pos: nat,
}

impl StubModel {
    /// The turn that comes next.
    pub open spec fn turn(self) -> Option<Seq<TokenId>> {
        if self.pos < self.turns.len() {
            Some(self.turns[self.pos as int])
        } else {
            None
        }
    }

    /// The stub after the next turn was asked for, be there one or not.
    pub open spec fn next(self) -> StubModel {
        StubModel { turns: self.turns, pos: self.pos + 1 }
    }

    /// The stub after `n` turns were asked for.
    pub open spec fn after(self, n: nat) -> StubModel
        decreases n,
    {
        if n == 0 {
            self
        } else {
            self.after((n - 1) as nat).next()
        }
    }
}

impl View for StubLlm {
    type V = StubModel;

    closed spec fn view(&self) -> StubModel {
        StubModel { turns: turn_ids(self.turns@), pos: self.pos as nat }
    }
}

impl StubLlm {
    /// A stub that replays the turns.
    pub fn new(turns: Vec<Vec<TokenId>>) -> (r: Self)
        ensures
            r@ == (StubModel { turns: turn_ids(turns@), pos: 0 }),
    {
        StubLlm { turns, pos: 0 }
    }

    /// Build a stub from a compact script: `&[&[a, b], &[c]]` is two turns.
    pub fn with_script(script: &[&[TokenId]]) -> (r: Self)
        ensures
            r@ == (StubModel {
                turns: script@.map_values(|t: &[TokenId]| t@),
                pos: 0,
            }),
    {
        let mut turns: Vec<Vec<TokenId>> = Vec::new();
        let ghost all = script@.map_values(|t: &[TokenId]| t@);
        assert(turn_ids(turns@) =~= all.take(0));
        for i in 0..script.len()
            invariant
                all == script@.map_values(|t: &[TokenId]| t@),
                turn_ids(turns@) == all.take(i as int),
        {
            let ghost turns0 = turns@;
            let turn = slice_to_vec(script[i]);
            assert(turn@ == all[i as int]);
            turns.push(turn);
            assert(turn_ids(turns@) =~= turn_ids(turns0).push(all[i as int]));
            assert(all.take(i + 1) =~= all.take(i as int).push(all[i as int]));
        }
        assert(all.take(all.len() as int) =~= all);
        StubLlm::new(turns)
    }

    /// Number of scripted turns.
    pub fn len(&self) -> (r: usize)
        ensures
            r == self@.turns.len(),
    {
        self.turns.len()
    }

    /// Whether no turn is scripted.
    pub fn is_empty(&self) -> (r: bool)
        ensures
            r == (self@.turns.len() == 0),
    {
        self.turns.len() == 0
    }
}

impl TurnSource for StubLlm {
    open spec fn has_room(&self) -> bool {
        self@.pos < usize::MAX
    }

    fn next_turn(&mut self) -> (r: Option<Vec<TokenId>>)
        ensures
            match r {
                Some(ids) => old(self)@.turn() == Some(ids@),
                None => old(self)@.turn() is None,
            },
            final(self)@ == old(self)@.next(),
    {
        let turn = if self.pos < self.turns.len() {
            let ids = slice_to_vec(self.turns[self.pos].as_slice());
            assert(ids@ == self@.turns[self.pos as int]);
            Some(ids)
        } else {
            None
        };
        self.pos = self.pos + 1;
        turn
    }
}

impl Default for StubLlm {
    fn default() -> (r: Self)
        ensures
            r@ == (StubModel { turns: Seq::empty(), pos: 0 }),
    {
        let r = StubLlm::new(Vec::new());
        assert(r@.turns =~= Seq::<Seq<TokenId>>::empty());
        r
    }
}

impl Clone for StubLlm {
    fn clone(&self) -> (r: Self)
        ensures
            r@ == self@,
    {
        let mut turns: Vec<Vec<TokenId>> = Vec::new();
        let ghost all = turn_ids(self.turns@);
        assert(turn_ids(turns@) =~= all.take(0));
        for i in 0..self.turns.len()
            invariant
                all == turn_ids(self.turns@),
                turn_ids(turns@) == all.take(i as int),
        {
            let ghost turns0 = turns@;
            turns.push(slice_to_vec(self.turns[i].as_slice()));
            assert(turn_ids(turns@) =~= turn_ids(turns0).push(all[i as int]));
            assert(all.take(i + 1) =~= all.take(i as int).push(all[i as int]));
        }
        assert(all.take(all.len() as int) =~= all);
        StubLlm { turns, pos: self.pos }
    }
}

/// A stub replays its script turn by turn and is then exhausted for good,
/// however often it is asked; it counts every turn that was asked for.
pub proof fn stubs_replay_their_script(turns: Seq<Seq<TokenId>>, n: nat)
    ensures
        ({
            let stub = (StubModel { turns, pos: 0 }).after(n);
            &&& stub.turns == turns
            &&& n < turns.len() ==> stub.turn() == Some(turns[n as int])
            &&& n >= turns.len() ==> stub.turn() is None
            &&& stub.pos == n
        }),
    decreases n,
{
    if n > 0 {
        stubs_replay_their_script(turns, (n - 1) as nat);
    }
}

// ── The local LLM ──────────────────────────────────────────────────────────

/// A session with a local LLM.
///
/// A response text is split into whitespace-delimited words; each distinct
/// word is assigned the next free id, in the order of first appearance.
#[derive(Debug)]
pub struct OllamaLlm {
    model: String,
    prompt: String,
    max_turns: usize,
    turn: usize,
    vocab: Vec<String>,
}

/// Model of an [`OllamaLlm`]; a word's id is its place in the vocabulary.
#[verifier::ext_equal]
pub struct SessionModel {
    pub model: Seq<char>,
    pub prompt: Seq<char>,
    pub max_turns: nat,
    pub turn: nat,
    pub vocab: Seq<Seq<char>>,
}

/// The vocabulary with a word added, unless it is there already.
pub open spec fn add_word(vocab: Seq<Seq<char>>, word: Seq<char>) -> Seq<Seq<char>> {
    if vocab.contains(word) {
        vocab
    } else {
        vocab.push(word)
    }
}

/// The vocabulary with words added one after the other.
pub open spec fn add_words(vocab: Seq<Seq<char>>, words: Seq<Seq<char>>) -> Seq<Seq<char>>
    decreases words.len(),
{
    if words.len() == 0 {
        vocab
    } else {
        add_word(add_words(vocab, words.drop_last()), words.last())
    }
}

/// `ids` are the places of the words in the vocabulary.
pub open spec fn are_ids(ids: Seq<TokenId>, words: Seq<Seq<char>>, vocab: Seq<Seq<char>>) -> bool {
    &&& ids.len() == words.len()
    &&& forall|k: int|
        0 <= k < ids.len() ==> (#[trigger] ids[k]) < vocab.len() && vocab[ids[k] as int]
            == words[k]
}

impl View for OllamaLlm {
    type V = SessionModel;

    closed spec fn view(&self) -> SessionModel {
        SessionModel {
            model: self.model@,
            prompt: self.prompt@,
            max_turns: self.max_turns as nat,
            turn: self.turn as nat,
            vocab: tree::texts(self.vocab@),
        }
    }
}

/// Where a word stands in a list of words.
fn find_word(vocab: &Vec<String>, word: &String) -> (r: Option<usize>)
    ensures
        match r {
            Some(i) => i < vocab@.len() && vocab@[i as int]@ == word@,
            None => !tree::texts(vocab@).contains(word@),
        },
{
    for i in 0..vocab.len()
        invariant
            forall|k: int| 0 <= k < i ==> (#[trigger] vocab@[k])@ != word@,
    {
        if vocab[i] == *word {
            return Some(i);
        }
    }
    proof {
        if tree::texts(vocab@).contains(word@) {
            let k = tree::texts(vocab@).index_of(word@);
            assert(vocab@[k]@ == word@);
        }
    }
    None
}

/// Look a word up, adding it where it is new. Returns its place.
fn intern(vocab: &mut Vec<String>, word: String) -> (i: usize)
    ensures
        tree::texts(final(vocab)@) == add_word(tree::texts(old(vocab)@), word@),
        i < final(vocab)@.len(),
        final(vocab)@[i as int]@ == word@,
{
    match find_word(vocab, &word) {
        Some(i) => {
            assert(tree::texts(vocab@)[i as int] == word@);
            i
        },
        None => {
            let i = vocab.len();
            let ghost v0 = vocab@;
            let ghost w = word@;
            vocab.push(word);
            assert(tree::texts(vocab@) =~= tree::texts(v0).push(w));
            i
        },
    }
}

impl OllamaLlm {
    /// No word stands twice in the vocabulary, and every word has an id.
    pub closed spec fn wf(&self) -> bool {
        tree::texts(self.vocab@).no_duplicates() && self.vocab@.len() <= u32::MAX
    }

    /// The vocabulary is without repetitions and its size fits an id.
    pub proof fn lemma_wf(&self)
        requires
            self.wf(),
        ensures
            self@.vocab.no_duplicates(),
            self@.vocab.len() <= u32::MAX,
    {
    }

    /// A session over a model and a prompt, with an empty vocabulary.
    pub fn new(model: &str, prompt: &str, max_turns: usize) -> (r: Self)
        ensures
            r.wf(),
            r@ == (SessionModel {
                model: model@,
                prompt: prompt@,
                max_turns: max_turns as nat,
                turn: 0,
                vocab: Seq::empty(),
            }),
    {
        let r = OllamaLlm {
            model: model.to_owned(),
            prompt: prompt.to_owned(),
            max_turns,
            turn: 0,
            vocab: Vec::new(),
        };
        assert(r@.vocab =~= Seq::<Seq<char>>::empty());
        r
    }

    /// The model's name.
    pub fn model(&self) -> (r: &str)
        ensures
            r@ == self@.model,
    {
        self.model.as_str()
    }

    /// The prompt.
    pub fn prompt(&self) -> (r: &str)
        ensures
            r@ == self@.prompt,
    {
        self.prompt.as_str()
    }

    /// Map a response text to token ids, growing the session vocabulary.
    pub fn tokenize(&mut self, text: &str) -> (r: Vec<TokenId>)
        requires
            old(self).wf(),
            add_words(old(self)@.vocab, text::words(text@)).len() <= u32::MAX,
        ensures
            final(self).wf(),
            final(self)@ == (SessionModel {
                vocab: add_words(old(self)@.vocab, text::words(text@)),
                ..old(self)@
            }),
            are_ids(r@, text::words(text@), final(self)@.vocab),
    {
        let v = text::chars_of(text);
        let bounds = text::word_bounds(&v);
        let ghost words = text::words(text@);
        let ghost vocab0 = self@.vocab;
        let ghost start = *self;
        let mut ids: Vec<TokenId> = Vec::new();
        assert(words.take(0) =~= Seq::empty());
        for k in 0..bounds.len()
            invariant
                v@ == text@,
                words == text::words(text@),
                text::bounds_within(bounds@, v@.len()),
                text::spans(v@, bounds@) == words,
                self.wf(),
                self@ == (SessionModel { vocab: self@.vocab, ..start@ }),
                self@.vocab == add_words(vocab0, words.take(k as int)),
                add_words(vocab0, words).len() <= u32::MAX,
                are_ids(ids@, words.take(k as int), self@.vocab),
        {
            let (lo, hi) = bounds[k];
            let ghost vocab1 = self@.vocab;
            assert(text::spans(v@, bounds@)[k as int] == v@.subrange(lo as int, hi as int));
            assert(words.take(k + 1).drop_last() =~= words.take(k as int));
            let word = text.substring_char(lo, hi).to_owned();
            proof {
                lemma_add_words_prefix(vocab0, words, k + 1);
            }
            let i = intern(&mut self.vocab, word);
            proof {
                assert(self@.vocab == add_word(vocab1, words[k as int]));
                assert(self@.vocab.len() == self.vocab@.len());
                assert forall|j: int| 0 <= j < k implies (#[trigger] ids@[j]) < self@.vocab.len()
                    && self@.vocab[ids@[j] as int] == words.take(k + 1)[j] by {
                    assert(words.take(k as int)[j] == words.take(k + 1)[j]);
                }
                assert(self@.vocab[i as int] == words[k as int]);
            }
            ids.push(i as u32);
        }
        assert(words.take(words.len() as int) =~= words);
        ids
    }

    /// Whether the words of a text leave every word an id.
    pub fn fits(&self, text: &str) -> (r: bool)
        ensures
            r == (add_words(self@.vocab, text::words(text@)).len() <= u32::MAX),
    {
        let v = text::chars_of(text);
        let bounds = text::word_bounds(&v);
        let ghost words = text::words(text@);
        let mut vocab = tree::copy_texts(&self.vocab);
        assert(words.take(0) =~= Seq::empty());
        for k in 0..bounds.len()
            invariant
                v@ == text@,
                words == text::words(text@),
                text::bounds_within(bounds@, v@.len()),
                text::spans(v@, bounds@) == words,
                tree::texts(vocab@) == add_words(self@.vocab, words.take(k as int)),
        {
            let (lo, hi) = bounds[k];
            assert(text::spans(v@, bounds@)[k as int] == v@.subrange(lo as int, hi as int));
            assert(words.take(k + 1).drop_last() =~= words.take(k as int));
            let word = text.substring_char(lo, hi).to_owned();
            let _i = intern(&mut vocab, word);
        }
        assert(words.take(words.len() as int) =~= words);
        assert(tree::texts(vocab@).len() == vocab@.len());
        vocab.len() as u64 <= u32::MAX as u64
    }

    /// Number of distinct words seen so far (the session vocabulary size).
    pub fn vocab_len(&self) -> (r: usize)
        ensures
            r == self@.vocab.len(),
    {
        self.vocab.len()
    }

    /// Begin a turn: `false` when the session has had its turns, and then
    /// nothing changes.
    pub fn begin_turn(&mut self) -> (r: bool)
        ensures
            old(self).wf() ==> final(self).wf(),
            r == (old(self)@.turn < old(self)@.max_turns),
            final(self)@ == if r {
                SessionModel { turn: old(self)@.turn + 1, ..old(self)@ }
            } else {
                old(self)@
            },
    {
        if self.turn >= self.max_turns {
            return false;
        }
        self.turn = self.turn + 1;
        true
    }

    /// The completion that the model's output carries: the trimmed text, none
    /// where the run failed.
    pub fn completion(success: bool, output: &str) -> (r: Option<String>)
        ensures
            match r {
                Some(s) => success && s@ == text::trimmed(output@),
                None => !success,
            },
    {
        if success {
            Some(text::trim(output))
        } else {
            None
        }
    }

    /// Finish a turn with a completion: its token ids, none where there is no
    /// completion or an empty one, and then nothing changes.
    pub fn finish_turn(&mut self, completion: Option<String>) -> (r: Option<Vec<TokenId>>)
        requires
            old(self).wf(),
            completion matches Some(s) ==> add_words(
                old(self)@.vocab,
                text::words(s@),
            ).len() <= u32::MAX,
        ensures
            final(self).wf(),
            r is Some <==> completion is Some && completion->0@.len() > 0,
            match r {
                Some(ids) => are_ids(ids@, text::words(completion->0@), final(self)@.vocab)
                    && final(self)@ == (SessionModel {
                    vocab: add_words(old(self)@.vocab, text::words(completion->0@)),
                    ..old(self)@
                }),
                None => final(self)@ == old(self)@,
            },
    {
        match completion {
            None => None,
            Some(s) => if s.as_str().is_empty() {
                None
            } else {
                Some(self.tokenize(s.as_str()))
            },
        }
    }
}

impl Clone for OllamaLlm {
    fn clone(&self) -> (r: Self)
        ensures
            r@ == self@,
            self.wf() ==> r.wf(),
    {
        let vocab = tree::copy_texts(&self.vocab);
        assert(tree::texts(vocab@).len() == vocab@.len());
        assert(tree::texts(self.vocab@).len() == self.vocab@.len());
        OllamaLlm {
            model: self.model.clone(),
            prompt: self.prompt.clone(),
            max_turns: self.max_turns,
            turn: self.turn,
            vocab,
        }
    }
}

proof fn lemma_add_words_prefix(vocab: Seq<Seq<char>>, words: Seq<Seq<char>>, k: int)
    requires
        0 <= k <= words.len(),
    ensures
        add_words(vocab, words.take(k)).len() <= add_words(vocab, words).len(),
    decreases words.len(),
{
    if k == words.len() {
        assert(words.take(k) =~= words);
    } else {
        lemma_add_words_prefix(vocab, words.drop_last(), k);
        assert(words.drop_last().take(k) =~= words.take(k));
    }
}

/// Ids are stable: growing the vocabulary moves no word and repeats none, and
/// every new word is in it.
pub proof fn vocabulary_only_grows(vocab: Seq<Seq<char>>, words: Seq<Seq<char>>)
    ensures
        vocab.is_prefix_of(add_words(vocab, words)),
        vocab.no_duplicates() ==> add_words(vocab, words).no_duplicates(),
        forall|k: int|
            0 <= k < words.len() ==> add_words(vocab, words).contains(#[trigger] words[k]),
    decreases words.len(),
{
    if words.len() > 0 {
        let init = words.drop_last();
        vocabulary_only_grows(vocab, init);
        let rest = add_words(vocab, init);
        let all = add_words(vocab, words);
        assert forall|k: int| 0 <= k < words.len() implies all.contains(#[trigger] words[k]) by {
            if k < init.len() {
                assert(rest.contains(init[k]));
                assert(all[rest.index_of(init[k])] == words[k]);
            } else if !rest.contains(words.last()) {
                assert(all[all.len() - 1] == words[k]);
            }
        }
    }
}

/// Tokenization is faithful: over a vocabulary without repetitions, two words
/// get the same id exactly when they are the same.
pub proof fn ids_name_words(
    ids: Seq<TokenId>,
    words: Seq<Seq<char>>,
    vocab: Seq<Seq<char>>,
    i: int,
    j: int,
)
    requires
        vocab.no_duplicates(),
        are_ids(ids, words, vocab),
        0 <= i < ids.len(),
        0 <= j < ids.len(),
    ensures
        ids[i] == ids[j] <==> words[i] == words[j],
{
    assert(vocab[ids[i] as int] == words[i]);
    assert(vocab[ids[j] as int] == words[j]);
}

/// A text of known words changes no vocabulary: tokenizing it again gives the
/// same ids.
pub proof fn known_words_change_nothing(vocab: Seq<Seq<char>>, words: Seq<Seq<char>>)
    requires
        forall|k: int| 0 <= k < words.len() ==> vocab.contains(#[trigger] words[k]),
    ensures
        add_words(vocab, words) == vocab,
    decreases words.len(),
{
    if words.len() > 0 {
        let init = words.drop_last();
        assert forall|k: int| 0 <= k < init.len() implies vocab.contains(#[trigger] init[k]) by {
            assert(vocab.contains(words[k]));
        }
        known_words_change_nothing(vocab, init);
        assert(vocab.contains(words[words.len() - 1]));
    }
}

} // verus!
