//! What the context matrix measures: the laws of observing, learning, merging
//! and reading it, stated of weights and nodes.

use crate::context;
use crate::context::MatrixModel;
use crate::context_laws;
use crate::count;
use crate::TokenId;
use vstd::prelude::*;

verus! {

// ── Reading ────────────────────────────────────────────────────────────────

/// A token is grounded where it is a node, a transition is an edge where its
/// weight is positive, and a square of nodes can be addressed where its cells
/// are no more than an index can count.
pub proof fn contexts_are_read_by_node_and_weight(m: MatrixModel, a: TokenId, b: TokenId, n: nat)
    ensures
        m.grounded(a) <==> m.nodes.contains(a),
        m.edge(a, b) <==> (m.weight)(a, b) > 0,
        context::square_fits(n) <==> n * n <= usize::MAX,
{
}

// ── Nodes ──────────────────────────────────────────────────────────────────

/// Adding nodes keeps what was there in place, adds each new token once and
/// nothing else, and adds the tokens in turn: what the start of a list adds
/// comes first.
pub proof fn nodes_are_added_once_and_in_turn(
    nodes: Seq<TokenId>,
    ts: Seq<TokenId>,
    k: int,
    t: TokenId,
)
    requires
        0 <= k <= ts.len(),
    ensures
        nodes.is_prefix_of(context::add_nodes(nodes, ts)),
        context::add_nodes(nodes, ts).contains(t) <==> nodes.contains(t) || ts.contains(t),
        nodes.no_duplicates() ==> context::add_nodes(nodes, ts).no_duplicates(),
        context::add_nodes(nodes, ts.take(k)).is_prefix_of(context::add_nodes(nodes, ts)),
    decreases ts.len(),
{
    context::lemma_add_nodes(nodes, ts);
    let all = context::add_nodes(nodes, ts);
    assert(all.to_set().contains(t) == nodes.to_set().union(ts.to_set()).contains(t));
    if ts.len() == 0 {
        assert(ts.take(k) =~= ts);
    } else {
        let init = ts.drop_last();
        nodes_are_added_once_and_in_turn(nodes, init, 0, t);
        if k == ts.len() {
            assert(ts.take(k) =~= ts);
        } else {
            nodes_are_added_once_and_in_turn(nodes, init, k, t);
            assert(init.take(k) =~= ts.take(k));
        }
    }
}

// ── Observing ──────────────────────────────────────────────────────────────

/// A context that nothing was observed in has no nodes and no weights.
pub proof fn nothing_is_measured_at_first(a: TokenId, b: TokenId)
    ensures
        MatrixModel::empty().nodes.len() == 0,
        (MatrixModel::empty().weight)(a, b) == 0,
{
}

/// An observation raises one cell to its evidence, and touches no other: the
/// reverse transition least of all. Its two tokens are nodes from then on, new
/// ones behind the old, the source before the target.
pub proof fn observing_raises_one_cell(
    m: MatrixModel,
    a: TokenId,
    b: TokenId,
    w: int,
    x: TokenId,
    y: TokenId,
)
    ensures
        x == a && y == b && w > (m.weight)(a, b) ==> (m.observe(a, b, w).weight)(x, y) == w,
        x == a && y == b && w <= (m.weight)(a, b) ==> (m.observe(a, b, w).weight)(x, y)
            == (m.weight)(a, b),
        x != a || y != b ==> (m.observe(a, b, w).weight)(x, y) == (m.weight)(x, y),
        m.nodes.is_prefix_of(m.observe(a, b, w).nodes),
        m.observe(a, b, w).nodes.contains(x) <==> m.nodes.contains(x) || x == a || x == b,
        m.nodes.no_duplicates() ==> m.observe(a, b, w).nodes.no_duplicates(),
        !m.nodes.contains(a) ==> m.nodes.len() < m.observe(a, b, w).nodes.len() && m.observe(
            a,
            b,
            w,
        ).nodes[m.nodes.len() as int] == a,
{
    let one = context::add_node(m.nodes, a);
    let two = context::add_node(one, b);
    context::lemma_add_node(m.nodes, a);
    context::lemma_add_node(one, b);
    assert(two.to_set().contains(x) == m.nodes.to_set().insert(a).insert(b).contains(x));
}

// ── Learning ───────────────────────────────────────────────────────────────

/// `b` directly follows `a` somewhere in `tokens`.
spec fn follows(tokens: Seq<TokenId>, a: TokenId, b: TokenId) -> bool {
    exists|k: int| 0 <= k < tokens.len() - 1 && #[trigger] tokens[k] == a && tokens[k + 1] == b
}

proof fn lemma_follows(tokens: Seq<TokenId>, a: TokenId, b: TokenId)
    requires
        tokens.len() >= 2,
    ensures
        follows(tokens, a, b) <==> follows(tokens.drop_last(), a, b) || (tokens[tokens.len() - 2]
            == a && tokens.last() == b),
{
    let init = tokens.drop_last();
    let n = tokens.len() as int;
    if follows(tokens, a, b) {
        let k = choose|k: int|
            0 <= k < tokens.len() - 1 && #[trigger] tokens[k] == a && tokens[k + 1] == b;
        if k < n - 2 {
            assert(init[k] == a && init[k + 1] == b);
        }
    }
    if follows(init, a, b) {
        let k = choose|k: int|
            0 <= k < init.len() - 1 && #[trigger] init[k] == a && init[k + 1] == b;
        assert(tokens[k] == a && tokens[k + 1] == b);
    }
    if tokens[n - 2] == a && tokens.last() == b {
        assert(tokens[n - 2] == a && tokens[n - 2 + 1] == b);
    }
}

/// Learning a sequence measures its own transitions, each with evidence one,
/// and nothing else: a weight becomes at least one where the second token
/// directly follows the first in the sequence, and stays as it was otherwise.
pub proof fn learning_measures_the_transitions_alone(
    m: MatrixModel,
    tokens: Seq<TokenId>,
    a: TokenId,
    b: TokenId,
)
    ensures
        (exists|k: int|
            0 <= k < tokens.len() - 1 && #[trigger] tokens[k] == a && tokens[k + 1] == b)
            && (m.weight)(a, b) < 1 ==> (m.learn(tokens).weight)(a, b) == 1,
        (exists|k: int|
            0 <= k < tokens.len() - 1 && #[trigger] tokens[k] == a && tokens[k + 1] == b)
            && (m.weight)(a, b) >= 1 ==> (m.learn(tokens).weight)(a, b) == (m.weight)(a, b),
        !(exists|k: int|
            0 <= k < tokens.len() - 1 && #[trigger] tokens[k] == a && tokens[k + 1] == b) ==> (
        m.learn(tokens).weight)(a, b) == (m.weight)(a, b),
    decreases tokens.len(),
{
    if tokens.len() >= 2 {
        let init = tokens.drop_last();
        let x = tokens[tokens.len() - 2];
        let y = tokens.last();
        learning_measures_the_transitions_alone(m, init, a, b);
        observing_raises_one_cell(m.learn(init), x, y, 1, a, b);
        lemma_follows(tokens, a, b);
        assert(follows(tokens, a, b) == (exists|k: int|
            0 <= k < tokens.len() - 1 && #[trigger] tokens[k] == a && tokens[k + 1] == b));
        assert(follows(init, a, b) == (exists|k: int|
            0 <= k < init.len() - 1 && #[trigger] init[k] == a && init[k + 1] == b));
    }
}

/// Learning a sequence grounds exactly its tokens, none where it has no
/// transition. New nodes come behind the old ones, in the order of the
/// sequence: what its start adds comes first, its first token at the head.
pub proof fn learning_grounds_the_tokens_in_turn(
    m: MatrixModel,
    tokens: Seq<TokenId>,
    k: int,
    t: TokenId,
)
    requires
        0 <= k <= tokens.len(),
    ensures
        m.nodes.is_prefix_of(m.learn(tokens).nodes),
        m.nodes.no_duplicates() ==> m.learn(tokens).nodes.no_duplicates(),
        tokens.len() >= 2 ==> (m.learn(tokens).nodes.contains(t) <==> m.nodes.contains(t)
            || tokens.contains(t)),
        tokens.len() < 2 ==> m.learn(tokens).nodes == m.nodes,
        m.learn(tokens.take(k)).nodes.is_prefix_of(m.learn(tokens).nodes),
        tokens.len() >= 2 && !m.nodes.contains(tokens[0]) ==> m.nodes.len() < m.learn(
            tokens,
        ).nodes.len() && m.learn(tokens).nodes[m.nodes.len() as int] == tokens[0],
    decreases tokens.len(),
{
    if tokens.len() >= 2 {
        let init = tokens.drop_last();
        let n = tokens.len() as int;
        let x = tokens[n - 2];
        let y = tokens.last();
        learning_grounds_the_tokens_in_turn(m, init, 0, t);
        observing_raises_one_cell(m.learn(init), x, y, 1, t, t);
        observing_raises_one_cell(m.learn(init), x, y, 1, x, t);
        if tokens.contains(t) {
            let i = tokens.index_of(t);
            if i < n - 1 {
                assert(init[i] == t);
            }
        }
        if init.contains(t) {
            let i = init.index_of(t);
            assert(tokens[i] == t);
        }
        assert(tokens[n - 2] == x && tokens[n - 1] == y);
        if n == 2 {
            assert(m.learn(init) == m);
            if init.contains(t) {
                assert(t == x);
            }
        }
    }
    if k == tokens.len() {
        assert(tokens.take(k) =~= tokens);
    } else if tokens.len() >= 2 {
        learning_grounds_the_tokens_in_turn(m, tokens.drop_last(), k, t);
        assert(tokens.drop_last().take(k) =~= tokens.take(k));
    }
}

spec fn some_follows(seqs: Seq<Seq<TokenId>>, a: TokenId, b: TokenId) -> bool {
    exists|j: int| 0 <= j < seqs.len() && follows(#[trigger] seqs[j], a, b)
}

proof fn lemma_learned_anywhere(
    m: MatrixModel,
    seqs: Seq<Seq<TokenId>>,
    a: TokenId,
    b: TokenId,
)
    ensures
        some_follows(seqs, a, b) && (m.weight)(a, b) < 1 ==> (m.learn_all(seqs).weight)(a, b) == 1,
        some_follows(seqs, a, b) && (m.weight)(a, b) >= 1 ==> (m.learn_all(seqs).weight)(a, b) == (
        m.weight)(a, b),
        !some_follows(seqs, a, b) ==> (m.learn_all(seqs).weight)(a, b) == (m.weight)(a, b),
    decreases seqs.len(),
{
    if seqs.len() > 0 {
        let init = seqs.drop_last();
        let last = seqs.last();
        lemma_learned_anywhere(m, init, a, b);
        learning_measures_the_transitions_alone(m.learn_all(init), last, a, b);
        assert(follows(last, a, b) == (exists|k: int|
            0 <= k < last.len() - 1 && #[trigger] last[k] == a && last[k + 1] == b));
        if some_follows(init, a, b) {
            let j = choose|j: int| 0 <= j < init.len() && follows(#[trigger] init[j], a, b);
            assert(follows(seqs[j], a, b));
        }
        if some_follows(seqs, a, b) {
            let j = choose|j: int| 0 <= j < seqs.len() && follows(#[trigger] seqs[j], a, b);
            if j < init.len() {
                assert(follows(init[j], a, b));
            }
        }
        if follows(last, a, b) {
            assert(follows(seqs[seqs.len() - 1], a, b));
        }
    }
}

/// Learning several sequences measures the transitions within each of them,
/// each with evidence one, and nothing else: no transition leads from one
/// sequence into the next.
pub proof fn learning_many_measures_each_alone(
    m: MatrixModel,
    seqs: Seq<Seq<TokenId>>,
    a: TokenId,
    b: TokenId,
)
    ensures
        (exists|j: int, k: int|
            0 <= j < seqs.len() && 0 <= k < seqs[j].len() - 1 && #[trigger] seqs[j][k] == a
                && seqs[j][k + 1] == b) && (m.weight)(a, b) < 1 ==> (m.learn_all(seqs).weight)(a, b) == 1,
        (exists|j: int, k: int|
            0 <= j < seqs.len() && 0 <= k < seqs[j].len() - 1 && #[trigger] seqs[j][k] == a
                && seqs[j][k + 1] == b) && (m.weight)(a, b) >= 1 ==> (m.learn_all(seqs).weight)(a, b) == (
        m.weight)(a, b),
        !(exists|j: int, k: int|
            0 <= j < seqs.len() && 0 <= k < seqs[j].len() - 1 && #[trigger] seqs[j][k] == a
                && seqs[j][k + 1] == b) ==> (m.learn_all(seqs).weight)(a, b) == (m.weight)(a, b),
{
    lemma_learned_anywhere(m, seqs, a, b);
    if some_follows(seqs, a, b) {
        let j = choose|j: int| 0 <= j < seqs.len() && follows(#[trigger] seqs[j], a, b);
        let k = choose|k: int|
            0 <= k < seqs[j].len() - 1 && #[trigger] seqs[j][k] == a && seqs[j][k + 1] == b;
        assert(seqs[j][k] == a && seqs[j][k + 1] == b);
    }
    if exists|j: int, k: int|
        0 <= j < seqs.len() && 0 <= k < seqs[j].len() - 1 && #[trigger] seqs[j][k] == a
            && seqs[j][k + 1] == b {
        let (j, k) = choose|j: int, k: int|
            0 <= j < seqs.len() && 0 <= k < seqs[j].len() - 1 && #[trigger] seqs[j][k] == a
                && seqs[j][k + 1] == b;
        assert(follows(seqs[j], a, b));
    }
}

/// Learning several sequences grounds exactly the tokens of those that have a
/// transition, sequence after sequence.
pub proof fn learning_many_grounds_the_tokens_in_turn(
    m: MatrixModel,
    seqs: Seq<Seq<TokenId>>,
    k: int,
    t: TokenId,
)
    requires
        0 <= k <= seqs.len(),
    ensures
        m.nodes.is_prefix_of(m.learn_all(seqs).nodes),
        m.nodes.no_duplicates() ==> m.learn_all(seqs).nodes.no_duplicates(),
        m.learn_all(seqs).nodes.contains(t) <==> m.nodes.contains(t) || (exists|j: int|
            0 <= j < seqs.len() && (#[trigger] seqs[j]).len() >= 2 && seqs[j].contains(t)),
        m.learn_all(seqs.take(k)).nodes.is_prefix_of(m.learn_all(seqs).nodes),
        seqs.len() == 1 ==> m.learn_all(seqs) == m.learn(seqs[0]),
    decreases seqs.len(),
{
    if seqs.len() > 0 {
        let init = seqs.drop_last();
        let last = seqs.last();
        learning_many_grounds_the_tokens_in_turn(m, init, 0, t);
        learning_grounds_the_tokens_in_turn(m.learn_all(init), last, 0, t);
        if exists|j: int|
            0 <= j < init.len() && (#[trigger] init[j]).len() >= 2 && init[j].contains(t) {
            let j = choose|j: int|
                0 <= j < init.len() && (#[trigger] init[j]).len() >= 2 && init[j].contains(t);
            assert(seqs[j].len() >= 2 && seqs[j].contains(t));
        }
        if exists|j: int|
            0 <= j < seqs.len() && (#[trigger] seqs[j]).len() >= 2 && seqs[j].contains(t) {
            let j = choose|j: int|
                0 <= j < seqs.len() && (#[trigger] seqs[j]).len() >= 2 && seqs[j].contains(t);
            if j < init.len() {
                assert(init[j].len() >= 2 && init[j].contains(t));
            }
        }
        if last.len() >= 2 && last.contains(t) {
            let j = seqs.len() - 1;
            assert(seqs[j].len() >= 2 && seqs[j].contains(t));
        }
        if seqs.len() == 1 {
            assert(m.learn_all(init) == m);
        }
    }
    if k == seqs.len() {
        assert(seqs.take(k) =~= seqs);
    } else {
        learning_many_grounds_the_tokens_in_turn(m, seqs.drop_last(), k, t);
        assert(seqs.drop_last().take(k) =~= seqs.take(k));
    }
}

/// Learning two lists of sequences is learning the one and then the other.
pub proof fn learning_goes_on_sequence_by_sequence(
    m: MatrixModel,
    a: Seq<Seq<TokenId>>,
    b: Seq<Seq<TokenId>>,
    s: Seq<TokenId>,
)
    ensures
        m.learn_all(Seq::empty()) == m,
        m.learn_all(seq![s]) == m.learn(s),
        m.learn_all(a + b) == m.learn_all(a).learn_all(b),
    decreases b.len(),
{
    let one = seq![s];
    assert(one.drop_last() =~= Seq::empty());
    assert(m.learn_all(one.drop_last()) == m);
    if b.len() == 0 {
        assert(a + b =~= a);
    } else {
        learning_goes_on_sequence_by_sequence(m, a, b.drop_last(), s);
        assert((a + b).drop_last() =~= a + b.drop_last());
        assert((a + b).last() == b.last());
    }
}

/// How often one token follows another is the number of places where it does.
pub proof fn bigrams_are_counted_by_place(tokens: Seq<TokenId>, a: TokenId, b: TokenId)
    ensures
        context::bigram_count(tokens, a, b) == Set::new(
            |k: int| 0 <= k < tokens.len() - 1 && tokens[k] == a && tokens[k + 1] == b,
        ).len(),
    decreases tokens.len(),
{
    let here = Set::new(
        |k: int| 0 <= k < tokens.len() - 1 && tokens[k] == a && tokens[k + 1] == b,
    );
    if tokens.len() < 2 {
        assert(here =~= Set::<int>::empty());
    } else {
        let init = tokens.drop_last();
        let n = tokens.len() - 2;
        bigrams_are_counted_by_place(init, a, b);
        let p = |k: int| tokens[k] == a && tokens[k + 1] == b;
        count::lemma_one_more(p, n);
        assert(here =~= Set::new(|k: int| 0 <= k < n + 1 && p(k)));
        assert(Set::new(
            |k: int| 0 <= k < init.len() - 1 && init[k] == a && init[k + 1] == b,
        ) =~= Set::new(|k: int| 0 <= k < n && p(k)));
    }
}

// ── Merging ────────────────────────────────────────────────────────────────

/// A merged weight is the larger of the two weights, and one of them. The
/// nodes of the first context stay in place; the new ones of the second follow
/// in their own order.
pub proof fn merging_takes_the_larger_weight(
    a: MatrixModel,
    b: MatrixModel,
    x: TokenId,
    y: TokenId,
    k: int,
)
    requires
        0 <= k <= b.nodes.len(),
    ensures
        (a.weight)(x, y) >= (b.weight)(x, y) ==> (a.merge(b).weight)(x, y) == (a.weight)(x, y),
        (a.weight)(x, y) <= (b.weight)(x, y) ==> (a.merge(b).weight)(x, y) == (b.weight)(x, y),
        a.nodes.is_prefix_of(a.merge(b).nodes),
        a.merge(b).nodes.contains(x) <==> a.nodes.contains(x) || b.nodes.contains(x),
        a.nodes.no_duplicates() ==> a.merge(b).nodes.no_duplicates(),
        context::add_nodes(a.nodes, b.nodes.take(k)).is_prefix_of(a.merge(b).nodes),
{
    nodes_are_added_once_and_in_turn(a.nodes, b.nodes, k, x);
}

/// Contexts agree where they have the same nodes and the same weights.
pub proof fn agreement_is_of_nodes_and_weights(a: MatrixModel, b: MatrixModel)
    ensures
        a.same(b) <==> (forall|t: TokenId| a.nodes.contains(t) <==> b.nodes.contains(t)) && (
        forall|x: TokenId, y: TokenId| #[trigger] (a.weight)(x, y) == (b.weight)(x, y)),
{
    if a.same(b) {
        assert forall|t: TokenId| a.nodes.contains(t) <==> b.nodes.contains(t) by {
            assert(a.nodes.to_set().contains(t) == b.nodes.to_set().contains(t));
        }
    }
    if forall|t: TokenId| a.nodes.contains(t) <==> b.nodes.contains(t) {
        assert(a.nodes.to_set() =~= b.nodes.to_set());
    }
}

// ── The transition graph ───────────────────────────────────────────────────

proof fn lemma_filtered_places(
    s: Seq<(TokenId, TokenId)>,
    keep: spec_fn((TokenId, TokenId)) -> bool,
    i: int,
    j: int,
) -> (r: (int, int))
    requires
        0 <= i < j < s.filter(keep).len(),
    ensures
        0 <= r.0 < r.1 < s.len(),
        s[r.0] == s.filter(keep)[i],
        s[r.1] == s.filter(keep)[j],
    decreases s.len(),
{
    reveal(Seq::filter);
    let init = s.drop_last();
    let f = init.filter(keep);
    assert(s.len() > 0);
    if j < f.len() {
        let r = lemma_filtered_places(init, keep, i, j);
        assert(init[r.0] == s[r.0] && init[r.1] == s[r.1]);
        r
    } else {
        assert(s.filter(keep) =~= f.push(s.last()));
        assert(f.contains(f[i]));
        init.lemma_filter_contains_rev(keep, f[i]);
        let a = init.index_of(f[i]);
        assert(s[a] == f[i]);
        (a, s.len() - 1)
    }
}

/// The edge list holds a transition exactly where its weight is positive, and
/// holds it once. It runs row by row: of two entries, the source of the first
/// was seen earlier, or they share it and the target of the first was.
pub proof fn edges_are_listed_row_by_row(
    m: MatrixModel,
    a: TokenId,
    b: TokenId,
    i: int,
    j: int,
)
    requires
        m.valid(),
        0 <= i < j < m.edge_list().len(),
    ensures
        m.edge_list().contains((a, b)) <==> (m.weight)(a, b) > 0,
        ({
            let p = m.edge_list()[i];
            let q = m.edge_list()[j];
            ||| m.nodes.index_of(p.0) < m.nodes.index_of(q.0)
            ||| p.0 == q.0 && m.nodes.index_of(p.1) < m.nodes.index_of(q.1)
        }),
{
    context_laws::edges_are_the_measured_transitions(m, a, b);
    let keep = |p: (TokenId, TokenId)| m.edge(p.0, p.1);
    let r = lemma_filtered_places(m.pairs(), keep, i, j);
    let n = m.nodes.len() as int;
    let (x, y) = r;
    assert(n > 0) by {
        if n == 0 {
            assert(m.pairs().len() == 0);
        }
    }
    assert(x < n * n && y < n * n);
    vstd::arithmetic::div_mod::lemma_fundamental_div_mod(x, n);
    vstd::arithmetic::div_mod::lemma_fundamental_div_mod(y, n);
    vstd::arithmetic::div_mod::lemma_div_is_ordered(x, y, n);
    vstd::arithmetic::div_mod::lemma_multiply_divide_lt(x, n, n);
    vstd::arithmetic::div_mod::lemma_multiply_divide_lt(y, n, n);
    vstd::arithmetic::div_mod::lemma_div_pos_is_pos(x, n);
    vstd::arithmetic::div_mod::lemma_div_pos_is_pos(y, n);
    let p = m.edge_list()[i];
    let q = m.edge_list()[j];
    assert(p == (m.nodes[x / n], m.nodes[x % n]));
    assert(q == (m.nodes[y / n], m.nodes[y % n]));
    assert(m.nodes.index_of(p.0) == x / n && m.nodes.index_of(p.1) == x % n);
    assert(m.nodes.index_of(q.0) == y / n && m.nodes.index_of(q.1) == y % n);
    if x / n == y / n {
        assert(n * (x / n) == n * (y / n));
        assert(x % n < y % n);
    }
}

/// A path is a chain of nodes from start to end, each step of it a transition
/// with a positive weight, in its own direction; and every such chain is a
/// path. The way from a node to itself is that node alone.
pub proof fn paths_are_chains_of_measured_transitions(
    m: MatrixModel,
    p: Seq<TokenId>,
    start: TokenId,
    end: TokenId,
)
    ensures
        m.is_path(p, start, end) <==> p.len() > 0 && p[0] == start && p[p.len() - 1] == end && (
        forall|k: int| 0 <= k < p.len() ==> m.nodes.contains(#[trigger] p[k])) && (forall|k: int|
            0 <= k < p.len() - 1 ==> (m.weight)(#[trigger] p[k], p[k + 1]) > 0),
        m.nodes.contains(start) ==> m.is_path(seq![start], start, start),
{
    if p.len() > 0 && (forall|k: int| 0 <= k < p.len() ==> m.nodes.contains(#[trigger] p[k])) && (
    forall|k: int| 0 <= k < p.len() - 1 ==> (m.weight)(#[trigger] p[k], p[k + 1]) > 0) {
        assert forall|k: int| 0 <= k < p.len() implies m.grounded(#[trigger] p[k]) by {}
        assert forall|k: int| 0 <= k < p.len() - 1 implies m.edge(#[trigger] p[k], p[k + 1]) by {
            assert((m.weight)(p[k], p[k + 1]) > 0);
        }
    }
    if m.is_path(p, start, end) {
        assert forall|k: int| 0 <= k < p.len() implies m.nodes.contains(#[trigger] p[k]) by {
            assert(m.grounded(p[k]));
        }
        assert forall|k: int| 0 <= k < p.len() - 1 implies (m.weight)(#[trigger] p[k], p[k + 1])
            > 0 by {
            assert(m.edge(p[k], p[k + 1]));
        }
    }
    if m.nodes.contains(start) {
        let one = seq![start];
        assert(one[0] == start);
    }
}

/// The path that is answered is a shortest one; where another is as short and
/// differs, the two part at a node of the answer that was seen earlier.
pub proof fn answered_paths_are_shortest(
    m: MatrixModel,
    p: Seq<TokenId>,
    start: TokenId,
    end: TokenId,
    q: Seq<TokenId>,
)
    requires
        m.is_first_path(p, start, end),
        m.is_path(q, start, end),
    ensures
        m.is_path(p, start, end),
        p.len() <= q.len(),
        p.len() == q.len() && p != q ==> exists|k: int|
            0 < k < p.len() && m.nodes.index_of(#[trigger] p[k]) < m.nodes.index_of(q[k]) && (
            forall|j: int| 0 <= j < k ==> #[trigger] p[j] == q[j]),
{
    paths_are_chains_of_measured_transitions(m, p, start, end);
    paths_are_chains_of_measured_transitions(m, q, start, end);
    let a = m.ranks(p);
    let b = m.ranks(q);
    assert(crate::route::no_later(a, b));
    assert(a.len() == p.len() && b.len() == q.len());
    if p.len() == q.len() && p != q {
        if a == b {
            assert forall|k: int| 0 <= k < p.len() implies p[k] == q[k] by {
                assert(a[k] == b[k]);
                assert(m.nodes.contains(p[k]) && m.nodes.contains(q[k]));
            }
            assert(p =~= q);
        }
        let k = choose|k: int|
            0 <= k < a.len() && k < b.len() && #[trigger] a[k] < b[k] && a.take(k) == b.take(k);
        assert forall|j: int| 0 <= j < k implies #[trigger] p[j] == q[j] by {
            assert(a.take(k)[j] == b.take(k)[j]);
            assert(m.nodes.contains(p[j]) && m.nodes.contains(q[j]));
        }
        assert(m.nodes.index_of(p[k]) < m.nodes.index_of(q[k]));
    }
}

/// In the context of one sequence every step of a path is a transition of the
/// sequence: there is no way back but the ones that were measured.
pub proof fn learned_paths_follow_the_sequence(
    tokens: Seq<TokenId>,
    p: Seq<TokenId>,
    start: TokenId,
    end: TokenId,
    k: int,
)
    requires
        MatrixModel::empty().learn(tokens).is_path(p, start, end),
        0 <= k < p.len() - 1,
    ensures
        exists|j: int|
            0 <= j < tokens.len() - 1 && #[trigger] tokens[j] == p[k] && tokens[j + 1] == p[k + 1],
{
    let m = MatrixModel::empty();
    paths_are_chains_of_measured_transitions(m.learn(tokens), p, start, end);
    learning_measures_the_transitions_alone(m, tokens, p[k], p[k + 1]);
    nothing_is_measured_at_first(p[k], p[k + 1]);
    assert((m.learn(tokens).weight)(p[k], p[k + 1]) > 0);
}

// ── The prior ──────────────────────────────────────────────────────────────

/// The evidence towards one token is the weight of that transition, and the
/// evidence towards two lists is the sum of the evidence towards each.
pub proof fn evidence_adds_up(
    m: MatrixModel,
    t: TokenId,
    u: TokenId,
    a: Seq<TokenId>,
    b: Seq<TokenId>,
)
    ensures
        m.evidence(t, Seq::empty()) == 0,
        m.evidence(t, seq![u]) == (m.weight)(t, u),
        m.evidence(t, a + b) == m.evidence(t, a) + m.evidence(t, b),
    decreases b.len(),
{
    let one = seq![u];
    assert(one.drop_last() =~= Seq::empty());
    assert(m.evidence(t, one) == m.evidence(t, one.drop_last()) + (m.weight)(t, one.last()));
    if b.len() == 0 {
        assert(a + b =~= a);
    } else {
        evidence_adds_up(m, t, u, a, b.drop_last());
        assert((a + b).drop_last() =~= a + b.drop_last());
        assert((a + b).last() == b.last());
    }
}

proof fn lemma_evidence_elsewhere(
    m: MatrixModel,
    n: MatrixModel,
    t: TokenId,
    ts: Seq<TokenId>,
)
    requires
        forall|k: int| 0 <= k < ts.len() ==> (m.weight)(t, #[trigger] ts[k]) == (n.weight)(t, ts[k]),
    ensures
        m.evidence(t, ts) == n.evidence(t, ts),
    decreases ts.len(),
{
    if ts.len() > 0 {
        let init = ts.drop_last();
        assert forall|k: int| 0 <= k < init.len() implies (m.weight)(t, #[trigger] init[k]) == (
        n.weight)(t, init[k]) by {
            assert(init[k] == ts[k]);
        }
        lemma_evidence_elsewhere(m, n, t, init);
        assert((m.weight)(t, ts[ts.len() - 1]) == (n.weight)(t, ts[ts.len() - 1]));
    }
}

/// The bias of a node is the sum of its whole row: it grows by exactly what
/// one cell of the row grows, whichever node the cell leads to, and not with
/// the row of another node.
pub proof fn a_bias_grows_with_every_cell_of_its_row(
    m: MatrixModel,
    t: TokenId,
    u: TokenId,
    w: int,
    x: TokenId,
)
    requires
        m.nodes.no_duplicates(),
        m.nodes.contains(t),
        m.nodes.contains(u),
    ensures
        w >= (m.weight)(t, u) ==> m.observe(t, u, w).outgoing(t) == m.outgoing(t) + w - (m.weight)(
            t,
            u,
        ),
        w <= (m.weight)(t, u) ==> m.observe(t, u, w).outgoing(t) == m.outgoing(t),
        x != t ==> m.observe(t, u, w).outgoing(x) == m.outgoing(x),
{
    let o = m.observe(t, u, w);
    let i = m.nodes.index_of(u);
    let left = m.nodes.take(i);
    let right = m.nodes.skip(i + 1);
    let one = seq![u];
    assert(o.nodes == m.nodes);
    assert(m.nodes =~= left + one + right);
    assert forall|k: int| 0 <= k < left.len() implies left[k] != u by {
        assert(left[k] == m.nodes[k]);
    }
    assert forall|k: int| 0 <= k < right.len() implies right[k] != u by {
        assert(right[k] == m.nodes[k + i + 1]);
    }
    lemma_evidence_elsewhere(m, o, t, left);
    lemma_evidence_elsewhere(m, o, t, right);
    evidence_adds_up(m, t, u, left + one, right);
    evidence_adds_up(m, t, u, left, one);
    evidence_adds_up(o, t, u, left + one, right);
    evidence_adds_up(o, t, u, left, one);
    if x != t {
        lemma_evidence_elsewhere(m, o, x, m.nodes);
    }
}

/// The bias of a node is no less than any cell of its row, and nothing where
/// the row is empty.
pub proof fn a_bias_bounds_its_row(m: MatrixModel, t: TokenId, u: TokenId)
    requires
        m.valid(),
    ensures
        m.nodes.contains(u) ==> m.outgoing(t) >= (m.weight)(t, u),
        (forall|v: TokenId| #[trigger] (m.weight)(t, v) == 0) ==> m.outgoing(t) == 0,
{
    lemma_evidence_bounds(m, t, u, m.nodes);
}

proof fn lemma_evidence_bounds(m: MatrixModel, t: TokenId, u: TokenId, ts: Seq<TokenId>)
    requires
        m.valid(),
    ensures
        m.evidence(t, ts) >= 0,
        ts.contains(u) ==> m.evidence(t, ts) >= (m.weight)(t, u),
        (forall|v: TokenId| #[trigger] (m.weight)(t, v) == 0) ==> m.evidence(t, ts) == 0,
    decreases ts.len(),
{
    if ts.len() > 0 {
        let init = ts.drop_last();
        lemma_evidence_bounds(m, t, u, init);
        assert((m.weight)(t, ts.last()) >= 0);
        if ts.contains(u) {
            let i = ts.index_of(u);
            if i < init.len() {
                assert(init[i] == u);
            }
        }
    }
}

} // verus!
