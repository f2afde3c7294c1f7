//! The laws of the context matrix: a grow-only lattice of measurements.

use crate::context;
use crate::context::MatrixModel;
use crate::TokenId;
use vstd::prelude::*;

verus! {

/// Merging a context with itself changes nothing.
pub proof fn merge_is_idempotent(m: MatrixModel)
    requires
        m.valid(),
    ensures
        m.merge(m) == m,
{
    lemma_add_present_nodes(m.nodes, m.nodes);
    assert(m.merge(m) =~= m);
}

/// Merging is commutative, up to the order in which nodes were first seen.
pub proof fn merge_is_commutative(a: MatrixModel, b: MatrixModel)
    ensures
        a.merge(b).same(b.merge(a)),
{
    context::lemma_add_nodes(a.nodes, b.nodes);
    context::lemma_add_nodes(b.nodes, a.nodes);
    assert(a.merge(b).nodes.to_set() =~= b.merge(a).nodes.to_set());
}

/// Merging is associative, up to the order in which nodes were first seen.
pub proof fn merge_is_associative(a: MatrixModel, b: MatrixModel, c: MatrixModel)
    ensures
        a.merge(b).merge(c).same(a.merge(b.merge(c))),
{
    context::lemma_add_nodes(a.nodes, b.nodes);
    context::lemma_add_nodes(b.nodes, c.nodes);
    context::lemma_add_nodes(a.merge(b).nodes, c.nodes);
    context::lemma_add_nodes(a.nodes, b.merge(c).nodes);
    assert(a.merge(b).merge(c).nodes.to_set() =~= a.merge(b.merge(c)).nodes.to_set());
}

/// Contexts that agree up to node order stay so when merged with others
/// that agree up to node order.
pub proof fn merge_respects_same(a: MatrixModel, b: MatrixModel, c: MatrixModel, d: MatrixModel)
    requires
        a.same(b),
        c.same(d),
    ensures
        a.merge(c).same(b.merge(d)),
{
    context::lemma_add_nodes(a.nodes, c.nodes);
    context::lemma_add_nodes(b.nodes, d.nodes);
}

/// Merging never regresses: every node stays and no weight shrinks.
pub proof fn merge_never_regresses(a: MatrixModel, b: MatrixModel)
    ensures
        forall|t: TokenId|
            #[trigger] a.merge(b).grounded(t) <==> a.grounded(t) || b.grounded(t),
        forall|x: TokenId, y: TokenId| #[trigger]
            (a.merge(b).weight)(x, y) >= (a.weight)(x, y),
        forall|x: TokenId, y: TokenId| #[trigger]
            (a.merge(b).weight)(x, y) >= (b.weight)(x, y),
{
    context::lemma_add_nodes(a.nodes, b.nodes);
    assert forall|t: TokenId| #[trigger]
        a.merge(b).grounded(t) <==> a.grounded(t) || b.grounded(t) by {
        assert(a.merge(b).nodes.to_set().contains(t) == a.nodes.to_set().union(
            b.nodes.to_set(),
        ).contains(t));
    }
}

/// The merge is the least context above both sides.
pub proof fn merge_is_least(a: MatrixModel, b: MatrixModel, c: MatrixModel)
    requires
        forall|t: TokenId| a.grounded(t) || b.grounded(t) ==> #[trigger] c.grounded(t),
        forall|x: TokenId, y: TokenId|
            (a.weight)(x, y) <= #[trigger] (c.weight)(x, y) && (b.weight)(x, y) <= (c.weight)(x, y),
    ensures
        forall|t: TokenId| #[trigger] a.merge(b).grounded(t) ==> c.grounded(t),
        forall|x: TokenId, y: TokenId| #[trigger]
            (a.merge(b).weight)(x, y) <= (c.weight)(x, y),
{
    merge_never_regresses(a, b);
    assert forall|x: TokenId, y: TokenId| #[trigger]
        (a.merge(b).weight)(x, y) <= (c.weight)(x, y) by {
        assert((a.weight)(x, y) <= (c.weight)(x, y));
    }
}

/// Merging valid contexts gives a valid context.
pub proof fn merge_keeps_validity(a: MatrixModel, b: MatrixModel)
    requires
        a.valid(),
        b.valid(),
    ensures
        a.merge(b).valid(),
{
    merge_never_regresses(a, b);
    context::lemma_add_nodes(a.nodes, b.nodes);
}

/// Nodes are append-only, and a cell never regresses under observation.
pub proof fn observe_is_monotone(m: MatrixModel, a: TokenId, b: TokenId, w: int)
    ensures
        m.nodes.is_prefix_of(m.observe(a, b, w).nodes),
        m.observe(a, b, w).grounded(a),
        m.observe(a, b, w).grounded(b),
        (m.observe(a, b, w).weight)(a, b) >= w,
        forall|x: TokenId, y: TokenId| #[trigger]
            (m.observe(a, b, w).weight)(x, y) >= (m.weight)(x, y),
{
    let one = context::add_node(m.nodes, a);
    let two = context::add_node(one, b);
    if !m.nodes.contains(a) {
        assert(one[m.nodes.len() as int] == a);
    }
    let i = one.index_of(a);
    assert(two[i] == a);
    if !one.contains(b) {
        assert(two[one.len() as int] == b);
    }
}

/// Observing keeps a context valid.
pub proof fn observe_keeps_validity(m: MatrixModel, a: TokenId, b: TokenId, w: int)
    requires
        m.valid(),
        w <= i64::MAX,
    ensures
        m.observe(a, b, w).valid(),
{
    observe_is_monotone(m, a, b, w);
    let o = m.observe(a, b, w);
    assert forall|x: TokenId, y: TokenId| #[trigger]
        (o.weight)(x, y) > 0 implies o.grounded(x) && o.grounded(y) by {
        if (m.weight)(x, y) > 0 {
            let i = m.nodes.index_of(x);
            let j = m.nodes.index_of(y);
            assert(o.nodes[i] == x && o.nodes[j] == y);
        }
    }
    assert forall|x: TokenId, y: TokenId| 0 <= #[trigger] (o.weight)(x, y) <= i64::MAX by {
        assert(0 <= (m.weight)(x, y) <= i64::MAX);
    }
}

/// Repeating an observation changes nothing.
pub proof fn observe_is_idempotent(m: MatrixModel, a: TokenId, b: TokenId, w: int)
    ensures
        m.observe(a, b, w).observe(a, b, w) == m.observe(a, b, w),
{
    observe_is_monotone(m, a, b, w);
    assert(m.observe(a, b, w).observe(a, b, w) =~= m.observe(a, b, w));
}

/// The order of two observations is immaterial, up to node order.
pub proof fn observations_commute(
    m: MatrixModel,
    a: TokenId,
    b: TokenId,
    w: int,
    c: TokenId,
    d: TokenId,
    v: int,
)
    ensures
        m.observe(a, b, w).observe(c, d, v).same(m.observe(c, d, v).observe(a, b, w)),
{
    lemma_observe_nodes(m, a, b, w);
    lemma_observe_nodes(m, c, d, v);
    lemma_observe_nodes(m.observe(a, b, w), c, d, v);
    lemma_observe_nodes(m.observe(c, d, v), a, b, w);
    assert(m.observe(a, b, w).observe(c, d, v).nodes.to_set() =~= m.observe(c, d, v).observe(
        a,
        b,
        w,
    ).nodes.to_set());
}

/// Observing is joining with the context of that one observation.
pub proof fn observe_is_a_join(m: MatrixModel, a: TokenId, b: TokenId, w: int)
    requires
        m.valid(),
    ensures
        m.observe(a, b, w).same(m.merge(MatrixModel::empty().observe(a, b, w))),
{
    let one = MatrixModel::empty().observe(a, b, w);
    lemma_observe_nodes(m, a, b, w);
    lemma_observe_nodes(MatrixModel::empty(), a, b, w);
    context::lemma_add_nodes(m.nodes, one.nodes);
    assert(m.observe(a, b, w).nodes.to_set() =~= m.merge(one).nodes.to_set());
    assert forall|x: TokenId, y: TokenId| #[trigger]
        (m.observe(a, b, w).weight)(x, y) == (m.merge(one).weight)(x, y) by {
        assert(0 <= (m.weight)(x, y));
    }
}

/// The edge list holds exactly the transitions with a positive weight.
pub proof fn edges_are_the_measured_transitions(m: MatrixModel, a: TokenId, b: TokenId)
    requires
        m.valid(),
    ensures
        m.edge_list().contains((a, b)) <==> m.edge(a, b),
{
    let measured = |p: (TokenId, TokenId)| m.edge(p.0, p.1);
    if m.edge_list().contains((a, b)) {
        let i = m.edge_list().index_of((a, b));
        m.pairs().lemma_filter_pred(measured, i);
    }
    if m.edge(a, b) {
        let n = m.nodes.len() as int;
        let i = m.nodes.index_of(a);
        let j = m.nodes.index_of(b);
        assert(m.grounded(a) && m.grounded(b)) by {
            assert((m.weight)(a, b) > 0);
        }
        crate::route::lemma_cell_bound(i, j, n);
        context::lemma_row_column(i, j, n);
        assert(m.pairs()[i * n + j] == (a, b));
        m.pairs().lemma_filter_contains(measured, i * n + j);
    }
}

/// A path stays a path when more is learned.
pub proof fn paths_survive_merging(
    m: MatrixModel,
    other: MatrixModel,
    p: Seq<TokenId>,
    start: TokenId,
    end: TokenId,
)
    requires
        m.is_path(p, start, end),
    ensures
        m.merge(other).is_path(p, start, end),
        other.merge(m).is_path(p, start, end),
{
    merge_never_regresses(m, other);
    merge_never_regresses(other, m);
    assert forall|k: int| 0 <= k < p.len() - 1 implies m.merge(other).edge(#[trigger] p[k], p[k + 1])
        && other.merge(m).edge(p[k], p[k + 1]) by {
        assert(m.edge(p[k], p[k + 1]));
    }
    assert forall|k: int| 0 <= k < p.len() implies m.merge(other).grounded(#[trigger] p[k])
        && other.merge(m).grounded(p[k]) by {
        assert(m.grounded(p[k]));
    }
}

/// A token sequence is a path through the context learned from it.
pub proof fn sequence_is_a_path(m: MatrixModel, tokens: Seq<TokenId>)
    requires
        tokens.len() >= 2,
        m.nodes.to_set() == tokens.to_set(),
        forall|a: TokenId, b: TokenId| #[trigger]
            (m.weight)(a, b) == context::bigram_count(tokens, a, b),
    ensures
        m.is_path(tokens, tokens[0], tokens.last()),
{
    assert forall|k: int| 0 <= k < tokens.len() implies m.grounded(#[trigger] tokens[k]) by {
        assert(tokens.to_set().contains(tokens[k]));
        assert(m.nodes.to_set().contains(tokens[k]));
    }
    assert forall|k: int| 0 <= k < tokens.len() - 1 implies m.edge(#[trigger] tokens[k], tokens[k + 1]) by {
        lemma_bigram_counted(tokens, k);
    }
}

/// The weights learned from a sequence are positive exactly on its bigrams.
pub proof fn lemma_bigram_counted(tokens: Seq<TokenId>, k: int)
    requires
        0 <= k < tokens.len() - 1,
    ensures
        context::bigram_count(tokens, tokens[k], tokens[k + 1]) > 0,
    decreases tokens.len(),
{
    if k < tokens.len() - 2 {
        lemma_bigram_counted(tokens.drop_last(), k);
    }
}

proof fn lemma_add_present_nodes(nodes: Seq<TokenId>, ts: Seq<TokenId>)
    requires
        forall|t: TokenId| ts.contains(t) ==> nodes.contains(t),
    ensures
        context::add_nodes(nodes, ts) == nodes,
    decreases ts.len(),
{
    if ts.len() > 0 {
        let rest = ts.drop_last();
        assert forall|t: TokenId| rest.contains(t) implies nodes.contains(t) by {
            let i = rest.index_of(t);
            assert(ts[i] == t);
        }
        lemma_add_present_nodes(nodes, rest);
        assert(ts.contains(ts.last()));
    }
}

proof fn lemma_observe_nodes(m: MatrixModel, a: TokenId, b: TokenId, w: int)
    ensures
        m.observe(a, b, w).nodes.to_set() == m.nodes.to_set().insert(a).insert(b),
{
    context::lemma_add_node(m.nodes, a);
    context::lemma_add_node(context::add_node(m.nodes, a), b);
}

} // verus!
