//! The context matrix: a grow-only relation matrix over grounded tokens.
//!
//! `M[a][b]` is the weight of the measured transition `a -> b`.
//!
//! - **nodes**: grounded tokens, append-only;
//! - **sparsity pattern**: the measured transition graph;
//! - **cells**: grow-only registers, `cell = max(cell, w)`.
//!
//! `merge` is the pointwise maximum, so it is idempotent, commutative and
//! associative: a monotonic join that never regresses.

use crate::order;
use crate::route;
use crate::TokenId;
use std::collections::HashMap;
use vstd::prelude::*;

verus! {

broadcast use vstd::std_specs::hash::group_hash_axioms;

/// `a` if it is the larger of the two, `b` otherwise.
pub open spec fn larger(a: int, b: int) -> int {
    if a >= b {
        a
    } else {
        b
    }
}

/// `nodes` with `t` appended unless it is there already.
pub open spec fn add_node(nodes: Seq<TokenId>, t: TokenId) -> Seq<TokenId> {
    if nodes.contains(t) {
        nodes
    } else {
        nodes.push(t)
    }
}

/// `nodes` with each token of `ts` added in turn.
pub open spec fn add_nodes(nodes: Seq<TokenId>, ts: Seq<TokenId>) -> Seq<TokenId>
    decreases ts.len(),
{
    if ts.len() == 0 {
        nodes
    } else {
        add_node(add_nodes(nodes, ts.drop_last()), ts.last())
    }
}

/// A square matrix over `n` nodes can be addressed.
pub open spec fn square_fits(n: nat) -> bool {
    n * n <= usize::MAX
}

/// Whether a square matrix over `n` nodes can be addressed.
pub fn can_address(n: usize) -> (r: bool)
    ensures
        r == square_fits(n as nat),
{
    n.checked_mul(n).is_some()
}

/// How often `b` directly follows `a` in `tokens`.
pub open spec fn bigram_count(tokens: Seq<TokenId>, a: TokenId, b: TokenId) -> nat
    decreases tokens.len(),
{
    if tokens.len() < 2 {
        0
    } else {
        bigram_count(tokens.drop_last(), a, b) + if tokens[tokens.len() - 2] == a && tokens.last()
            == b {
            1nat
        } else {
            0nat
        }
    }
}

/// What a context matrix stands for: its nodes in order of first sight, and
/// the weight of every transition (zero where nothing was measured).
#[verifier::ext_equal]
pub struct MatrixModel {
    pub nodes: Seq<TokenId>,
    pub weight: spec_fn(TokenId, TokenId) -> int,
}

impl MatrixModel {
    /// `t` is a node.
    pub open spec fn grounded(self, t: TokenId) -> bool {
        self.nodes.contains(t)
    }

    /// The transition `a -> b` was measured.
    pub open spec fn edge(self, a: TokenId, b: TokenId) -> bool {
        (self.weight)(a, b) > 0
    }

    /// Nodes are distinct; weights are registers that are never negative and
    /// positive only between nodes.
    pub open spec fn valid(self) -> bool {
        &&& self.nodes.no_duplicates()
        &&& forall|a: TokenId, b: TokenId| 0 <= #[trigger] (self.weight)(a, b) <= i64::MAX
        &&& forall|a: TokenId, b: TokenId|
            #[trigger] (self.weight)(a, b) > 0 ==> self.grounded(a) && self.grounded(b)
    }

    /// The context that nothing was observed in.
    pub open spec fn empty() -> MatrixModel {
        MatrixModel { nodes: Seq::empty(), weight: |a: TokenId, b: TokenId| 0int }
    }

    /// The context after the edge `a -> b` was measured with evidence `w`.
    pub open spec fn observe(self, a: TokenId, b: TokenId, w: int) -> MatrixModel {
        MatrixModel {
            nodes: add_node(add_node(self.nodes, a), b),
            weight: |x: TokenId, y: TokenId|
                if x == a && y == b {
                    larger((self.weight)(x, y), w)
                } else {
                    (self.weight)(x, y)
                },
        }
    }

    /// The context after every transition of `tokens` was measured once.
    pub open spec fn learn(self, tokens: Seq<TokenId>) -> MatrixModel
        decreases tokens.len(),
    {
        if tokens.len() < 2 {
            self
        } else {
            self.learn(tokens.drop_last()).observe(tokens[tokens.len() - 2], tokens.last(), 1)
        }
    }

    /// The context after each of the sequences was learned.
    pub open spec fn learn_all(self, seqs: Seq<Seq<TokenId>>) -> MatrixModel
        decreases seqs.len(),
    {
        if seqs.len() == 0 {
            self
        } else {
            self.learn_all(seqs.drop_last()).learn(seqs.last())
        }
    }

    /// The join of two contexts: all nodes, and the larger of the weights.
    pub open spec fn merge(self, other: MatrixModel) -> MatrixModel {
        MatrixModel {
            nodes: add_nodes(self.nodes, other.nodes),
            weight: |x: TokenId, y: TokenId| larger((self.weight)(x, y), (other.weight)(x, y)),
        }
    }

    /// All pairs of nodes, row by row.
    pub open spec fn pairs(self) -> Seq<(TokenId, TokenId)> {
        let n = self.nodes.len();
        Seq::new(n * n, |k: int| (self.nodes[k / n as int], self.nodes[k % n as int]))
    }

    /// The measured transition graph, row by row.
    pub open spec fn edge_list(self) -> Seq<(TokenId, TokenId)> {
        self.pairs().filter(|p: (TokenId, TokenId)| self.edge(p.0, p.1))
    }

    /// `p` leads from `start` to `end` along measured transitions.
    pub open spec fn is_path(self, p: Seq<TokenId>, start: TokenId, end: TokenId) -> bool {
        &&& p.len() > 0
        &&& p[0] == start
        &&& p.last() == end
        &&& forall|k: int| 0 <= k < p.len() ==> self.grounded(#[trigger] p[k])
        &&& forall|k: int| 0 <= k < p.len() - 1 ==> self.edge(#[trigger] p[k], p[k + 1])
    }

    /// The node indices along `p`.
    pub open spec fn ranks(self, p: Seq<TokenId>) -> Seq<int> {
        p.map_values(|t: TokenId| self.nodes.index_of(t))
    }

    /// `p` is a shortest path from `start` to `end` and, among the shortest,
    /// the one whose nodes were seen first.
    pub open spec fn is_first_path(self, p: Seq<TokenId>, start: TokenId, end: TokenId) -> bool {
        &&& self.is_path(p, start, end)
        &&& forall|q: Seq<TokenId>| #[trigger]
            self.is_path(q, start, end) ==> route::no_later(self.ranks(p), self.ranks(q))
    }

    /// The evidence from `t` to the tokens of `ts`, summed.
    pub open spec fn evidence(self, t: TokenId, ts: Seq<TokenId>) -> int
        decreases ts.len(),
    {
        if ts.len() == 0 {
            0
        } else {
            self.evidence(t, ts.drop_last()) + (self.weight)(t, ts.last())
        }
    }

    /// The total outgoing evidence of `t`.
    pub open spec fn outgoing(self, t: TokenId) -> int {
        self.evidence(t, self.nodes)
    }

    /// Equal up to the order in which nodes were first seen.
    pub open spec fn same(self, other: MatrixModel) -> bool {
        &&& self.nodes.to_set() == other.nodes.to_set()
        &&& forall|a: TokenId, b: TokenId| #[trigger]
            (self.weight)(a, b) == (other.weight)(a, b)
    }
}

/// The weights that `n * n` row-major cells assign to pairs of nodes.
spec fn weights(nodes: Seq<TokenId>, cells: Seq<i64>) -> spec_fn(TokenId, TokenId) -> int {
    |a: TokenId, b: TokenId|
        if nodes.contains(a) && nodes.contains(b) {
            cells[nodes.index_of(a) * nodes.len() + nodes.index_of(b)] as int
        } else {
            0
        }
}

/// The context: a grow-only matrix of measured transitions.
#[derive(Debug, PartialEq, Eq)]
pub struct ContextMatrix {
    nodes: Vec<TokenId>,
    index: HashMap<TokenId, usize>,
    /// `n * n` row-major; `cells[i * n + j]` = weight of `nodes[i] -> nodes[j]`.
    cells: Vec<i64>,
}

impl View for ContextMatrix {
    type V = MatrixModel;

    closed spec fn view(&self) -> MatrixModel {
        MatrixModel { nodes: self.nodes@, weight: weights(self.nodes@, self.cells@) }
    }
}

impl ContextMatrix {
    /// The index finds every node, and the cells form a square of registers.
    pub closed spec fn wf(&self) -> bool {
        &&& self.nodes@.no_duplicates()
        &&& self.cells@.len() == self.nodes@.len() * self.nodes@.len()
        &&& forall|t: TokenId| #[trigger]
            self.index@.contains_key(t) <==> self.nodes@.contains(t)
        &&& forall|i: int|
            0 <= i < self.nodes@.len() ==> self.index@[#[trigger] self.nodes@[i]] == i
        &&& forall|k: int| 0 <= k < self.cells@.len() ==> 0 <= #[trigger] self.cells@[k]
    }

    /// A well-formed matrix stands for a valid context.
    pub proof fn lemma_valid(&self)
        requires
            self.wf(),
        ensures
            self@.valid(),
    {
        assert forall|a: TokenId, b: TokenId| 0 <= #[trigger] (self@.weight)(a, b)
            <= i64::MAX by {
            self.lemma_weight(a, b);
        }
    }

    /// Where the weight of a pair of nodes is kept.
    proof fn lemma_weight(&self, a: TokenId, b: TokenId)
        requires
            self.wf(),
        ensures
            self@.grounded(a) && self@.grounded(b) ==> {
                let n = self.nodes@.len();
                let i = self.nodes@.index_of(a);
                let j = self.nodes@.index_of(b);
                &&& 0 <= i < n && self.nodes@[i] == a && self.index@[a] == i
                &&& 0 <= j < n && self.nodes@[j] == b && self.index@[b] == j
                &&& 0 <= i * n <= i * n + j < self.cells@.len()
                &&& (self@.weight)(a, b) == self.cells@[i * n + j]
                &&& 0 <= (self@.weight)(a, b)
            },
            !(self@.grounded(a) && self@.grounded(b)) ==> (self@.weight)(a, b) == 0,
    {
        if self@.grounded(a) && self@.grounded(b) {
            let i = self.nodes@.index_of(a);
            let j = self.nodes@.index_of(b);
            assert(self.nodes@[i] == a);
            assert(self.nodes@[j] == b);
            route::lemma_cell_bound(i, j, self.nodes@.len() as int);
        }
    }

    /// The empty context.
    pub fn new() -> (m: Self)
        ensures
            m.wf(),
            m@ == MatrixModel::empty(),
    {
        let m = Self { nodes: Vec::new(), index: HashMap::new(), cells: Vec::new() };
        assert(m@ =~= MatrixModel::empty());
        m
    }

    /// The grounded token set, in insertion order.
    pub fn nodes(&self) -> (r: &[TokenId])
        ensures
            r@ == self@.nodes,
    {
        self.nodes.as_slice()
    }

    /// Number of grounded nodes (the context is `len` by `len`).
    pub fn len(&self) -> (r: usize)
        ensures
            r == self@.nodes.len(),
    {
        self.nodes.len()
    }

    pub fn is_empty(&self) -> (r: bool)
        ensures
            r == (self@.nodes.len() == 0),
    {
        self.nodes.len() == 0
    }

    /// Is `t` grounded in this context?
    pub fn grounded(&self, t: TokenId) -> (r: bool)
        requires
            self.wf(),
        ensures
            r == self@.grounded(t),
    {
        self.index.contains_key(&t)
    }

    /// The weight of the measured transition `a -> b`, or `None` if either
    /// node is absent from this context.
    pub fn cell(&self, a: TokenId, b: TokenId) -> (r: Option<i64>)
        requires
            self.wf(),
        ensures
            r is Some <==> self@.grounded(a) && self@.grounded(b),
            r matches Some(w) ==> w == (self@.weight)(a, b),
            r is None ==> (self@.weight)(a, b) == 0,
    {
        proof {
            self.lemma_weight(a, b);
        }
        match self.index.get(&a) {
            None => None,
            Some(ia) => match self.index.get(&b) {
                None => None,
                Some(ib) => {
                    let total = self.cells.len();
                    Some(self.cells[*ia * self.nodes.len() + *ib])
                },
            },
        }
    }

    /// Ensure `t` is a node, returning its dense index; grows the matrix so
    /// existing `(row, col) -> weight` associations stay in place.
    fn ensure(&mut self, t: TokenId) -> (i: usize)
        requires
            old(self).wf(),
            square_fits(add_node(old(self)@.nodes, t).len()),
        ensures
            final(self).wf(),
            final(self)@.nodes == add_node(old(self)@.nodes, t),
            final(self)@.weight == old(self)@.weight,
            i < final(self)@.nodes.len(),
            final(self)@.nodes[i as int] == t,
    {
        if let Some(i) = self.index.get(&t) {
            proof {
                let k = self.nodes@.index_of(t);
                assert(self.nodes@[k] == t);
            }
            return *i;
        }
        let old_n = self.nodes.len();
        assert(old_n + 1 <= (old_n + 1) * (old_n + 1)) by (nonlinear_arith)
            requires
                0 <= old_n,
        ;
        let new_n = old_n + 1;
        let mut new_cells: Vec<i64> = Vec::new();
        for k in 0..new_n * new_n
            invariant
                old_n == self.nodes@.len(),
                new_n == old_n + 1,
                self.cells@.len() == old_n * old_n,
                forall|k: int| 0 <= k < self.cells@.len() ==> 0 <= #[trigger] self.cells@[k],
                new_cells@.len() == k,
                forall|m: int|
                    0 <= m < k ==> #[trigger] new_cells@[m] == grown_cell(self.cells@, old_n as int, m),
        {
            let i = k / new_n;
            let j = k % new_n;
            let total = self.cells.len();
            if i < old_n && j < old_n {
                proof {
                    route::lemma_cell_bound(i as int, j as int, old_n as int);
                }
                new_cells.push(self.cells[i * old_n + j]);
            } else {
                new_cells.push(0);
            }
        }
        self.nodes.push(t);
        self.index.insert(t, old_n);
        self.cells = new_cells;
        proof {
            let nodes0 = old(self).nodes@;
            let nodes = self.nodes@;
            assert(nodes[old_n as int] == t);
            assert(nodes.contains(t));
            assert forall|x: TokenId| nodes0.contains(x) implies nodes.contains(x) && nodes.index_of(x)
                == nodes0.index_of(x) by {
                let k = nodes0.index_of(x);
                assert(nodes[k] == x);
                assert(nodes[nodes.index_of(x)] == x);
            }
            assert forall|x: TokenId| nodes.contains(x) && x != t implies nodes0.contains(x) by {
                let k = nodes.index_of(x);
                assert(nodes0[k] == x);
            }
            assert(self.wf()) by {
                assert forall|i: int| 0 <= i < nodes.len() implies self.index@[#[trigger] nodes[i]]
                    == i by {
                    if i < old_n {
                        assert(nodes0[i] == nodes[i]);
                        assert(nodes0.contains(nodes0[i]));
                    }
                }
                assert forall|k: int| 0 <= k < self.cells@.len() implies 0
                    <= #[trigger] self.cells@[k] by {
                    lemma_grown_cell_nonnegative(old(self).cells@, old_n as int, k);
                }
            }
            assert forall|a: TokenId, b: TokenId| #[trigger]
                (self@.weight)(a, b) == (old(self)@.weight)(a, b) by {
                self.lemma_weight(a, b);
                old(self).lemma_weight(a, b);
                if nodes.contains(a) && nodes.contains(b) {
                    let i = nodes.index_of(a);
                    let j = nodes.index_of(b);
                    assert(nodes[i] == a && nodes[j] == b);
                    lemma_grown_cell(old(self).cells@, old_n as int, i, j);
                }
            }
            assert(self@.weight =~= old(self)@.weight);
        }
        old_n
    }

    /// Append-only: record a measured edge `a -> b` with evidence `w`.
    ///
    /// Nodes are added on first sight and never removed; the cell is a
    /// grow-only register.
    pub fn observe(&mut self, a: TokenId, b: TokenId, w: i64)
        requires
            old(self).wf(),
            square_fits(add_node(add_node(old(self)@.nodes, a), b).len()),
        ensures
            final(self).wf(),
            final(self)@ == old(self)@.observe(a, b, w as int),
    {
        proof {
            lemma_smaller_square(
                add_node(self@.nodes, a).len(),
                add_node(add_node(self@.nodes, a), b).len(),
            );
        }
        let ia = self.ensure(a);
        let ib = self.ensure(b);
        let n = self.nodes.len();
        let total = self.cells.len();
        let ghost before = *self;
        proof {
            route::lemma_cell_bound(ia as int, ib as int, n as int);
        }
        let k = ia * n + ib;
        if self.cells[k] < w {
            self.cells.set(k, w);
        }
        proof {
            assert(self.nodes@ == before.nodes@);
            assert(self.wf());
            assert(before.nodes@[ia as int] == a && before.nodes@[ib as int] == b);
            assert(before.nodes@.index_of(a) == ia && before.nodes@.index_of(b) == ib);
            assert forall|x: TokenId, y: TokenId| #[trigger]
                (self@.weight)(x, y) == (old(self)@.observe(a, b, w as int).weight)(x, y) by {
                self.lemma_weight(x, y);
                before.lemma_weight(x, y);
                before.lemma_weight(a, b);
                if self@.grounded(x) && self@.grounded(y) {
                    let i = self.nodes@.index_of(x);
                    let j = self.nodes@.index_of(y);
                    if i * n + j == k {
                        lemma_cell_injective(i, j, ia as int, ib as int, n as int);
                    }
                }
            }
            assert(self@ =~= old(self)@.observe(a, b, w as int));
        }
    }
}

impl ContextMatrix {
    /// Learn one sequence: every transition in it is measured with evidence 1.
    pub fn learn(&mut self, tokens: &[TokenId])
        requires
            old(self).wf(),
            square_fits(old(self)@.learn(tokens@).nodes.len()),
        ensures
            final(self).wf(),
            final(self)@ == old(self)@.learn(tokens@),
    {
        let ghost m0 = self@;
        let n = tokens.len();
        let mut i: usize = 1;
        while i < n
            invariant
                1 <= i,
                n == tokens@.len(),
                i <= n || n == 0,
                self.wf(),
                n > 0 ==> self@ == m0.learn(tokens@.take(i as int)),
                n == 0 ==> self@ == m0,
                square_fits(m0.learn(tokens@).nodes.len()),
            decreases n - i,
        {
            proof {
                let t = tokens@.take(i + 1);
                assert(t.drop_last() =~= tokens@.take(i as int));
                lemma_learn_prefix(m0, tokens@, i + 1);
                lemma_smaller_square(m0.learn(t).nodes.len(), m0.learn(tokens@).nodes.len());
            }
            self.observe(tokens[i - 1], tokens[i], 1);
            i = i + 1;
        }
        if n > 0 {
            assert(tokens@.take(n as int) =~= tokens@);
        }
    }
}

/// Learning the start of a sequence takes no more room than learning all of
/// it.
pub proof fn lemma_learn_prefix(m: MatrixModel, tokens: Seq<TokenId>, k: int)
    requires
        0 <= k <= tokens.len(),
    ensures
        m.learn(tokens.take(k)).nodes.len() <= m.learn(tokens).nodes.len(),
        m.nodes.len() <= m.learn(tokens).nodes.len(),
    decreases tokens.len(),
{
    if tokens.len() >= 2 {
        let init = tokens.drop_last();
        let rest = m.learn(init);
        lemma_add_node(rest.nodes, tokens[tokens.len() - 2]);
        lemma_add_node(add_node(rest.nodes, tokens[tokens.len() - 2]), tokens.last());
        lemma_learn_prefix(m, init, 0);
    }
    if k == tokens.len() {
        assert(tokens.take(k) =~= tokens);
    } else {
        lemma_learn_prefix(m, tokens.drop_last(), k);
        assert(tokens.drop_last().take(k) =~= tokens.take(k));
    }
}

/// Learning the first few sequences takes no more room than learning all of
/// them.
pub proof fn lemma_learn_all_prefix(m: MatrixModel, seqs: Seq<Seq<TokenId>>, k: int)
    requires
        0 <= k <= seqs.len(),
    ensures
        m.learn_all(seqs.take(k)).nodes.len() <= m.learn_all(seqs).nodes.len(),
    decreases seqs.len(),
{
    if k == seqs.len() {
        assert(seqs.take(k) =~= seqs);
    } else {
        let init = seqs.drop_last();
        lemma_learn_all_prefix(m, init, k);
        assert(init.take(k) =~= seqs.take(k));
        lemma_learn_prefix(m.learn_all(init), seqs.last(), 0);
    }
}

/// Adding a node keeps nodes distinct and adds to their set.
pub proof fn lemma_add_node(nodes: Seq<TokenId>, t: TokenId)
    ensures
        nodes.no_duplicates() ==> add_node(nodes, t).no_duplicates(),
        add_node(nodes, t).to_set() == nodes.to_set().insert(t),
        nodes.len() <= add_node(nodes, t).len(),
{
    nodes.lemma_push_to_set_commute(t);
    if nodes.contains(t) {
        assert(nodes.to_set() =~= nodes.to_set().insert(t));
    }
}

/// Adding nodes keeps nodes distinct, unites their sets, and never shrinks.
pub proof fn lemma_add_nodes(nodes: Seq<TokenId>, ts: Seq<TokenId>)
    ensures
        nodes.no_duplicates() ==> add_nodes(nodes, ts).no_duplicates(),
        add_nodes(nodes, ts).to_set() == nodes.to_set().union(ts.to_set()),
        nodes.len() <= add_nodes(nodes, ts).len(),
    decreases ts.len(),
{
    if ts.len() == 0 {
        assert(add_nodes(nodes, ts).to_set() =~= nodes.to_set().union(ts.to_set()));
    } else {
        let rest = ts.drop_last();
        lemma_add_nodes(nodes, rest);
        lemma_add_node(add_nodes(nodes, rest), ts.last());
        assert(ts =~= rest.push(ts.last()));
        rest.lemma_push_to_set_commute(ts.last());
        assert(add_nodes(nodes, ts).to_set() =~= nodes.to_set().union(ts.to_set()));
    }
}

/// Adding the first few nodes takes no more room than adding all of them.
proof fn lemma_add_nodes_prefix(nodes: Seq<TokenId>, ts: Seq<TokenId>, k: int)
    requires
        0 <= k <= ts.len(),
    ensures
        add_nodes(nodes, ts.take(k)).len() <= add_nodes(nodes, ts).len(),
    decreases ts.len(),
{
    if k == ts.len() {
        assert(ts.take(k) =~= ts);
    } else {
        lemma_add_nodes_prefix(nodes, ts.drop_last(), k);
        assert(ts.drop_last().take(k) =~= ts.take(k));
        lemma_add_node(add_nodes(nodes, ts.drop_last()), ts.last());
    }
}

proof fn lemma_row_column_bound(k: int, n: int)
    requires
        0 <= k < n * n,
        0 <= n,
    ensures
        0 < n,
        0 <= k / n < n,
        0 <= k % n < n,
        (k / n) * n + k % n == k,
{
    if n == 0 {
        assert(n * n == 0);
    }
    vstd::arithmetic::div_mod::lemma_multiply_divide_lt(k, n, n);
    vstd::arithmetic::div_mod::lemma_div_pos_is_pos(k, n);
    vstd::arithmetic::div_mod::lemma_fundamental_div_mod(k, n);
    vstd::arithmetic::mul::lemma_mul_is_commutative(n, k / n);
}

impl ContextMatrix {
    /// Cell `k` holds the weight of its pair of nodes.
    proof fn lemma_pair(&self, k: int)
        requires
            self.wf(),
            0 <= k < self.cells@.len(),
        ensures
            0 < self.nodes@.len(),
            0 <= k / (self.nodes@.len() as int) < self.nodes@.len(),
            0 <= k % (self.nodes@.len() as int) < self.nodes@.len(),
            self.cells@[k] == (self@.weight)(
                self.nodes@[k / self.nodes@.len() as int],
                self.nodes@[k % self.nodes@.len() as int],
            ),
    {
        let n = self.nodes@.len() as int;
        lemma_row_column_bound(k, n);
        let a = self.nodes@[k / n];
        let b = self.nodes@[k % n];
        self.lemma_weight(a, b);
        assert(self.nodes@.index_of(a) == k / n);
        assert(self.nodes@.index_of(b) == k % n);
    }

    /// The join of two contexts: union of the nodes, pointwise larger cells.
    pub fn merge(&self, other: &Self) -> (r: Self)
        requires
            self.wf(),
            other.wf(),
            square_fits(add_nodes(self@.nodes, other@.nodes).len()),
        ensures
            r.wf(),
            r@ == self@.merge(other@),
    {
        let mut out = self.clone();
        let m = other.nodes.len();
        assert(other.nodes@.take(0) =~= Seq::<TokenId>::empty());
        for i in 0..m
            invariant
                m == other.nodes@.len(),
                out.wf(),
                out@.nodes == add_nodes(self@.nodes, other.nodes@.take(i as int)),
                out@.weight == self@.weight,
                square_fits(add_nodes(self@.nodes, other.nodes@).len()),
        {
            proof {
                let t = other.nodes@.take(i + 1);
                assert(t.drop_last() =~= other.nodes@.take(i as int));
                lemma_add_nodes_prefix(self@.nodes, other.nodes@, i + 1);
                lemma_smaller_square(
                    add_nodes(self@.nodes, t).len(),
                    add_nodes(self@.nodes, other.nodes@).len(),
                );
            }
            out.ensure(other.nodes[i]);
        }
        assert(other.nodes@.take(m as int) =~= other.nodes@);
        let n = out.nodes.len();
        let ghost joined = out;
        let mut cells: Vec<i64> = Vec::new();
        let total = out.cells.len();
        for k in 0..total
            invariant
                self.wf(),
                other.wf(),
                joined.wf(),
                out == joined,
                n == joined.nodes@.len(),
                total == joined.cells@.len(),
                cells@.len() == k,
                forall|c: int|
                    0 <= c < k ==> #[trigger] cells@[c] == larger(
                        (self@.weight)(joined.nodes@[c / n as int], joined.nodes@[c % n as int]),
                        (other@.weight)(joined.nodes@[c / n as int], joined.nodes@[c % n as int]),
                    ),
        {
            proof {
                joined.lemma_pair(k as int);
            }
            let a = out.nodes[k / n];
            let b = out.nodes[k % n];
            let va: i64 = match self.cell(a, b) {
                Some(w) => w,
                None => 0,
            };
            let vb: i64 = match other.cell(a, b) {
                Some(w) => w,
                None => 0,
            };
            cells.push(
                if va >= vb {
                    va
                } else {
                    vb
                },
            );
        }
        out.cells = cells;
        proof {
            assert forall|k: int| 0 <= k < out.cells@.len() implies 0 <= #[trigger] out.cells@[k] by {
                joined.lemma_pair(k);
                self.lemma_weight(joined.nodes@[k / n as int], joined.nodes@[k % n as int]);
            }
            assert(out.wf());
            lemma_add_nodes(self@.nodes, other@.nodes);
            assert forall|a: TokenId, b: TokenId| #[trigger]
                (out@.weight)(a, b) == (self@.merge(other@).weight)(a, b) by {
                out.lemma_weight(a, b);
                self.lemma_weight(a, b);
                other.lemma_weight(a, b);
                assert(out.nodes@.to_set().contains(a) <==> self.nodes@.to_set().union(
                    other.nodes@.to_set(),
                ).contains(a));
                assert(out.nodes@.to_set().contains(b) <==> self.nodes@.to_set().union(
                    other.nodes@.to_set(),
                ).contains(b));
                if out@.grounded(a) && out@.grounded(b) {
                    lemma_row_column(out.nodes@.index_of(a), out.nodes@.index_of(b), n as int);
                }
            }
            assert(out@ =~= self@.merge(other@));
        }
        out
    }

    /// The measured transition graph (sparsity pattern): all `a -> b` with a
    /// non-zero cell weight, row by row.
    pub fn edges(&self) -> (r: Vec<(TokenId, TokenId)>)
        requires
            self.wf(),
        ensures
            r@ == self@.edge_list(),
    {
        let n = self.nodes.len();
        let total = self.cells.len();
        let mut edges: Vec<(TokenId, TokenId)> = Vec::new();
        let ghost measured = |p: (TokenId, TokenId)| self@.edge(p.0, p.1);
        assert(edges@ =~= self@.pairs().take(0).filter(measured));
        for k in 0..total
            invariant
                self.wf(),
                n == self.nodes@.len(),
                total == self.cells@.len(),
                measured == (|p: (TokenId, TokenId)| self@.edge(p.0, p.1)),
                edges@ == self@.pairs().take(k as int).filter(measured),
        {
            proof {
                self.lemma_pair(k as int);
                let t = self@.pairs().take(k as int);
                assert(self@.pairs().take(k + 1) =~= t.push(self@.pairs()[k as int]));
                t.lemma_filter_push(self@.pairs()[k as int], measured);
            }
            if self.cells[k] > 0 {
                edges.push((self.nodes[k / n], self.nodes[k % n]));
            }
        }
        assert(self@.pairs().take(total as int) =~= self@.pairs());
        edges
    }
}

/// Between rows and nodes: a route over the cells is a path over the nodes.
proof fn lemma_route_is_path(m: ContextMatrix, q: Seq<int>, s: int, e: int)
    requires
        m.wf(),
        0 <= s < m.nodes@.len(),
        0 <= e < m.nodes@.len(),
        route::is_route(m.cells@, m.nodes@.len() as int, q, s, e),
    ensures
        m@.is_path(q.map_values(|i: int| m.nodes@[i]), m.nodes@[s], m.nodes@[e]),
        m@.ranks(q.map_values(|i: int| m.nodes@[i])) == q,
{
    let n = m.nodes@.len() as int;
    let p = q.map_values(|i: int| m.nodes@[i]);
    assert forall|k: int| 0 <= k < p.len() - 1 implies m@.edge(#[trigger] p[k], p[k + 1]) by {
        assert(0 <= q[k] < n && 0 <= q[k + 1] < n);
        assert(route::step(m.cells@, n, q[k], q[k + 1]));
        m.lemma_weight(p[k], p[k + 1]);
        assert(m.nodes@.index_of(p[k]) == q[k]);
        assert(m.nodes@.index_of(p[k + 1]) == q[k + 1]);
    }
    assert forall|k: int| 0 <= k < p.len() implies m@.grounded(#[trigger] p[k])
        && m.nodes@.index_of(p[k]) == q[k] by {
        assert(0 <= q[k] < n);
        assert(m.nodes@[q[k]] == p[k]);
    }
    assert(m@.ranks(p) =~= q);
}

/// Between nodes and rows: a path over the nodes is a route over the cells.
proof fn lemma_path_is_route(m: ContextMatrix, p: Seq<TokenId>, start: TokenId, end: TokenId)
    requires
        m.wf(),
        m@.is_path(p, start, end),
    ensures
        route::is_route(
            m.cells@,
            m.nodes@.len() as int,
            m@.ranks(p),
            m.nodes@.index_of(start),
            m.nodes@.index_of(end),
        ),
{
    let n = m.nodes@.len() as int;
    let q = m@.ranks(p);
    assert forall|k: int| 0 <= k < q.len() implies 0 <= #[trigger] q[k] < n by {
        assert(m@.grounded(p[k]));
    }
    assert forall|k: int| 0 <= k < q.len() - 1 implies route::step(
        m.cells@,
        n,
        #[trigger] q[k],
        q[k + 1],
    ) by {
        assert(m@.edge(p[k], p[k + 1]));
        m.lemma_weight(p[k], p[k + 1]);
    }
}

/// Observing one more token counts one more pair.
proof fn lemma_bigram_take(tokens: Seq<TokenId>, i: int, a: TokenId, b: TokenId)
    requires
        1 <= i < tokens.len(),
    ensures
        bigram_count(tokens.take(i + 1), a, b) == bigram_count(tokens.take(i), a, b) + (if tokens[i
            - 1] == a && tokens[i] == b {
            1nat
        } else {
            0nat
        }),
        bigram_count(tokens.take(i), a, b) < i,
    decreases i,
{
    assert(tokens.take(i + 1).drop_last() =~= tokens.take(i));
    if i > 1 {
        lemma_bigram_take(tokens, i - 1, a, b);
    }
}

proof fn lemma_evidence_prefix(m: MatrixModel, t: TokenId, ts: Seq<TokenId>, k: int)
    requires
        m.valid(),
        0 <= k <= ts.len(),
    ensures
        0 <= m.evidence(t, ts.take(k)) <= m.evidence(t, ts),
    decreases ts.len(),
{
    if k == ts.len() {
        assert(ts.take(k) =~= ts);
        if k > 0 {
            lemma_evidence_prefix(m, t, ts.drop_last(), k - 1);
            assert(0 <= (m.weight)(t, ts.last()));
        }
    } else {
        lemma_evidence_prefix(m, t, ts.drop_last(), k);
        assert(ts.drop_last().take(k) =~= ts.take(k));
        assert(0 <= (m.weight)(t, ts.last()));
    }
}

impl ContextMatrix {
    /// Build the matrix from a token sequence: every adjacent pair `a -> b`
    /// is observed with its bigram count as the cell weight. The order of
    /// the nodes is left open.
    pub fn from_sequence(tokens: &[TokenId]) -> (m: Self)
        requires
            tokens@.len() <= i64::MAX,
            square_fits(tokens@.to_set().len()),
        ensures
            m.wf(),
            m@.nodes.to_set() == (if tokens@.len() >= 2 {
                tokens@.to_set()
            } else {
                Set::empty()
            }),
            forall|a: TokenId, b: TokenId| #[trigger]
                (m@.weight)(a, b) == bigram_count(tokens@, a, b),
    {
        let mut m = Self::new();
        let len = tokens.len();
        let mut i: usize = 1;
        assert(m@.nodes.to_set() =~= Set::<TokenId>::empty());
        while i < len
            invariant
                len == tokens@.len(),
                1 <= i,
                i <= len || i == 1,
                tokens@.len() <= i64::MAX,
                square_fits(tokens@.to_set().len()),
                m.wf(),
                m@.nodes.to_set() == (if i >= 2 {
                    tokens@.take(i as int).to_set()
                } else {
                    Set::empty()
                }),
                forall|a: TokenId, b: TokenId| #[trigger]
                    (m@.weight)(a, b) == (if i <= len {
                        bigram_count(tokens@.take(i as int), a, b)
                    } else {
                        0
                    }),
            decreases len - i,
        {
            let a = tokens[i - 1];
            let b = tokens[i];
            let ghost m0 = m@;
            let w: i64 = match m.cell(a, b) {
                Some(w) => w,
                None => 0,
            };
            proof {
                lemma_bigram_take(tokens@, i as int, a, b);
                m.lemma_valid();
                let nodes2 = add_node(add_node(m0.nodes, a), b);
                lemma_add_node(m0.nodes, a);
                lemma_add_node(add_node(m0.nodes, a), b);
                let t = tokens@.take(i as int);
                assert(tokens@.take(i + 1) =~= t.push(b));
                t.lemma_push_to_set_commute(b);
                assert(t[i - 1] == a);
                if i == 1 {
                    assert(t =~= seq![a]);
                    assert(t.to_set() =~= Set::<TokenId>::empty().insert(a));
                } else {
                    assert(t.to_set().contains(a));
                    assert(t.to_set() =~= t.to_set().insert(a));
                }
                assert(nodes2.to_set() == tokens@.take(i + 1).to_set());
                assert(nodes2.to_set().subset_of(tokens@.to_set())) by {
                    assert forall|x: TokenId| nodes2.to_set().contains(x) implies tokens@.to_set().contains(
                        x,
                    ) by {
                        let k = tokens@.take(i + 1).index_of(x);
                        assert(tokens@[k] == x);
                    }
                }
                nodes2.unique_seq_to_set();
                vstd::set_lib::lemma_len_subset(nodes2.to_set(), tokens@.to_set());
                lemma_smaller_square(nodes2.len(), tokens@.to_set().len());
            }
            m.observe(a, b, w + 1);
            proof {
                assert forall|x: TokenId, y: TokenId| #[trigger]
                    (m@.weight)(x, y) == bigram_count(tokens@.take(i + 1), x, y) by {
                    lemma_bigram_take(tokens@, i as int, x, y);
                    assert((m0.weight)(x, y) == bigram_count(tokens@.take(i as int), x, y));
                }
            }
            i = i + 1;
        }
        proof {
            if len >= 1 {
                assert(tokens@.take(len as int) =~= tokens@);
            }
        }
        m
    }

    /// A sequence as a path through the matrix: the shortest measured
    /// `start -> end` path, or empty if unreachable or ungrounded. Among
    /// several shortest paths, the one through the nodes seen first.
    pub fn path(&self, start: TokenId, end: TokenId) -> (r: Vec<TokenId>)
        requires
            self.wf(),
        ensures
            (exists|p: Seq<TokenId>| self@.is_path(p, start, end)) ==> self@.is_first_path(
                r@,
                start,
                end,
            ),
            !(exists|p: Seq<TokenId>| self@.is_path(p, start, end)) ==> r@.len() == 0,
    {
        let si: usize = match self.index.get(&start) {
            Some(i) => *i,
            None => {
                assert forall|p: Seq<TokenId>| !self@.is_path(p, start, end) by {
                    if self@.is_path(p, start, end) {
                        assert(self@.grounded(p[0]));
                    }
                }
                return Vec::new();
            },
        };
        let ei: usize = match self.index.get(&end) {
            Some(i) => *i,
            None => {
                assert forall|p: Seq<TokenId>| !self@.is_path(p, start, end) by {
                    if self@.is_path(p, start, end) {
                        assert(self@.grounded(p[p.len() - 1]));
                    }
                }
                return Vec::new();
            },
        };
        proof {
            self.lemma_weight(start, end);
        }
        match route::first_route(&self.cells, self.nodes.len(), si, ei) {
            None => {
                proof {
                    assert forall|p: Seq<TokenId>| !self@.is_path(p, start, end) by {
                        if self@.is_path(p, start, end) {
                            lemma_path_is_route(*self, p, start, end);
                        }
                    }
                }
                Vec::new()
            },
            Some(q) => {
                let len = q.len();
                let mut path: Vec<TokenId> = Vec::new();
                for k in 0..len
                    invariant
                        len == q@.len(),
                        route::is_route(
                            self.cells@,
                            self.nodes@.len() as int,
                            route::indices(q@),
                            si as int,
                            ei as int,
                        ),
                        path@.len() == k,
                        forall|c: int| 0 <= c < k ==> #[trigger] path@[c] == self.nodes@[q@[c] as int],
                {
                    assert(route::indices(q@)[k as int] == q@[k as int] as int);
                    path.push(self.nodes[q[k]]);
                }
                proof {
                    let r = route::indices(q@);
                    lemma_route_is_path(*self, r, si as int, ei as int);
                    assert(path@ =~= r.map_values(|i: int| self.nodes@[i]));
                    assert forall|p: Seq<TokenId>| #[trigger]
                        self@.is_path(p, start, end) implies route::no_later(
                        self@.ranks(path@),
                        self@.ranks(p),
                    ) by {
                        lemma_path_is_route(*self, p, start, end);
                    }
                }
                path
            },
        }
    }

    /// The token-level prior: grounded nodes in ascending order, each with
    /// its total outgoing evidence.
    pub fn prior(&self) -> (r: (Vec<TokenId>, Vec<i64>))
        requires
            self.wf(),
            forall|t: TokenId| #[trigger] self@.grounded(t) ==> self@.outgoing(t) <= i64::MAX,
        ensures
            order::ascending(r.0@),
            r.0@.to_set() == self@.nodes.to_set(),
            r.1@.len() == r.0@.len(),
            forall|i: int| 0 <= i < r.0@.len() ==> r.1@[i] == self@.outgoing(#[trigger] r.0@[i]),
    {
        let nodes = order::sorted_ids(self.nodes.as_slice());
        let n = self.nodes.len();
        let total = self.cells.len();
        let mut bias: Vec<i64> = Vec::new();
        for k in 0..nodes.len()
            invariant
                self.wf(),
                forall|t: TokenId| #[trigger]
                    self@.grounded(t) ==> self@.outgoing(t) <= i64::MAX,
                n == self.nodes@.len(),
                total == self.cells@.len(),
                nodes@.to_set() == self@.nodes.to_set(),
                bias@.len() == k,
                forall|i: int| 0 <= i < k ==> #[trigger] bias@[i] == self@.outgoing(nodes@[i]),
        {
            let t = nodes[k];
            proof {
                assert(nodes@.to_set().contains(t));
                assert(self@.nodes.to_set().contains(t));
                assert(self@.grounded(t));
                self.lemma_valid();
            }
            let i = *self.index.get(&t).unwrap();
            let mut sum: i64 = 0;
            for j in 0..n
                invariant
                    self.wf(),
                    self@.valid(),
                    self@.grounded(t),
                    self@.outgoing(t) <= i64::MAX,
                    n == self.nodes@.len(),
                    total == self.cells@.len(),
                    i == self.nodes@.index_of(t),
                    sum == self@.evidence(t, self.nodes@.take(j as int)),
            {
                proof {
                    let u = self.nodes@[j as int];
                    self.lemma_weight(t, u);
                    assert(self.nodes@.index_of(u) == j);
                    assert(self.nodes@.take(j + 1).drop_last() =~= self.nodes@.take(j as int));
                    lemma_evidence_prefix(self@, t, self.nodes@, j + 1);
                    lemma_evidence_prefix(self@, t, self.nodes@, j as int);
                }
                sum = sum + self.cells[i * n + j];
            }
            assert(self.nodes@.take(n as int) =~= self.nodes@);
            bias.push(sum);
        }
        (nodes, bias)
    }
}

impl Default for ContextMatrix {
    fn default() -> (m: Self)
        ensures
            m.wf(),
            m@ == MatrixModel::empty(),
    {
        Self::new()
    }
}

impl Clone for ContextMatrix {
    fn clone(&self) -> (m: Self)
        ensures
            self.wf() ==> m.wf(),
            m@ == self@,
    {
        let m = Self {
            nodes: self.nodes.clone(),
            index: self.index.clone(),
            cells: self.cells.clone(),
        };
        assert(m.nodes@ =~= self.nodes@);
        assert(m.cells@ =~= self.cells@);
        m
    }
}

/// Cell `m` of the matrix over `old_n + 1` nodes that keeps the weights of
/// the matrix over `old_n` nodes.
spec fn grown_cell(cells: Seq<i64>, old_n: int, m: int) -> i64 {
    let i = m / (old_n + 1);
    let j = m % (old_n + 1);
    if i < old_n && j < old_n {
        cells[i * old_n + j]
    } else {
        0
    }
}

pub proof fn lemma_row_column(i: int, j: int, n: int)
    requires
        0 <= i,
        0 <= j < n,
    ensures
        (i * n + j) / n == i,
        (i * n + j) % n == j,
{
    vstd::arithmetic::div_mod::lemma_fundamental_div_mod_converse(i * n + j, n, i, j);
}

proof fn lemma_cell_injective(i: int, j: int, u: int, v: int, n: int)
    requires
        0 <= i,
        0 <= j < n,
        0 <= u,
        0 <= v < n,
        i * n + j == u * n + v,
    ensures
        i == u,
        j == v,
{
    lemma_row_column(i, j, n);
    lemma_row_column(u, v, n);
}

proof fn lemma_grown_cell(cells: Seq<i64>, old_n: int, i: int, j: int)
    requires
        0 <= i <= old_n,
        0 <= j <= old_n,
    ensures
        grown_cell(cells, old_n, i * (old_n + 1) + j) == if i < old_n && j < old_n {
            cells[i * old_n + j]
        } else {
            0
        },
{
    lemma_row_column(i, j, old_n + 1);
}

proof fn lemma_grown_cell_nonnegative(cells: Seq<i64>, old_n: int, m: int)
    requires
        0 <= old_n,
        0 <= m,
        cells.len() == old_n * old_n,
        forall|k: int| 0 <= k < cells.len() ==> 0 <= #[trigger] cells[k],
    ensures
        0 <= grown_cell(cells, old_n, m),
{
    let i = m / (old_n + 1);
    let j = m % (old_n + 1);
    vstd::arithmetic::div_mod::lemma_div_pos_is_pos(m, old_n + 1);
    if i < old_n && j < old_n {
        route::lemma_cell_bound(i, j, old_n);
    }
}

/// Where a square fits, a smaller one does.
pub proof fn lemma_smaller_square(m: nat, n: nat)
    requires
        m <= n,
        square_fits(n),
    ensures
        square_fits(m),
{
    vstd::arithmetic::mul::lemma_mul_upper_bound(m as int, n as int, m as int, n as int);
}

} // verus!
