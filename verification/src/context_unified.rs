//! The unified cortex context: the one structure the cortex owns.
//!
//! - **tree**: the working set as content-addressed leaves;
//! - **matrix**: the grow-only follow relation over grounded tokens;
//! - **views**: the full image with its provenance.
//!
//! A context is a value: the combinators return new ones, and `join` is the
//! lattice join of configurations.

use crate::context;
use crate::context::{ContextMatrix, MatrixModel};
use crate::order;
use crate::tree;
use crate::tree::{ContextTree, LeafMap, TreeDiff};
use crate::views;
use crate::views::{ViewModel, ViewRecord};
use crate::TokenId;
use vstd::prelude::*;

verus! {

// ── The model ──────────────────────────────────────────────────────────────

/// Model of a [`Context`].
#[verifier::ext_equal]
pub struct ContextModel {
    pub tree: LeafMap,
    pub matrix: MatrixModel,
    pub views: Seq<ViewModel>,
}

/// `views` with `v` at the end, unless it is there already.
pub open spec fn add_view(views: Seq<ViewModel>, v: ViewModel) -> Seq<ViewModel> {
    if views.contains(v) {
        views
    } else {
        views.push(v)
    }
}

/// `views` with further views added one after the other.
pub open spec fn add_views(views: Seq<ViewModel>, more: Seq<ViewModel>) -> Seq<ViewModel>
    decreases more.len(),
{
    if more.len() == 0 {
        views
    } else {
        add_view(add_views(views, more.drop_last()), more.last())
    }
}

/// The tokens of all views.
pub open spec fn image_tokens(views: Seq<ViewModel>) -> Set<Seq<u8>> {
    Set::new(
        |t: Seq<u8>| exists|k: int| 0 <= k < views.len() && #[trigger] views[k].tokens.contains(t),
    )
}

impl ContextModel {
    /// The context without leaves, nodes and views.
    pub open spec fn empty() -> ContextModel {
        ContextModel { tree: Map::empty(), matrix: MatrixModel::empty(), views: Seq::empty() }
    }

    /// The join of two configurations: the leaves of either, the larger of
    /// the weights, and the deduplicated union of the views: each view of
    /// either once, in the order in which they first occur.
    pub open spec fn join(self, other: ContextModel) -> ContextModel {
        ContextModel {
            tree: other.tree.union_prefer_right(self.tree),
            matrix: self.matrix.merge(other.matrix),
            views: add_views(Seq::empty(), self.views + other.views),
        }
    }

    /// Two contexts hold the same: equal leaves, equal matrices up to node
    /// order, and the same views.
    pub open spec fn same(self, other: ContextModel) -> bool {
        &&& self.tree == other.tree
        &&& self.matrix.same(other.matrix)
        &&& self.views.to_set() == other.views.to_set()
    }
}

// ── The context ────────────────────────────────────────────────────────────

/// The unified context: tree, matrix and views.
#[derive(Debug)]
pub struct Context {
    tree: ContextTree,
    matrix: ContextMatrix,
    views: Vec<ViewRecord>,
}

impl View for Context {
    type V = ContextModel;

    closed spec fn view(&self) -> ContextModel {
        ContextModel {
            tree: self.tree@,
            matrix: self.matrix@,
            views: views::records(self.views@),
        }
    }
}

impl Context {
    /// The tree and the matrix are well-formed.
    pub closed spec fn wf(&self) -> bool {
        self.tree.wf() && self.matrix.wf()
    }

    /// The keys of the leaves in ascending order.
    pub closed spec fn keys(&self) -> Seq<Seq<char>> {
        self.tree.keys()
    }

    /// The keys are those of the leaves, and the matrix is valid.
    pub proof fn lemma_wf(&self)
        requires
            self.wf(),
        ensures
            tree::ascending_texts(self.keys()),
            self.keys().to_set() == self@.tree.dom(),
            self@.matrix.valid(),
    {
        self.tree.lemma_keys();
        self.matrix.lemma_valid();
    }

    /// The empty context.
    pub fn new() -> (r: Self)
        ensures
            r.wf(),
            r@ == ContextModel::empty(),
    {
        let r = Context {
            tree: ContextTree::empty(),
            matrix: ContextMatrix::new(),
            views: Vec::new(),
        };
        assert(r@.views =~= Seq::<ViewModel>::empty());
        r
    }

    /// The context of the given parts.
    pub fn build(tree: ContextTree, matrix: ContextMatrix, views: Vec<ViewRecord>) -> (r: Self)
        requires
            tree.wf(),
            matrix.wf(),
        ensures
            r.wf(),
            r@ == (ContextModel {
                tree: tree@,
                matrix: matrix@,
                views: views::records(views@),
            }),
            r.keys() == tree.keys(),
    {
        Context { tree, matrix, views }
    }

    /// The tree.
    pub fn tree(&self) -> (r: &ContextTree)
        requires
            self.wf(),
        ensures
            r.wf(),
            r@ == self@.tree,
            r.keys() == self.keys(),
    {
        &self.tree
    }

    /// The matrix.
    pub fn matrix(&self) -> (r: &ContextMatrix)
        requires
            self.wf(),
        ensures
            r.wf(),
            r@ == self@.matrix,
    {
        &self.matrix
    }

    /// The views.
    pub fn views(&self) -> (r: &[ViewRecord])
        ensures
            views::records(r@) == self@.views,
    {
        self.views.as_slice()
    }

    /// With another tree.
    pub fn with_tree(&self, tree: ContextTree) -> (r: Self)
        requires
            self.wf(),
            tree.wf(),
        ensures
            r.wf(),
            r@ == (ContextModel { tree: tree@, ..self@ }),
            r.keys() == tree.keys(),
    {
        Context {
            tree,
            matrix: self.matrix.clone(),
            views: views::copy_records(self.views.as_slice()),
        }
    }

    /// With another matrix.
    pub fn with_matrix(&self, matrix: ContextMatrix) -> (r: Self)
        requires
            self.wf(),
            matrix.wf(),
        ensures
            r.wf(),
            r@ == (ContextModel { matrix: matrix@, ..self@ }),
            r.keys() == self.keys(),
    {
        Context {
            tree: self.tree.clone(),
            matrix,
            views: views::copy_records(self.views.as_slice()),
        }
    }

    /// With other views.
    pub fn with_views(&self, views: Vec<ViewRecord>) -> (r: Self)
        requires
            self.wf(),
        ensures
            r.wf(),
            r@ == (ContextModel { views: views::records(views@), ..self@ }),
            r.keys() == self.keys(),
    {
        Context { tree: self.tree.clone(), matrix: self.matrix.clone(), views }
    }

    /// Learn one sequence into the matrix (grow-only bigram observations).
    pub fn observe_sequence(&self, tokens: &[TokenId]) -> (r: Self)
        requires
            self.wf(),
            context::square_fits(self@.matrix.learn(tokens@).nodes.len()),
        ensures
            r.wf(),
            r@ == (ContextModel { matrix: self@.matrix.learn(tokens@), ..self@ }),
            r.keys() == self.keys(),
    {
        let mut matrix = self.matrix.clone();
        matrix.learn(tokens);
        self.with_matrix(matrix)
    }

    /// The lattice join of two configurations: tree merge, pointwise-max
    /// matrix merge, and the deduplicated union of views.
    pub fn join(&self, other: &Self) -> (r: Self)
        requires
            self.wf(),
            other.wf(),
            context::square_fits(
                context::add_nodes(self@.matrix.nodes, other@.matrix.nodes).len(),
            ),
        ensures
            r.wf(),
            r@ == self@.join(other@),
            r@.views.no_duplicates(),
    {
        let mut merged: Vec<ViewRecord> = Vec::new();
        let ghost all = views::records(self.views@) + views::records(other.views@);
        assert(views::records(merged@) =~= add_views(Seq::empty(), all.take(0)));
        for i in 0..self.views.len()
            invariant
                all == views::records(self.views@) + views::records(other.views@),
                views::records(merged@) == add_views(Seq::empty(), all.take(i as int)),
                views::records(merged@).no_duplicates(),
        {
            assert(all.take(i + 1).drop_last() =~= all.take(i as int));
            assert(all[i as int] == self.views@[i as int]@);
            add_record(&mut merged, &self.views[i]);
        }
        for i in 0..other.views.len()
            invariant
                all == views::records(self.views@) + views::records(other.views@),
                views::records(merged@) == add_views(
                    Seq::empty(),
                    all.take(self.views@.len() + i),
                ),
                views::records(merged@).no_duplicates(),
        {
            let ghost n = self.views@.len() + i;
            assert(all.take(n + 1).drop_last() =~= all.take(n));
            assert(all[n] == other.views@[i as int]@);
            add_record(&mut merged, &other.views[i]);
        }
        assert(all.take(all.len() as int) =~= all);
        Context {
            tree: self.tree.merge(&other.tree),
            matrix: self.matrix.merge(&other.matrix),
            views: merged,
        }
    }

    /// The leaf-level step: the atoms added, removed and retained when moving
    /// from `self` to `next`.
    pub fn diff(&self, next: &Self) -> (r: TreeDiff)
        requires
            self.wf(),
            next.wf(),
        ensures
            tree::texts(r.added@) == next.keys().filter(
                |h: Seq<char>| self@.tree.contains_key(h) == false,
            ),
            tree::texts(r.removed@) == self.keys().filter(
                |h: Seq<char>| next@.tree.contains_key(h) == false,
            ),
            tree::texts(r.retained@) == self.keys().filter(
                |h: Seq<char>| next@.tree.contains_key(h) == true,
            ),
    {
        self.tree.diff(&next.tree)
    }

    /// The full image tokens: the union of every view's tokens, sorted and
    /// deduplicated.
    pub fn full_image_tokens(&self) -> (r: Vec<Vec<u8>>)
        ensures
            order::ascending_tokens(order::tokens(r@)),
            order::tokens(r@).to_set() == image_tokens(self@.views),
    {
        let mut out: Vec<Vec<u8>> = Vec::new();
        assert(order::tokens(out@).to_set() =~= Set::<Seq<u8>>::empty());
        for i in 0..self.views.len()
            invariant
                order::ascending_tokens(order::tokens(out@)),
                forall|t: Seq<u8>| #[trigger]
                    order::tokens(out@).to_set().contains(t) <==> (exists|k: int|
                        0 <= k < i && #[trigger] self@.views[k].tokens.contains(t)),
        {
            let ghost before = order::tokens(out@).to_set();
            let ghost now = self@.views[i as int].tokens;
            let view = &self.views[i];
            assert(now == order::tokens(view.tokens@));
            for j in 0..view.tokens.len()
                invariant
                    now == order::tokens(view.tokens@),
                    order::ascending_tokens(order::tokens(out@)),
                    forall|t: Seq<u8>| #[trigger]
                        order::tokens(out@).to_set().contains(t) <==> before.contains(t)
                            || now.take(j as int).contains(t),
            {
                let ghost mid = order::tokens(out@).to_set();
                order::insert_token(&mut out, order::copy_bytes(view.tokens[j].as_slice()));
                proof {
                    let t0 = now.take(j as int);
                    assert(now.take(j + 1) =~= t0.push(now[j as int]));
                    assert forall|t: Seq<u8>| #[trigger]
                        order::tokens(out@).to_set().contains(t) <==> before.contains(t)
                            || now.take(j + 1).contains(t) by {
                        assert(order::tokens(out@).to_set().contains(t) <==> mid.contains(t) || t
                            == now[j as int]);
                        if t0.contains(t) {
                            assert(now.take(j + 1)[t0.index_of(t)] == t);
                        }
                        if t == now[j as int] {
                            assert(now.take(j + 1)[j as int] == t);
                        }
                        if now.take(j + 1).contains(t) {
                            let k = now.take(j + 1).index_of(t);
                            if k < j {
                                assert(t0[k] == t);
                            }
                        }
                    }
                }
            }
            proof {
                assert(now.take(now.len() as int) =~= now);
                assert forall|t: Seq<u8>| #[trigger]
                    order::tokens(out@).to_set().contains(t) <==> (exists|k: int|
                        0 <= k < i + 1 && #[trigger] self@.views[k].tokens.contains(t)) by {
                    assert(order::tokens(out@).to_set().contains(t) <==> before.contains(t)
                        || self@.views[i as int].tokens.contains(t));
                }
            }
        }
        assert(self@.views.len() == self.views@.len());
        assert(order::tokens(out@).to_set() =~= image_tokens(self@.views));
        out
    }
}

/// Whether a list of views holds a record.
fn holds_view(all: &Vec<ViewRecord>, v: &ViewRecord) -> (r: bool)
    ensures
        r == views::records(all@).contains(v@),
{
    for i in 0..all.len()
        invariant
            forall|k: int| 0 <= k < i ==> (#[trigger] all@[k])@ != v@,
    {
        if all[i].same(v) {
            assert(views::records(all@)[i as int] == v@);
            return true;
        }
    }
    proof {
        if views::records(all@).contains(v@) {
            let k = views::records(all@).index_of(v@);
            assert(all@[k]@ == v@);
        }
    }
    false
}

/// Add a record to a list of views, unless it is there already.
fn add_record(all: &mut Vec<ViewRecord>, v: &ViewRecord)
    ensures
        views::records(final(all)@) == add_view(views::records(old(all)@), v@),
        views::records(old(all)@).no_duplicates() ==> views::records(final(all)@).no_duplicates(),
{
    if !holds_view(all, v) {
        let ghost before = all@;
        all.push(v.clone());
        assert(views::records(all@) =~= views::records(before).push(v@));
    }
}

impl Default for Context {
    fn default() -> (r: Self)
        ensures
            r.wf(),
            r@ == ContextModel::empty(),
    {
        Context::new()
    }
}

impl Clone for Context {
    fn clone(&self) -> (r: Self)
        ensures
            r@ == self@,
            r.keys() == self.keys(),
            self.wf() ==> r.wf(),
    {
        Context {
            tree: self.tree.clone(),
            matrix: self.matrix.clone(),
            views: views::copy_records(self.views.as_slice()),
        }
    }
}

} // verus!
