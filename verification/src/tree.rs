//! The context tree: the working set as content-addressed leaves, sorted by
//! key and free of duplicates.

use crate::order;
use vstd::prelude::*;
use vstd::utf8::*;

verus! {

/// One leaf: the content key of a sketch and the keys of its views, each with
/// the name of its LUT.
#[derive(Debug, PartialEq, Eq)]
pub struct Leaf {
    pub h: String,
    pub views: Vec<(String, String)>,
}

/// The contents of a list of pairs of texts.
pub open spec fn pairs(v: Seq<(String, String)>) -> Seq<(Seq<char>, Seq<char>)> {
    v.map_values(|p: (String, String)| (p.0@, p.1@))
}

/// A copy of a list of pairs of texts.
pub fn copy_pairs(v: &[(String, String)]) -> (r: Vec<(String, String)>)
    ensures
        pairs(r@) == pairs(v@),
{
    let mut r: Vec<(String, String)> = Vec::new();
    assert(pairs(r@) =~= pairs(v@).take(0));
    for i in 0..v.len()
        invariant
            pairs(r@) == pairs(v@).take(i as int),
    {
        let ghost r0 = r@;
        r.push((v[i].0.clone(), v[i].1.clone()));
        assert(pairs(r@) =~= pairs(r0).push(pairs(v@)[i as int]));
        assert(pairs(v@).take(i + 1) =~= pairs(v@).take(i as int).push(pairs(v@)[i as int]));
    }
    assert(pairs(v@).take(v@.len() as int) =~= pairs(v@));
    r
}

impl Clone for Leaf {
    fn clone(&self) -> (r: Self)
        ensures
            r.h@ == self.h@,
            pairs(r.views@) == pairs(self.views@),
    {
        Leaf { h: self.h.clone(), views: copy_pairs(self.views.as_slice()) }
    }
}

/// Text order: the byte order of the encodings.
pub open spec fn text_before(a: Seq<char>, b: Seq<char>) -> bool {
    order::before(encode_utf8(a), encode_utf8(b))
}

/// Strictly ascending in text order.
pub open spec fn ascending_texts(s: Seq<Seq<char>>) -> bool {
    forall|i: int, j: int| 0 <= i < j < s.len() ==> text_before(#[trigger] s[i], #[trigger] s[j])
}

/// Of two distinct texts, exactly one precedes the other; none precedes
/// itself.
pub proof fn lemma_text_order(a: Seq<char>, b: Seq<char>)
    ensures
        a != b ==> (text_before(a, b) <==> !text_before(b, a)),
        !text_before(a, a),
{
    encode_utf8_decode_utf8(a);
    encode_utf8_decode_utf8(b);
    order::lemma_before_total(encode_utf8(a), encode_utf8(b));
    order::lemma_before_irreflexive(encode_utf8(a));
}

/// What a tree holds: the view keys of each leaf, by the leaf's key.
pub type LeafMap = Map<Seq<char>, Seq<(Seq<char>, Seq<char>)>>;

/// The keys of a list of leaves.
pub open spec fn leaf_keys(leaves: Seq<Leaf>) -> Seq<Seq<char>> {
    leaves.map_values(|l: Leaf| l.h@)
}

/// The leaves `m` with one more, unless its key is there already.
pub open spec fn place(m: LeafMap, leaf: Leaf) -> LeafMap {
    if m.contains_key(leaf.h@) {
        m
    } else {
        m.insert(leaf.h@, pairs(leaf.views@))
    }
}

/// The leaves `m` with further ones placed one after the other.
pub open spec fn place_all(m: LeafMap, leaves: Seq<Leaf>) -> LeafMap
    decreases leaves.len(),
{
    if leaves.len() == 0 {
        m
    } else {
        place(place_all(m, leaves.drop_last()), leaves.last())
    }
}

/// The tree over the working set.
#[derive(Debug, PartialEq, Eq)]
pub struct ContextTree {
    leaves: Vec<Leaf>,
}

impl View for ContextTree {
    type V = LeafMap;

    closed spec fn view(&self) -> LeafMap {
        let keys = leaf_keys(self.leaves@);
        Map::new(
            |h: Seq<char>| keys.contains(h),
            |h: Seq<char>| pairs(self.leaves@[keys.index_of(h)].views@),
        )
    }
}

/// The leaf-level step from one tree to the next.
#[derive(Debug, PartialEq, Eq)]
pub struct TreeDiff {
    pub added: Vec<String>,
    pub removed: Vec<String>,
    pub retained: Vec<String>,
}

/// The contents of a list of texts.
pub open spec fn texts(v: Seq<String>) -> Seq<Seq<char>> {
    v.map_values(|s: String| s@)
}

/// A copy of a list of texts.
pub fn copy_texts(v: &Vec<String>) -> (r: Vec<String>)
    ensures
        texts(r@) == texts(v@),
{
    let mut r: Vec<String> = Vec::new();
    let ghost all = texts(v@);
    assert(texts(r@) =~= all.take(0));
    for i in 0..v.len()
        invariant
            all == texts(v@),
            texts(r@) == all.take(i as int),
    {
        let ghost r0 = r@;
        r.push(v[i].clone());
        assert(texts(r@) =~= texts(r0).push(all[i as int]));
        assert(all.take(i + 1) =~= all.take(i as int).push(all[i as int]));
    }
    assert(all.take(all.len() as int) =~= all);
    r
}

impl Clone for TreeDiff {
    fn clone(&self) -> (r: Self)
        ensures
            texts(r.added@) == texts(self.added@),
            texts(r.removed@) == texts(self.removed@),
            texts(r.retained@) == texts(self.retained@),
    {
        TreeDiff {
            added: copy_texts(&self.added),
            removed: copy_texts(&self.removed),
            retained: copy_texts(&self.retained),
        }
    }
}

impl ContextTree {
    /// The keys of the leaves in ascending order.
    pub closed spec fn keys(&self) -> Seq<Seq<char>> {
        leaf_keys(self.leaves@)
    }

    /// The leaves are sorted by key, each key once.
    pub closed spec fn wf(&self) -> bool {
        ascending_texts(leaf_keys(self.leaves@))
    }

    /// The keys are ascending and are those of the leaves.
    pub proof fn lemma_keys(&self)
        requires
            self.wf(),
        ensures
            ascending_texts(self.keys()),
            self.keys().no_duplicates(),
            self.keys().to_set() == self@.dom(),
            forall|h: Seq<char>| #[trigger] self@.contains_key(h) <==> self.keys().contains(h),
    {
        let keys = self.keys();
        assert(keys.to_set() =~= self@.dom());
        assert forall|i: int, j: int| 0 <= i < keys.len() && 0 <= j < keys.len() && i != j implies
            keys[i] != keys[j] by {
            lemma_text_order(keys[i], keys[j]);
            if i < j {
                assert(text_before(keys[i], keys[j]));
            } else {
                assert(text_before(keys[j], keys[i]));
            }
        }
    }

    proof fn lemma_leaf(&self, k: int)
        requires
            self.wf(),
            0 <= k < self.leaves@.len(),
        ensures
            self@.contains_key(self.leaves@[k].h@),
            self@[self.leaves@[k].h@] == pairs(self.leaves@[k].views@),
    {
        self.lemma_keys();
        let keys = self.keys();
        assert(keys[k] == self.leaves@[k].h@);
        assert(keys.contains(keys[k]));
        assert(keys[keys.index_of(keys[k])] == keys[k]);
    }

    /// The tree without leaves.
    pub fn empty() -> (r: Self)
        ensures
            r.wf(),
            r@ == Map::<Seq<char>, Seq<(Seq<char>, Seq<char>)>>::empty(),
    {
        let r = ContextTree { leaves: Vec::new() };
        assert(r@ =~= Map::<Seq<char>, Seq<(Seq<char>, Seq<char>)>>::empty());
        r
    }

    /// The leaves in ascending order of their keys.
    pub fn leaves(&self) -> (r: &[Leaf])
        requires
            self.wf(),
        ensures
            leaf_keys(r@) == self.keys(),
            forall|k: int|
                0 <= k < r@.len() ==> self@[(#[trigger] r@[k]).h@] == pairs(r@[k].views@),
    {
        proof {
            assert forall|k: int| 0 <= k < self.leaves@.len() implies self@[(
            #[trigger] self.leaves@[k]).h@] == pairs(self.leaves@[k].views@) by {
                self.lemma_leaf(k);
            }
        }
        self.leaves.as_slice()
    }

    /// Where the leaf with a key stands, or would stand.
    fn rank(&self, h: &String) -> (i: usize)
        requires
            self.wf(),
        ensures
            i <= self.leaves@.len(),
            forall|k: int| 0 <= k < i ==> text_before((#[trigger] self.leaves@[k]).h@, h@),
            i < self.leaves@.len() ==> !text_before(self.leaves@[i as int].h@, h@),
    {
        let mut i: usize = 0;
        while i < self.leaves.len() && order::bytes_before(
            self.leaves[i].h.as_str().as_bytes(),
            h.as_str().as_bytes(),
        )
            invariant
                i <= self.leaves@.len(),
                forall|k: int| 0 <= k < i ==> text_before((#[trigger] self.leaves@[k]).h@, h@),
            decreases self.leaves@.len() - i,
        {
            i = i + 1;
        }
        i
    }

    /// Whether a leaf has the key.
    pub fn contains(&self, h: &String) -> (r: bool)
        requires
            self.wf(),
        ensures
            r == self@.contains_key(h@),
    {
        let i = self.rank(h);
        let r = i < self.leaves.len() && self.leaves[i].h == *h;
        proof {
            let keys = self.keys();
            if r {
                self.lemma_leaf(i as int);
            } else if keys.contains(h@) {
                let k = keys.index_of(h@);
                assert(self.leaves@[k].h@ == h@);
                lemma_text_order(h@, h@);
                assert(k >= i);
                if k > i {
                    assert(text_before(keys[i as int], keys[k]));
                }
            }
        }
        r
    }

    fn place(&mut self, leaf: Leaf)
        requires
            old(self).wf(),
        ensures
            final(self).wf(),
            final(self)@ == place(old(self)@, leaf),
    {
        let ghost before = *self;
        let ghost x = leaf;
        let i = self.rank(&leaf.h);
        if i < self.leaves.len() && self.leaves[i].h == leaf.h {
            proof {
                self.lemma_leaf(i as int);
            }
            return ;
        }
        self.leaves.insert(i, leaf);
        proof {
            let old_keys = before.keys();
            let keys = self.keys();
            assert(keys =~= old_keys.insert(i as int, x.h@));
            assert forall|k: int| i <= k < old_keys.len() implies text_before(
                x.h@,
                #[trigger] old_keys[k],
            ) by {
                assert(old_keys[i as int] == before.leaves@[i as int].h@);
                lemma_text_order(x.h@, old_keys[i as int]);
                if k > i {
                    assert(text_before(old_keys[i as int], old_keys[k]));
                    order::lemma_before_transitive(
                        encode_utf8(x.h@),
                        encode_utf8(old_keys[i as int]),
                        encode_utf8(old_keys[k]),
                    );
                }
            }
            assert forall|k: int| 0 <= k < i implies text_before(#[trigger] old_keys[k], x.h@) by {
                assert(old_keys[k] == before.leaves@[k].h@);
            }
            assert(self.wf());
            before.lemma_keys();
            self.lemma_keys();
            assert(!old_keys.contains(x.h@)) by {
                if old_keys.contains(x.h@) {
                    let k = old_keys.index_of(x.h@);
                    lemma_text_order(x.h@, x.h@);
                    if k < i {
                        assert(text_before(old_keys[k], x.h@));
                    } else {
                        assert(text_before(x.h@, old_keys[k]));
                    }
                }
            }
            order::lemma_insert_to_set(old_keys, i as int, x.h@);
            let target = place(before@, x);
            assert forall|h: Seq<char>| #[trigger] self@.contains_key(h) implies self@[h]
                == target[h] by {
                let k = keys.index_of(h);
                self.lemma_leaf(k);
                if k < i {
                    assert(old_keys[k] == h);
                    before.lemma_leaf(k);
                } else if k > i {
                    assert(old_keys[k - 1] == h);
                    before.lemma_leaf(k - 1);
                }
            }
            assert(self@.dom() =~= target.dom());
            assert(self@ =~= target);
        }
    }

    /// The tree over the given leaves; of leaves with one key, the first is
    /// kept.
    pub fn build(leaves: &[Leaf]) -> (r: Self)
        ensures
            r.wf(),
            r@ == place_all(Map::empty(), leaves@),
    {
        let mut r = ContextTree::empty();
        r.place_each(leaves);
        r
    }

    fn place_each(&mut self, leaves: &[Leaf])
        requires
            old(self).wf(),
        ensures
            final(self).wf(),
            final(self)@ == place_all(old(self)@, leaves@),
    {
        let ghost start = self@;
        for i in 0..leaves.len()
            invariant
                self.wf(),
                self@ == place_all(start, leaves@.take(i as int)),
        {
            assert(leaves@.take(i + 1).drop_last() =~= leaves@.take(i as int));
            let ghost m = self@;
            let leaf = leaves[i].clone();
            let ghost copy = leaf;
            self.place(leaf);
            assert(place(m, copy) =~= place(m, leaves@[i as int]));
        }
        assert(leaves@.take(leaves@.len() as int) =~= leaves@);
    }

    /// The tree with one more leaf, unless its key is there already.
    pub fn insert(&self, leaf: Leaf) -> (r: Self)
        requires
            self.wf(),
        ensures
            r.wf(),
            r@ == place(self@, leaf),
    {
        let mut r = self.clone();
        r.place(leaf);
        r
    }

    /// The tree without the leaf that has the key.
    pub fn remove(&self, h: &String) -> (r: Self)
        requires
            self.wf(),
        ensures
            r.wf(),
            r@ == self@.remove(h@),
    {
        let mut r = ContextTree::empty();
        for i in 0..self.leaves.len()
            invariant
                self.wf(),
                r.wf(),
                forall|x: Seq<char>| #[trigger]
                    r@.contains_key(x) <==> x != h@ && (exists|k: int|
                        0 <= k < i && #[trigger] self.leaves@[k].h@ == x),
                forall|x: Seq<char>| #[trigger] r@.contains_key(x) ==> r@[x] == self@[x],
        {
            if !(self.leaves[i].h == *h) {
                let ghost r0 = r@;
                let leaf = self.leaves[i].clone();
                let ghost copy = leaf;
                r.place(leaf);
                proof {
                    self.lemma_leaf(i as int);
                    assert forall|x: Seq<char>| #[trigger] r@.contains_key(x) <==> x != h@ && (
                    exists|k: int| 0 <= k < i + 1 && #[trigger] self.leaves@[k].h@ == x) by {
                        assert(r@.contains_key(x) <==> r0.contains_key(x) || x
                            == self.leaves@[i as int].h@);
                    }
                    assert forall|x: Seq<char>| #[trigger] r@.contains_key(x) implies r@[x]
                        == self@[x] by {
                        assert(r0.contains_key(x) || x == copy.h@);
                    }
                }
            }
        }
        proof {
            self.lemma_keys();
            assert forall|x: Seq<char>| #[trigger]
                r@.contains_key(x) == self@.remove(h@).contains_key(x) by {
                if self@.contains_key(x) {
                    let k = self.keys().index_of(x);
                    assert(self.leaves@[k].h@ == x);
                }
                if r@.contains_key(x) {
                    let k = choose|k: int|
                        0 <= k < self.leaves@.len() && #[trigger] self.leaves@[k].h@ == x;
                    self.lemma_leaf(k);
                }
            }
            assert(r@ =~= self@.remove(h@));
        }
        r
    }

    /// The join of two trees: the leaves of either. A key of both keeps the
    /// leaf of `self`.
    pub fn merge(&self, other: &Self) -> (r: Self)
        requires
            self.wf(),
            other.wf(),
        ensures
            r.wf(),
            r@ == other@.union_prefer_right(self@),
    {
        let mut r = self.clone();
        r.place_each(other.leaves.as_slice());
        proof {
            lemma_place_all(self@, other.leaves@);
            other.lemma_keys();
            let target = other@.union_prefer_right(self@);
            assert forall|h: Seq<char>| #[trigger]
                r@.contains_key(h) == target.contains_key(h) by {
                assert(other@.contains_key(h) <==> leaf_keys(other.leaves@).contains(h));
            }
            assert forall|h: Seq<char>| #[trigger] r@.contains_key(h) implies r@[h]
                == target[h] by {
                if !self@.contains_key(h) {
                    let k = leaf_keys(other.leaves@).index_of(h);
                    other.lemma_leaf(k);
                    assert(leaf_keys(other.leaves@)[k] == h);
                    assert forall|j: int| 0 <= j < k implies leaf_keys(other.leaves@)[j] != h by {
                        assert(other.keys()[j] != other.keys()[k]);
                    }
                    assert(r@[h] == pairs(other.leaves@[k].views@));
                }
            }
            assert(r@ =~= target);
        }
        r
    }

    /// The keys of `self` whose presence in `other` is `present`.
    fn select(&self, other: &Self, present: bool) -> (r: Vec<String>)
        requires
            self.wf(),
            other.wf(),
        ensures
            texts(r@) == self.keys().filter(
                |h: Seq<char>| other@.contains_key(h) == present,
            ),
    {
        let mut r: Vec<String> = Vec::new();
        let ghost keys = self.keys();
        let ghost pick = |h: Seq<char>| other@.contains_key(h) == present;
        assert(texts(r@) =~= keys.take(0).filter(pick));
        for i in 0..self.leaves.len()
            invariant
                self.wf(),
                other.wf(),
                keys == leaf_keys(self.leaves@),
                pick == (|h: Seq<char>| other@.contains_key(h) == present),
                texts(r@) == keys.take(i as int).filter(pick),
        {
            proof {
                let t = keys.take(i as int);
                assert(keys.take(i + 1) =~= t.push(keys[i as int]));
                t.lemma_filter_push(keys[i as int], pick);
            }
            if other.contains(&self.leaves[i].h) == present {
                let ghost r0 = r@;
                r.push(self.leaves[i].h.clone());
                assert(texts(r@) =~= texts(r0).push(keys[i as int]));
            }
        }
        assert(keys.take(keys.len() as int) =~= keys);
        r
    }

    /// The leaf-level step from `self` to `next`: keys added, removed and
    /// retained, each in ascending order.
    pub fn diff(&self, next: &Self) -> (r: TreeDiff)
        requires
            self.wf(),
            next.wf(),
        ensures
            texts(r.added@) == next.keys().filter(|h: Seq<char>| self@.contains_key(h) == false),
            texts(r.removed@) == self.keys().filter(|h: Seq<char>| next@.contains_key(h) == false),
            texts(r.retained@) == self.keys().filter(|h: Seq<char>| next@.contains_key(h) == true),
    {
        TreeDiff {
            added: next.select(self, false),
            removed: self.select(next, false),
            retained: self.select(next, true),
        }
    }
}

impl Clone for ContextTree {
    fn clone(&self) -> (r: Self)
        ensures
            r@ == self@,
            r.keys() == self.keys(),
            self.wf() ==> r.wf(),
    {
        let mut leaves: Vec<Leaf> = Vec::new();
        for i in 0..self.leaves.len()
            invariant
                leaves@.len() == i,
                forall|k: int|
                    0 <= k < i ==> (#[trigger] leaves@[k]).h@ == self.leaves@[k].h@ && pairs(
                        leaves@[k].views@,
                    ) == pairs(self.leaves@[k].views@),
        {
            leaves.push(self.leaves[i].clone());
        }
        let r = ContextTree { leaves };
        proof {
            assert(r.keys() =~= self.keys());
            assert forall|h: Seq<char>| #[trigger] r@.contains_key(h) implies r@[h]
                == self@[h] by {
                let k = r.keys().index_of(h);
                assert(r.keys()[k] == h);
            }
            assert(r@ =~= self@);
        }
        r
    }
}

proof fn lemma_place_all(m: LeafMap, leaves: Seq<Leaf>)
    ensures
        forall|h: Seq<char>| #[trigger]
            place_all(m, leaves).contains_key(h) <==> m.contains_key(h) || leaf_keys(
                leaves,
            ).contains(h),
        forall|h: Seq<char>| #[trigger]
            m.contains_key(h) ==> place_all(m, leaves)[h] == m[h],
        forall|k: int|
            #![trigger leaves[k]]
            0 <= k < leaves.len() && !m.contains_key(leaves[k].h@) && (forall|j: int|
                0 <= j < k ==> leaf_keys(leaves)[j] != leaves[k].h@) ==> place_all(
                m,
                leaves,
            )[leaves[k].h@] == pairs(leaves[k].views@),
    decreases leaves.len(),
{
    if leaves.len() > 0 {
        let init = leaves.drop_last();
        let keys = leaf_keys(leaves);
        lemma_place_all(m, init);
        assert(leaf_keys(init) =~= keys.drop_last());
        assert forall|h: Seq<char>| #[trigger]
            place_all(m, leaves).contains_key(h) <==> m.contains_key(h) || keys.contains(h) by {
            let prev = place_all(m, init);
            assert(prev.contains_key(h) <==> m.contains_key(h) || leaf_keys(init).contains(h));
            assert(place_all(m, leaves).contains_key(h) <==> prev.contains_key(h) || h
                == leaves.last().h@);
            if keys.contains(h) {
                let k = keys.index_of(h);
                assert(keys[k] == h);
                if k < init.len() {
                    assert(leaf_keys(init)[k] == h);
                    assert(leaf_keys(init).contains(h));
                }
            }
            if leaf_keys(init).contains(h) {
                let k = leaf_keys(init).index_of(h);
                assert(keys[k] == h);
            }
            assert(keys[keys.len() - 1] == leaves.last().h@);
        }
        assert forall|k: int|
            #![trigger leaves[k]]
            0 <= k < leaves.len() && !m.contains_key(leaves[k].h@) && (forall|j: int|
                0 <= j < k ==> keys[j] != leaves[k].h@) implies place_all(
            m,
            leaves,
        )[leaves[k].h@] == pairs(leaves[k].views@) by {
            if k < init.len() {
                let prev = place_all(m, init);
                assert(init[k] == leaves[k]);
                assert forall|j: int| 0 <= j < k implies leaf_keys(init)[j] != init[k].h@ by {
                    assert(leaf_keys(init)[j] == keys[j]);
                }
                assert(leaf_keys(init)[k] == leaves[k].h@);
                assert(leaf_keys(init).contains(leaves[k].h@));
                assert(prev.contains_key(leaves[k].h@));
                assert(prev[init[k].h@] == pairs(init[k].views@));
            } else {
                assert(!leaf_keys(init).contains(leaves[k].h@)) by {
                    if leaf_keys(init).contains(leaves[k].h@) {
                        let j = leaf_keys(init).index_of(leaves[k].h@);
                        assert(keys[j] == leaves[k].h@);
                    }
                }
                assert(!place_all(m, init).contains_key(leaves[k].h@));
            }
        }
    }
}

} // verus!
