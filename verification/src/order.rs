//! Canonical sets: strictly ascending vectors of ids and of byte strings.

use vstd::prelude::*;

verus! {

/// Strictly ascending, hence sorted and free of duplicates.
pub open spec fn ascending(s: Seq<u32>) -> bool {
    forall|i: int, j: int| 0 <= i < j < s.len() ==> s[i] < s[j]
}

/// An ascending sequence is determined by the set of its elements.
pub proof fn lemma_ascending_unique(a: Seq<u32>, b: Seq<u32>)
    requires
        ascending(a),
        ascending(b),
        a.to_set() == b.to_set(),
    ensures
        a == b,
    decreases a.len(),
{
    if a.len() == 0 {
        if b.len() > 0 {
            assert(b.to_set().contains(b[0]));
            assert(a.contains(b[0]));
        }
        assert(a =~= b);
    } else {
        assert(a.to_set().contains(a.last()));
        assert(b.contains(a.last()));
        assert(b.to_set().contains(b.last()));
        assert(a.contains(b.last()));
        assert(a.last() == b.last());
        let x = a.last();
        let a2 = a.drop_last();
        let b2 = b.drop_last();
        assert forall|y: u32| a2.contains(y) implies b2.contains(y) by {
            let i = a2.index_of(y);
            assert(a[i] == y);
            assert(a.to_set().contains(y));
            assert(b.contains(y));
            let j = b.index_of(y);
            assert(b2[j] == y);
        }
        assert forall|y: u32| b2.contains(y) implies a2.contains(y) by {
            let i = b2.index_of(y);
            assert(b[i] == y);
            assert(b.to_set().contains(y));
            assert(a.contains(y));
            let j = a.index_of(y);
            assert(a2[j] == y);
        }
        assert(a2.to_set() =~= b2.to_set());
        lemma_ascending_unique(a2, b2);
        assert(a =~= a2.push(x));
        assert(b =~= b2.push(x));
    }
}

/// Inserting an element anywhere adds it to the set of elements.
pub proof fn lemma_insert_to_set<T>(s: Seq<T>, i: int, x: T)
    requires
        0 <= i <= s.len(),
    ensures
        s.insert(i, x).to_set() == s.to_set().insert(x),
{
    let t = s.insert(i, x);
    assert forall|y: T| #[trigger] t.to_set().contains(y) == s.to_set().insert(x).contains(y) by {
        if t.contains(y) {
            let k = t.index_of(y);
            if k < i {
                assert(s[k] == y);
            } else if k > i {
                assert(s[k - 1] == y);
            }
        }
        if y == x {
            assert(t[i] == x);
        } else if s.contains(y) {
            let k = s.index_of(y);
            if k < i {
                assert(t[k] == y);
            } else {
                assert(t[k + 1] == y);
            }
        }
    }
    assert(t.to_set() =~= s.to_set().insert(x));
}

/// Where `x` stands, or would stand, in the ascending vector `v`.
fn id_rank(v: &Vec<u32>, x: u32) -> (i: usize)
    requires
        ascending(v@),
    ensures
        i <= v@.len(),
        forall|k: int| 0 <= k < i ==> v@[k] < x,
        forall|k: int| i <= k < v@.len() ==> x <= v@[k],
{
    let mut lo: usize = 0;
    let mut hi: usize = v.len();
    while lo < hi
        invariant
            ascending(v@),
            lo <= hi <= v@.len(),
            forall|k: int| 0 <= k < lo ==> v@[k] < x,
            forall|k: int| hi <= k < v@.len() ==> x <= v@[k],
        decreases hi - lo,
    {
        let mid = lo + (hi - lo) / 2;
        if v[mid] < x {
            lo = mid + 1;
        } else {
            hi = mid;
        }
    }
    lo
}

/// Whether the ascending vector `v` holds `x`.
pub fn holds_id(v: &Vec<u32>, x: u32) -> (b: bool)
    requires
        ascending(v@),
    ensures
        b == v@.contains(x),
{
    let i = id_rank(v, x);
    if i < v.len() && v[i] == x {
        true
    } else {
        assert(!v@.contains(x));
        false
    }
}

/// Add `x` to the ascending vector `v`, keeping it ascending.
pub fn insert_id(v: &mut Vec<u32>, x: u32)
    requires
        ascending(old(v)@),
    ensures
        ascending(final(v)@),
        final(v)@.to_set() == old(v)@.to_set().insert(x),
{
    let ghost v0 = v@;
    let i = id_rank(v, x);
    if i < v.len() && v[i] == x {
        assert(v0.to_set() =~= v0.to_set().insert(x));
    } else {
        v.insert(i, x);
        proof {
            lemma_insert_to_set(v0, i as int, x);
        }
    }
}

/// The distinct ids of `xs`, in ascending order.
pub fn sorted_ids(xs: &[u32]) -> (r: Vec<u32>)
    ensures
        ascending(r@),
        r@.to_set() == xs@.to_set(),
{
    let mut r: Vec<u32> = Vec::new();
    assert(r@.to_set() =~= xs@.take(0).to_set());
    for i in 0..xs.len()
        invariant
            ascending(r@),
            r@.to_set() == xs@.take(i as int).to_set(),
    {
        insert_id(&mut r, xs[i]);
        proof {
            let t = xs@.take(i as int);
            assert(xs@.take(i + 1) =~= t.push(xs@[i as int]));
            t.lemma_push_to_set_commute(xs@[i as int]);
        }
    }
    assert(xs@.take(xs@.len() as int) =~= xs@);
    r
}

// ── Byte strings ───────────────────────────────────────────────────────────

/// The contents of a vector of byte strings.
pub open spec fn tokens(v: Seq<Vec<u8>>) -> Seq<Seq<u8>> {
    v.map_values(|t: Vec<u8>| t@)
}

/// Each byte string once, in order of first appearance.
pub open spec fn first_seen(s: Seq<Seq<u8>>) -> Seq<Seq<u8>>
    decreases s.len(),
{
    if s.len() == 0 {
        Seq::empty()
    } else {
        let rest = first_seen(s.drop_last());
        if rest.contains(s.last()) {
            rest
        } else {
            rest.push(s.last())
        }
    }
}

/// Byte order: the first difference decides, and a proper prefix comes first.
pub open spec fn before(a: Seq<u8>, b: Seq<u8>) -> bool
    decreases a.len(),
{
    if b.len() == 0 {
        false
    } else if a.len() == 0 {
        true
    } else if a[0] != b[0] {
        a[0] < b[0]
    } else {
        before(a.drop_first(), b.drop_first())
    }
}

/// Strictly ascending in byte order, hence sorted and free of duplicates.
pub open spec fn ascending_tokens(s: Seq<Seq<u8>>) -> bool {
    forall|i: int, j: int| 0 <= i < j < s.len() ==> before(#[trigger] s[i], #[trigger] s[j])
}

/// No byte string precedes itself.
pub proof fn lemma_before_irreflexive(a: Seq<u8>)
    ensures
        !before(a, a),
    decreases a.len(),
{
    if a.len() > 0 {
        lemma_before_irreflexive(a.drop_first());
    }
}

/// Of two distinct byte strings, exactly one precedes the other.
pub proof fn lemma_before_total(a: Seq<u8>, b: Seq<u8>)
    ensures
        a != b ==> (before(a, b) <==> !before(b, a)),
    decreases a.len(),
{
    if a.len() > 0 && b.len() > 0 {
        if a[0] == b[0] {
            lemma_before_total(a.drop_first(), b.drop_first());
            if a.drop_first() == b.drop_first() {
                assert(a =~= seq![a[0]] + a.drop_first());
                assert(b =~= seq![b[0]] + b.drop_first());
            }
        }
    } else if a.len() == 0 && b.len() == 0 {
        assert(a =~= b);
    }
}

/// Byte order is transitive.
pub proof fn lemma_before_transitive(a: Seq<u8>, b: Seq<u8>, c: Seq<u8>)
    requires
        before(a, b),
        before(b, c),
    ensures
        before(a, c),
    decreases a.len(),
{
    if a.len() > 0 && b.len() > 0 && c.len() > 0 && a[0] == b[0] && b[0] == c[0] {
        lemma_before_transitive(a.drop_first(), b.drop_first(), c.drop_first());
    }
}

/// An ascending sequence of byte strings is determined by the set of its
/// elements.
pub proof fn lemma_ascending_tokens_unique(a: Seq<Seq<u8>>, b: Seq<Seq<u8>>)
    requires
        ascending_tokens(a),
        ascending_tokens(b),
        a.to_set() == b.to_set(),
    ensures
        a == b,
    decreases a.len(),
{
    if a.len() == 0 {
        if b.len() > 0 {
            assert(b.to_set().contains(b[0]));
            assert(a.contains(b[0]));
        }
        assert(a =~= b);
    } else {
        assert(a.to_set().contains(a.last()));
        assert(b.contains(a.last()));
        assert(b.to_set().contains(b.last()));
        assert(a.contains(b.last()));
        let x = a.last();
        let i = b.index_of(a.last());
        let j = a.index_of(b.last());
        if a.last() != b.last() {
            assert(before(b[i], b[b.len() - 1]));
            assert(before(a[j], a[a.len() - 1]));
            lemma_before_total(a.last(), b.last());
        }
        let a2 = a.drop_last();
        let b2 = b.drop_last();
        lemma_before_irreflexive(x);
        assert forall|y: Seq<u8>| a2.contains(y) implies b2.contains(y) by {
            let k = a2.index_of(y);
            assert(a[k] == y);
            assert(before(a[k], a[a.len() - 1]));
            assert(a.to_set().contains(y));
            assert(b.contains(y));
            let l = b.index_of(y);
            assert(l < b2.len());
            assert(b2[l] == y);
        }
        assert forall|y: Seq<u8>| b2.contains(y) implies a2.contains(y) by {
            let k = b2.index_of(y);
            assert(b[k] == y);
            assert(before(b[k], b[b.len() - 1]));
            assert(b.to_set().contains(y));
            assert(a.contains(y));
            let l = a.index_of(y);
            assert(l < a2.len());
            assert(a2[l] == y);
        }
        assert(a2.to_set() =~= b2.to_set());
        lemma_ascending_tokens_unique(a2, b2);
        assert(a =~= a2.push(x));
        assert(b =~= b2.push(x));
    }
}

/// Whether two byte strings are equal.
pub fn same_bytes(a: &[u8], b: &[u8]) -> (r: bool)
    ensures
        r == (a@ == b@),
{
    if a.len() != b.len() {
        return false;
    }
    for i in 0..a.len()
        invariant
            a@.len() == b@.len(),
            forall|k: int| 0 <= k < i ==> a@[k] == b@[k],
    {
        if a[i] != b[i] {
            return false;
        }
    }
    assert(a@ =~= b@);
    true
}

/// Whether `a` precedes `b` in byte order.
pub fn bytes_before(a: &[u8], b: &[u8]) -> (r: bool)
    ensures
        r == before(a@, b@),
{
    let mut i: usize = 0;
    assert(a@.skip(0) =~= a@);
    assert(b@.skip(0) =~= b@);
    while i < a.len() && i < b.len() && a[i] == b[i]
        invariant
            i <= a@.len(),
            i <= b@.len(),
            before(a@.skip(i as int), b@.skip(i as int)) == before(a@, b@),
        decreases a@.len() - i,
    {
        assert(a@.skip(i as int).drop_first() =~= a@.skip(i + 1));
        assert(b@.skip(i as int).drop_first() =~= b@.skip(i + 1));
        i = i + 1;
    }
    if i == b.len() {
        false
    } else if i == a.len() {
        true
    } else {
        a[i] < b[i]
    }
}

/// Where `t` first stands in `v`.
pub fn find_token(v: &Vec<Vec<u8>>, t: &[u8]) -> (r: Option<usize>)
    ensures
        match r {
            Some(i) => i < v@.len() && v@[i as int]@ == t@ && (forall|j: int|
                0 <= j < i ==> (#[trigger] v@[j])@ != t@),
            None => !tokens(v@).contains(t@),
        },
{
    for i in 0..v.len()
        invariant
            forall|j: int| 0 <= j < i ==> (#[trigger] v@[j])@ != t@,
    {
        if same_bytes(v[i].as_slice(), t) {
            return Some(i);
        }
    }
    proof {
        if tokens(v@).contains(t@) {
            let j = tokens(v@).index_of(t@);
            assert(v@[j]@ == t@);
        }
    }
    None
}

/// A copy of a byte string.
pub fn copy_bytes(t: &[u8]) -> (r: Vec<u8>)
    ensures
        r@ == t@,
{
    let mut r: Vec<u8> = Vec::new();
    for i in 0..t.len()
        invariant
            r@ == t@.take(i as int),
    {
        r.push(t[i]);
        assert(t@.take(i + 1) =~= t@.take(i as int).push(t@[i as int]));
    }
    assert(t@.take(t@.len() as int) =~= t@);
    r
}

/// A copy of a list of byte strings.
pub fn copy_tokens(v: &[Vec<u8>]) -> (r: Vec<Vec<u8>>)
    ensures
        tokens(r@) == tokens(v@),
{
    let mut r: Vec<Vec<u8>> = Vec::new();
    assert(tokens(r@) =~= tokens(v@).take(0));
    for i in 0..v.len()
        invariant
            tokens(r@) == tokens(v@).take(i as int),
    {
        let ghost r0 = r@;
        r.push(copy_bytes(v[i].as_slice()));
        assert(tokens(r@) =~= tokens(r0).push(v@[i as int]@));
        assert(tokens(v@).take(i + 1) =~= tokens(v@).take(i as int).push(v@[i as int]@));
    }
    assert(tokens(v@).take(v@.len() as int) =~= tokens(v@));
    r
}

/// Add `t` to the ascending vector `v`, keeping it ascending.
pub fn insert_token(v: &mut Vec<Vec<u8>>, t: Vec<u8>)
    requires
        ascending_tokens(tokens(old(v)@)),
    ensures
        ascending_tokens(tokens(final(v)@)),
        tokens(final(v)@).to_set() == tokens(old(v)@).to_set().insert(t@),
{
    let ghost v0 = v@;
    let ghost s0 = tokens(v0);
    let mut i: usize = 0;
    while i < v.len() && bytes_before(v[i].as_slice(), t.as_slice())
        invariant
            v@ == v0,
            s0 == tokens(v0),
            i <= v@.len(),
            forall|k: int| 0 <= k < i ==> before(#[trigger] s0[k], t@),
        decreases v@.len() - i,
    {
        i = i + 1;
    }
    if i < v.len() && same_bytes(v[i].as_slice(), t.as_slice()) {
        assert(s0[i as int] == t@);
        assert(s0.to_set().contains(t@));
        assert(s0.to_set() =~= s0.to_set().insert(t@));
    } else {
        let ghost x = t@;
        v.insert(i, t);
        proof {
            assert(tokens(v@) =~= s0.insert(i as int, x));
            lemma_insert_to_set(s0, i as int, x);
            assert forall|k: int| i <= k < s0.len() implies before(x, #[trigger] s0[k]) by {
                lemma_before_total(x, s0[i as int]);
                if k > i {
                    assert(before(s0[i as int], s0[k]));
                    lemma_before_transitive(x, s0[i as int], s0[k]);
                }
            }
        }
    }
}

} // verus!
