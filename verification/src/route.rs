//! Breadth-first search over a dense weight matrix.
//!
//! A route is a sequence of row indices joined by positive weights. Routes
//! are ordered by length first and then, index by index, lexicographically;
//! [`first_route`] returns the least route between two indices.

use std::collections::VecDeque;
use vstd::prelude::*;

verus! {

/// The weight of the step from row `i` to column `j` of an `n`-column,
/// row-major matrix is positive.
pub open spec fn step(cells: Seq<i64>, n: int, i: int, j: int) -> bool {
    cells[i * n + j] > 0
}

/// `q` runs from index `s` to index `e` along positive weights.
pub open spec fn is_route(cells: Seq<i64>, n: int, q: Seq<int>, s: int, e: int) -> bool {
    &&& q.len() > 0
    &&& q[0] == s
    &&& q.last() == e
    &&& forall|k: int| 0 <= k < q.len() ==> 0 <= #[trigger] q[k] < n
    &&& forall|k: int|
        0 <= k < q.len() - 1 ==> step(cells, n, #[trigger] q[k], q[k + 1])
}

/// At the first position where they differ, `p` holds the smaller index.
pub open spec fn lex_before(p: Seq<int>, q: Seq<int>) -> bool {
    exists|k: int|
        0 <= k < p.len() && k < q.len() && #[trigger] p[k] < q[k] && p.take(k) == q.take(k)
}

/// `p` is shorter than `q`, or as long and lexicographically smaller.
pub open spec fn before(p: Seq<int>, q: Seq<int>) -> bool {
    p.len() < q.len() || (p.len() == q.len() && lex_before(p, q))
}

/// `p` comes no later than `q`.
pub open spec fn no_later(p: Seq<int>, q: Seq<int>) -> bool {
    p == q || before(p, q)
}

proof fn lemma_before_transitive(p: Seq<int>, q: Seq<int>, r: Seq<int>)
    requires
        before(p, q),
        before(q, r),
    ensures
        before(p, r),
{
    if p.len() == q.len() && q.len() == r.len() {
        let a = choose|k: int|
            0 <= k < p.len() && k < q.len() && #[trigger] p[k] < q[k] && p.take(k) == q.take(k);
        let b = choose|k: int|
            0 <= k < q.len() && k < r.len() && #[trigger] q[k] < r[k] && q.take(k) == r.take(k);
        let c = if a <= b { a } else { b };
        assert(p.take(c) =~= p.take(a).take(c));
        assert(q.take(c) =~= q.take(a).take(c));
        assert(q.take(c) =~= q.take(b).take(c));
        assert(r.take(c) =~= r.take(b).take(c));
        if a < b {
            assert(q[a] == q.take(b)[a] && r[a] == r.take(b)[a]);
        } else if b < a {
            assert(p[b] == p.take(a)[b] && q[b] == q.take(a)[b]);
        }
        assert(p[c] < r[c]);
    }
}

proof fn lemma_before_push(p: Seq<int>, q: Seq<int>, x: int, y: int)
    requires
        before(p, q),
    ensures
        before(p.push(x), q.push(y)),
{
    if p.len() == q.len() {
        let k = choose|k: int|
            0 <= k < p.len() && k < q.len() && #[trigger] p[k] < q[k] && p.take(k) == q.take(k);
        assert(p.push(x).take(k) =~= p.take(k));
        assert(q.push(y).take(k) =~= q.take(k));
        assert(p.push(x)[k] < q.push(y)[k]);
    }
}

proof fn lemma_push_before(p: Seq<int>, x: int, y: int)
    requires
        x < y,
    ensures
        before(p.push(x), p.push(y)),
{
    let k = p.len() as int;
    assert(p.push(x).take(k) =~= p.push(y).take(k));
    assert(p.push(x)[k] < p.push(y)[k]);
}

/// What the search has discovered so far: `order` lists the discovered
/// indices, `routes[k]` is the route found to `order[k]`, and that route
/// extends `routes[parent[k]]`.
spec fn discovered(
    cells: Seq<i64>,
    n: int,
    s: int,
    order: Seq<int>,
    routes: Seq<Seq<int>>,
    parent: Seq<int>,
) -> bool {
    &&& order.len() > 0
    &&& order.len() == routes.len() == parent.len()
    &&& order[0] == s
    &&& routes[0] == seq![s]
    &&& order.no_duplicates()
    &&& forall|k: int| 0 <= k < order.len() ==> 0 <= #[trigger] order[k] < n
    &&& forall|k: int|
        0 <= k < order.len() ==> is_route(cells, n, #[trigger] routes[k], s, order[k])
    &&& forall|k: int|
        0 < k < order.len() ==> 0 <= #[trigger] parent[k] < k && routes[k]
            == routes[parent[k]].push(order[k])
    &&& forall|i: int, j: int|
        0 <= i < j < order.len() ==> before(#[trigger] routes[i], #[trigger] routes[j])
}

/// Column `v` is reachable in one step from the discovered index `order[i]`
/// only if `v` is discovered too, by a route no later than the one through
/// `order[i]`.
spec fn covered(
    cells: Seq<i64>,
    n: int,
    order: Seq<int>,
    routes: Seq<Seq<int>>,
    i: int,
    v: int,
) -> bool {
    step(cells, n, order[i], v) ==> exists|k: int|
        0 <= k < order.len() && order[k] == v && no_later(
            #[trigger] routes[k],
            routes[i].push(v),
        )
}

/// Every route is matched: either its end is discovered by a route no later
/// than it, or the first unexpanded discovery comes no later than it.
proof fn lemma_routes_matched(
    cells: Seq<i64>,
    n: int,
    s: int,
    e: int,
    order: Seq<int>,
    routes: Seq<Seq<int>>,
    parent: Seq<int>,
    done: int,
    q: Seq<int>,
)
    requires
        discovered(cells, n, s, order, routes, parent),
        0 <= done <= order.len(),
        forall|i: int, v: int|
            0 <= i < done && 0 <= v < n ==> #[trigger] covered(cells, n, order, routes, i, v),
        is_route(cells, n, q, s, e),
    ensures
        (exists|k: int|
            0 <= k < order.len() && order[k] == e && no_later(#[trigger] routes[k], q)) || (done
            < order.len() && no_later(routes[done], q)),
    decreases q.len(),
{
    if q.len() == 1 {
        assert(q =~= seq![s]);
        assert(no_later(routes[0], q));
    } else {
        let p = q.drop_last();
        let u = p.last();
        assert(q =~= p.push(e));
        assert forall|k: int| 0 <= k < p.len() - 1 implies step(
            cells,
            n,
            #[trigger] p[k],
            p[k + 1],
        ) by {
            assert(step(cells, n, q[k], q[k + 1]));
        }
        assert(is_route(cells, n, p, s, u));
        lemma_routes_matched(cells, n, s, u, order, routes, parent, done, p);
        assert(before(p, q));
        if done < order.len() && no_later(routes[done], p) {
            if routes[done] != p {
                lemma_before_transitive(routes[done], p, q);
            }
        } else {
            let i = choose|i: int|
                0 <= i < order.len() && order[i] == u && no_later(#[trigger] routes[i], p);
            if i < done {
                assert(step(cells, n, q[q.len() - 2], q[q.len() - 2 + 1]));
                assert(covered(cells, n, order, routes, i, e));
                let k = choose|k: int|
                    0 <= k < order.len() && order[k] == e && no_later(
                        #[trigger] routes[k],
                        routes[i].push(e),
                    );
                if routes[i] != p {
                    lemma_before_push(routes[i], p, e, e);
                    if routes[k] != routes[i].push(e) {
                        lemma_before_transitive(routes[k], routes[i].push(e), q);
                    }
                }
                assert(no_later(routes[k], q));
            } else {
                if i > done {
                    assert(before(routes[done], routes[i]));
                    if routes[i] != p {
                        lemma_before_transitive(routes[done], routes[i], p);
                    }
                }
                if routes[done] != p {
                    lemma_before_transitive(routes[done], p, q);
                }
            }
        }
    }
}

/// Discovering `v` from `order[h]` keeps the record of the search in order.
proof fn lemma_discover(
    cells: Seq<i64>,
    n: int,
    s: int,
    order: Seq<int>,
    routes: Seq<Seq<int>>,
    parent: Seq<int>,
    h: int,
    v: int,
)
    requires
        discovered(cells, n, s, order, routes, parent),
        0 <= h < order.len(),
        0 <= v < n,
        !order.contains(v),
        step(cells, n, order[h], v),
        forall|k: int|
            0 < k < order.len() ==> #[trigger] parent[k] <= h && (parent[k] == h ==> order[k] < v),
    ensures
        discovered(cells, n, s, order.push(v), routes.push(routes[h].push(v)), parent.push(h)),
{
    let order2 = order.push(v);
    let route = routes[h].push(v);
    let routes2 = routes.push(route);
    let parent2 = parent.push(h);
    assert(is_route(cells, n, route, s, v)) by {
        assert(is_route(cells, n, routes[h], s, order[h]));
        assert forall|k: int| 0 <= k < route.len() - 1 implies step(
            cells,
            n,
            #[trigger] route[k],
            route[k + 1],
        ) by {
            if k < route.len() - 2 {
                assert(step(cells, n, routes[h][k], routes[h][k + 1]));
            }
        }
    }
    assert forall|k: int| 0 <= k < order2.len() implies is_route(
        cells,
        n,
        #[trigger] routes2[k],
        s,
        order2[k],
    ) by {
        if k < order.len() {
            assert(is_route(cells, n, routes[k], s, order[k]));
        }
    }
    assert forall|k: int| 0 < k < order2.len() implies 0 <= #[trigger] parent2[k] < k && routes2[k]
        == routes2[parent2[k]].push(order2[k]) by {
        if k < order.len() {
            assert(0 <= parent[k] < k);
        }
    }
    let last = order.len() - 1;
    assert(before(routes[last], route)) by {
        if last == 0 {
            assert(routes[0].len() == 1);
        } else {
            let p = parent[last];
            if p == h {
                lemma_push_before(routes[h], order[last], v);
            } else {
                lemma_before_push(routes[p], routes[h], order[last], v);
            }
        }
    }
    assert forall|i: int, j: int| 0 <= i < j < order2.len() implies before(
        #[trigger] routes2[i],
        #[trigger] routes2[j],
    ) by {
        if j < order.len() {
            assert(before(routes[i], routes[j]));
        } else if i < last {
            assert(before(routes[i], routes[last]));
            lemma_before_transitive(routes[i], routes[last], route);
        }
    }
    assert forall|k: int| 0 <= k < order2.len() implies 0 <= #[trigger] order2[k] < n by {
        if k < order.len() {
            assert(0 <= order[k] < n);
        }
    }
    assert(order2.no_duplicates());
}

/// A covered step stays covered when the record of the search grows.
proof fn lemma_covered_grows(
    cells: Seq<i64>,
    n: int,
    order: Seq<int>,
    routes: Seq<Seq<int>>,
    v: int,
    route: Seq<int>,
    i: int,
    w: int,
)
    requires
        order.len() == routes.len(),
        0 <= i < order.len(),
        covered(cells, n, order, routes, i, w),
    ensures
        covered(cells, n, order.push(v), routes.push(route), i, w),
{
    if step(cells, n, order[i], w) {
        let k = choose|k: int|
            0 <= k < order.len() && order[k] == w && no_later(
                #[trigger] routes[k],
                routes[i].push(w),
            );
        assert(routes.push(route)[k] == routes[k]);
    }
}

/// The row indices of an executable route.
pub open spec fn indices(q: Seq<usize>) -> Seq<int> {
    q.map_values(|i: usize| i as int)
}

proof fn lemma_distinct_bounded(order: Seq<int>, n: int)
    requires
        order.no_duplicates(),
        0 <= n,
        forall|k: int| 0 <= k < order.len() ==> 0 <= #[trigger] order[k] < n,
    ensures
        order.len() <= n,
{
    order.unique_seq_to_set();
    vstd::set_lib::lemma_int_range(0, n);
    vstd::set_lib::lemma_len_subset(order.to_set(), vstd::set_lib::set_int_range(0, n));
}

/// A row and a column below `n` address a cell of an `n * n` matrix.
pub proof fn lemma_cell_bound(i: int, j: int, n: int)
    by (nonlinear_arith)
    requires
        0 <= i < n,
        0 <= j < n,
    ensures
        0 <= i * n <= i * n + j < n * n,
{
}

/// The recorded route to `order[goal]`, read back along `prev`.
fn trace(
    prev: &Vec<usize>,
    s: usize,
    e: usize,
    Ghost(order): Ghost<Seq<int>>,
    Ghost(routes): Ghost<Seq<Seq<int>>>,
    Ghost(parent): Ghost<Seq<int>>,
    Ghost(goal): Ghost<int>,
) -> (q: Vec<usize>)
    requires
        order.len() > 0,
        order.len() == routes.len() == parent.len(),
        order[0] == s,
        routes[0] == seq![s as int],
        order.no_duplicates(),
        forall|k: int| 0 <= k < order.len() ==> 0 <= #[trigger] order[k] < prev@.len(),
        forall|k: int|
            0 < k < order.len() ==> 0 <= #[trigger] parent[k] < k && routes[k]
                == routes[parent[k]].push(order[k]),
        forall|k: int|
            0 < k < order.len() ==> (#[trigger] prev@[order[k]]) as int == order[parent[k]],
        0 <= goal < order.len(),
        order[goal] == e,
    ensures
        indices(q@) == routes[goal],
{
    let mut back: Vec<usize> = Vec::new();
    let mut cur: usize = e;
    let ghost mut k: int = goal;
    assert(routes[k] + indices(back@).reverse() =~= routes[goal]);
    while cur != s
        invariant
            order.len() > 0,
            order.len() == routes.len() == parent.len(),
            order[0] == s,
            order.no_duplicates(),
            forall|k: int| 0 <= k < order.len() ==> 0 <= #[trigger] order[k] < prev@.len(),
            forall|k: int|
                0 < k < order.len() ==> 0 <= #[trigger] parent[k] < k && routes[k]
                    == routes[parent[k]].push(order[k]),
            forall|k: int|
                0 < k < order.len() ==> (#[trigger] prev@[order[k]]) as int == order[parent[k]],
            0 <= k < order.len(),
            order[k] == cur,
            routes[k] + indices(back@).reverse() == routes[goal],
        decreases k,
    {
        let ghost back0 = back@;
        assert(k > 0);
        assert(0 <= parent[k] < k);
        assert(prev@[order[k]] as int == order[parent[k]]);
        back.push(cur);
        cur = prev[cur];
        proof {
            let p = parent[k];
            assert(routes[p] + indices(back@).reverse() =~= routes[k] + indices(back0).reverse());
            k = p;
        }
    }
    assert(k == 0);
    let ghost back0 = back@;
    back.push(s);
    assert(indices(back@).reverse() =~= routes[0] + indices(back0).reverse());
    let mut q: Vec<usize> = Vec::new();
    let m = back.len();
    for i in 0..m
        invariant
            m == back@.len(),
            q@.len() == i,
            forall|j: int| 0 <= j < i ==> q@[j] == back@[m - 1 - j],
    {
        q.push(back[m - 1 - i]);
    }
    assert(indices(q@) =~= indices(back@).reverse());
    q
}

/// The least route from `s` to `e` (shortest, then lexicographically
/// smallest), or `None` when no route exists.
pub fn first_route(cells: &Vec<i64>, n: usize, s: usize, e: usize) -> (r: Option<Vec<usize>>)
    requires
        cells@.len() == n * n,
        s < n,
        e < n,
    ensures
        match r {
            Some(q) => {
                &&& is_route(cells@, n as int, indices(q@), s as int, e as int)
                &&& forall|p: Seq<int>| #[trigger]
                    is_route(cells@, n as int, p, s as int, e as int) ==> no_later(
                        indices(q@),
                        p,
                    )
            },
            None => forall|p: Seq<int>| !is_route(cells@, n as int, p, s as int, e as int),
        },
{
    let mut prev: Vec<usize> = vec![n; n];
    let mut seen: Vec<bool> = vec![false; n];
    let mut queue: VecDeque<usize> = VecDeque::new();
    queue.push_back(s);
    seen.set(s, true);
    let ghost mut order: Seq<int> = seq![s as int];
    let ghost mut routes: Seq<Seq<int>> = seq![seq![s as int]];
    let ghost mut parent: Seq<int> = seq![0int];
    let ghost mut done: int = 0;
    let total = cells.len();
    assert(indices(queue@) =~= order.skip(0));
    assert forall|v: int| 0 <= v < n implies (#[trigger] seen@[v] <==> order.contains(v)) by {
        if v == s {
            assert(order[0] == v);
        }
    }
    let mut found: bool = false;
    while !found && queue.len() > 0
        invariant
            cells@.len() == n * n,
            total == n * n,
            s < n,
            e < n,
            prev@.len() == n,
            seen@.len() == n,
            discovered(cells@, n as int, s as int, order, routes, parent),
            0 <= done <= order.len(),
            indices(queue@) == order.skip(done),
            forall|v: int| 0 <= v < n ==> (#[trigger] seen@[v] <==> order.contains(v)),
            forall|k: int|
                0 < k < order.len() ==> (#[trigger] prev@[order[k]]) as int == order[parent[k]],
            forall|k: int| 0 < k < order.len() ==> #[trigger] parent[k] < done,
            forall|i: int, v: int|
                0 <= i < done && 0 <= v < n ==> #[trigger] covered(
                    cells@,
                    n as int,
                    order,
                    routes,
                    i,
                    v,
                ),
            found ==> done < order.len() && order[done] == e,
        decreases (if found { 0int } else { n + 1 - done }),
    {
        let ghost h = done;
        proof {
            assert(indices(queue@).len() == queue@.len());
            assert(order.skip(h).len() == order.len() - h);
            assert(indices(queue@)[0] == order.skip(h)[0]);
            assert(order.len() <= n) by {
                lemma_distinct_bounded(order, n as int);
            }
        }
        if queue[0] == e {
            found = true;
        } else {
            let ghost queue0 = queue@;
            let u = queue.pop_front().unwrap();
            assert(indices(queue@) =~= order.skip(h + 1)) by {
                assert forall|k: int| 0 <= k < queue@.len() implies indices(queue@)[k]
                    == order.skip(h + 1)[k] by {
                    assert(indices(queue0)[k + 1] == order.skip(h)[k + 1]);
                }
            }
            for v in 0..n
                invariant
                    cells@.len() == n * n,
                    total == n * n,
                    s < n,
                    u < n,
                    prev@.len() == n,
                    seen@.len() == n,
                    discovered(cells@, n as int, s as int, order, routes, parent),
                    0 <= h < order.len(),
                    order[h] == u,
                    indices(queue@) == order.skip(h + 1),
                    forall|w: int| 0 <= w < n ==> (#[trigger] seen@[w] <==> order.contains(w)),
                    forall|k: int|
                        0 < k < order.len() ==> (#[trigger] prev@[order[k]]) as int
                            == order[parent[k]],
                    forall|k: int|
                        0 < k < order.len() ==> #[trigger] parent[k] <= h && (parent[k] == h
                            ==> order[k] < v),
                    forall|i: int, w: int|
                        0 <= i < h && 0 <= w < n ==> #[trigger] covered(
                            cells@,
                            n as int,
                            order,
                            routes,
                            i,
                            w,
                        ),
                    forall|w: int|
                        0 <= w < v ==> #[trigger] covered(
                            cells@,
                            n as int,
                            order,
                            routes,
                            h,
                            w,
                        ),
            {
                proof {
                    lemma_cell_bound(u as int, v as int, n as int);
                }
                let ghost order0 = order;
                let ghost routes0 = routes;
                let ghost parent0 = parent;
                if !seen[v] && cells[u * n + v] > 0 {
                    let ghost prev0 = prev@;
                    let ghost pending = queue@;
                    seen.set(v, true);
                    prev.set(v, u);
                    queue.push_back(v);
                    proof {
                        lemma_discover(
                            cells@,
                            n as int,
                            s as int,
                            order,
                            routes,
                            parent,
                            h,
                            v as int,
                        );
                        let route = routes[h].push(v as int);
                        order = order.push(v as int);
                        routes = routes.push(route);
                        parent = parent.push(h);
                        assert forall|i: int, w: int|
                            0 <= i < h && 0 <= w < n implies #[trigger] covered(
                            cells@,
                            n as int,
                            order,
                            routes,
                            i,
                            w,
                        ) by {
                            assert(covered(cells@, n as int, order0, routes0, i, w));
                            lemma_covered_grows(
                                cells@,
                                n as int,
                                order0,
                                routes0,
                                v as int,
                                route,
                                i,
                                w,
                            );
                        }
                        assert forall|w: int| 0 <= w < v implies #[trigger] covered(
                            cells@,
                            n as int,
                            order,
                            routes,
                            h,
                            w,
                        ) by {
                            assert(covered(cells@, n as int, order0, routes0, h, w));
                            lemma_covered_grows(
                                cells@,
                                n as int,
                                order0,
                                routes0,
                                v as int,
                                route,
                                h,
                                w,
                            );
                        }
                        let last = order.len() - 1;
                        assert(no_later(routes[last], routes[h].push(v as int)));
                        assert(covered(cells@, n as int, order, routes, h, v as int));
                        assert(indices(queue@) =~= indices(pending).push(v as int));
                        assert(order.skip(h + 1) =~= order0.skip(h + 1).push(v as int));
                        assert forall|w: int| 0 <= w < n implies (#[trigger] seen@[w]
                            <==> order.contains(w)) by {
                            if w == v {
                                assert(order[last] == v);
                            } else if order0.contains(w) {
                                let k = order0.index_of(w);
                                assert(order[k] == w);
                            }
                        }
                        assert forall|k: int| 0 < k < order.len() implies (#[trigger] prev@[order[k]]) as int
                            == order[parent[k]] by {
                            if k < last {
                                assert(order0[k] == order[k]);
                                assert(0 <= order0[k] < n);
                                assert(0 <= parent0[k] < k);
                                assert(prev0[order0[k]] as int == order0[parent0[k]]);
                            }
                        }
                    }
                } else {
                    proof {
                        if step(cells@, n as int, u as int, v as int) {
                            let k = order.index_of(v as int);
                            assert(order[k] == v);
                            if k == 0 {
                                assert(before(routes[0], routes[h].push(v as int)));
                            } else {
                                assert(parent[k] <= h);
                                if parent[k] < h {
                                    assert(before(routes[parent[k]], routes[h]));
                                    lemma_before_push(
                                        routes[parent[k]],
                                        routes[h],
                                        v as int,
                                        v as int,
                                    );
                                }
                            }
                            assert(no_later(routes[k], routes[h].push(v as int)));
                        }
                        assert(covered(cells@, n as int, order, routes, h, v as int));
                    }
                }
            }
            proof {
                done = h + 1;
            }
        }
    }
    if !seen[e] {
        proof {
            assert forall|p: Seq<int>| !is_route(cells@, n as int, p, s as int, e as int) by {
                if is_route(cells@, n as int, p, s as int, e as int) {
                    lemma_routes_matched(
                        cells@,
                        n as int,
                        s as int,
                        e as int,
                        order,
                        routes,
                        parent,
                        done,
                        p,
                    );
                    if done == order.len() {
                        let k = choose|k: int|
                            0 <= k < order.len() && order[k] == e && no_later(
                                #[trigger] routes[k],
                                p,
                            );
                        assert(order.contains(e as int));
                    }
                }
            }
        }
        return None;
    }
    let ghost goal: int = order.index_of(e as int);
    proof {
        assert(order[goal] == e && 0 <= goal < order.len());
        assert forall|p: Seq<int>| #[trigger]
            is_route(cells@, n as int, p, s as int, e as int) implies no_later(
            routes[goal],
            p,
        ) by {
            lemma_routes_matched(
                cells@,
                n as int,
                s as int,
                e as int,
                order,
                routes,
                parent,
                done,
                p,
            );
        }
    }
    let q = trace(&prev, s, e, Ghost(order), Ghost(routes), Ghost(parent), Ghost(goal));
    Some(q)
}

} // verus!
