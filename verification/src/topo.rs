//! Topological ordering of a directed graph on the nodes `0..n` (Kahn's algorithm, first in
//! first out, each node's successors visited by increasing index).
use vstd::prelude::*;
use vstd::set_lib::lemma_len_subset;
use vstd::set_lib::lemma_subset_equality;

verus! {

/// `order` lists every node of `0..n` once, and no edge leads from a node to itself or to a
/// node listed before it.
pub open spec fn is_topological_order(order: Seq<usize>, n: nat, edges: Seq<(usize, usize)>) -> bool {
    &&& order.len() == n
    &&& order.no_duplicates()
    &&& forall|i: int| 0 <= i < order.len() ==> #[trigger] order[i] < n
    &&& forall|i: int, j: int|
        0 <= i <= j < order.len() ==> !edges.contains((#[trigger] order[j], #[trigger] order[i]))
}

/// The position of the last source of `w` among the first `k` entries of `o`, or -1 when
/// none of them has an edge to `w`.
pub open spec fn last_source(o: Seq<usize>, edges: Seq<(usize, usize)>, w: usize, k: int) -> int
    decreases k,
{
    if k <= 0 {
        -1
    } else if edges.contains((o[k - 1], w)) {
        k - 1
    } else {
        last_source(o, edges, w, k - 1)
    }
}

/// Whether a node keyed `(a, x)` comes before one keyed `(b, y)`: by key, then by index.
pub open spec fn key_before(a: int, x: usize, b: int, y: usize) -> bool {
    a < b || (a == b && x < y)
}

/// `o` lists its nodes in the order breadth-first Kahn takes them when each node's
/// successors are visited by increasing index: nodes with no source first, then each node
/// after the last of its sources, and nodes sharing that last source by increasing index.
pub open spec fn is_breadth_first_order(o: Seq<usize>, edges: Seq<(usize, usize)>) -> bool {
    forall|i: int, j: int|
        #![trigger o[i], o[j]]
        0 <= i < j < o.len() ==> key_before(
            last_source(o, edges, o[i], o.len() as int),
            o[i],
            last_source(o, edges, o[j], o.len() as int),
            o[j],
        )
}

/// Both ends of every edge are nodes of `0..n`.
pub open spec fn edges_within(edges: Seq<(usize, usize)>, n: nat) -> bool {
    forall|e: int| 0 <= e < edges.len() ==> (#[trigger] edges[e]).0 < n && edges[e].1 < n
}

/// The number of edges into `v` whose source is not in `done`.
spec fn pending(edges: Seq<(usize, usize)>, v: usize, done: Seq<usize>) -> nat
    decreases edges.len(),
{
    if edges.len() == 0 {
        0
    } else {
        pending(edges.drop_last(), v, done) + if edges.last().1 == v && !done.contains(
            edges.last().0,
        ) {
            1nat
        } else {
            0nat
        }
    }
}

/// The number of edges from `u` to `v`.
spec fn edge_count(edges: Seq<(usize, usize)>, u: usize, v: usize) -> nat
    decreases edges.len(),
{
    if edges.len() == 0 {
        0
    } else {
        edge_count(edges.drop_last(), u, v) + if edges.last() == (u, v) {
            1nat
        } else {
            0nat
        }
    }
}

/// The number of times `v` occurs in `s`.
spec fn occurrences(s: Seq<usize>, v: usize) -> nat
    decreases s.len(),
{
    if s.len() == 0 {
        0
    } else {
        occurrences(s.drop_last(), v) + if s.last() == v {
            1nat
        } else {
            0nat
        }
    }
}

spec fn sorted(s: Seq<usize>) -> bool {
    forall|i: int, j: int| 0 <= i <= j < s.len() ==> s[i] <= s[j]
}

proof fn lemma_pending_step(edges: Seq<(usize, usize)>, k: int, v: usize, done: Seq<usize>)
    requires
        0 <= k < edges.len(),
    ensures
        pending(edges.take(k + 1), v, done) == pending(edges.take(k), v, done) + if edges[k].1
            == v && !done.contains(edges[k].0) {
            1nat
        } else {
            0nat
        },
        edge_count(edges.take(k + 1), edges[k].0, v) == edge_count(edges.take(k), edges[k].0, v)
            + if edges[k].1 == v {
            1nat
        } else {
            0nat
        },
        forall|u: usize|
            u != edges[k].0 ==> edge_count(edges.take(k + 1), u, v) == edge_count(
                edges.take(k),
                u,
                v,
            ),
{
    assert(edges.take(k + 1).drop_last() =~= edges.take(k));
    assert(edges.take(k + 1).last() == edges[k]);
}

proof fn lemma_pending_bound(edges: Seq<(usize, usize)>, v: usize, done: Seq<usize>)
    ensures
        pending(edges, v, done) <= edges.len(),
    decreases edges.len(),
{
    if edges.len() > 0 {
        lemma_pending_bound(edges.drop_last(), v, done);
    }
}

proof fn lemma_push_contains(s: Seq<usize>, u: usize, x: usize)
    ensures
        s.push(u).contains(x) <==> (s.contains(x) || x == u),
{
    if s.contains(x) {
        let b = choose|b: int| 0 <= b < s.len() && s[b] == x;
        assert(s.push(u)[b] == x);
    }
    if x == u {
        assert(s.push(u)[s.len() as int] == x);
    }
    if s.push(u).contains(x) {
        let b = choose|b: int| 0 <= b < s.len() + 1 && s.push(u)[b] == x;
        if b < s.len() {
            assert(s[b] == x);
        }
    }
}

/// Finishing node `u` settles its edges into `v`.
proof fn lemma_pending_done(edges: Seq<(usize, usize)>, v: usize, done: Seq<usize>, u: usize)
    requires
        !done.contains(u),
    ensures
        pending(edges, v, done.push(u)) + edge_count(edges, u, v) == pending(edges, v, done),
    decreases edges.len(),
{
    if edges.len() > 0 {
        lemma_pending_done(edges.drop_last(), v, done, u);
        lemma_push_contains(done, u, edges.last().0);
    }
}

/// No pending edge into `v`: every edge into `v` comes from a node in `done`.
proof fn lemma_pending_zero(edges: Seq<(usize, usize)>, v: usize, done: Seq<usize>)
    requires
        pending(edges, v, done) == 0,
    ensures
        forall|e: int| 0 <= e < edges.len() && (#[trigger] edges[e]).1 == v ==> done.contains(edges[e].0),
    decreases edges.len(),
{
    if edges.len() > 0 {
        lemma_pending_zero(edges.drop_last(), v, done);
        assert forall|e: int| 0 <= e < edges.len() && (#[trigger] edges[e]).1 == v implies done.contains(
            edges[e].0,
        ) by {
            if e < edges.len() - 1 {
                assert(edges.drop_last()[e] == edges[e]);
            }
        }
    }
}

/// A pending edge into `v` exists when the count is positive.
proof fn lemma_pending_pos(edges: Seq<(usize, usize)>, v: usize, done: Seq<usize>) -> (e: int)
    requires
        pending(edges, v, done) > 0,
    ensures
        0 <= e < edges.len(),
        edges[e].1 == v,
        !done.contains(edges[e].0),
    decreases edges.len(),
{
    if edges.last().1 == v && !done.contains(edges.last().0) {
        edges.len() - 1
    } else {
        let e = lemma_pending_pos(edges.drop_last(), v, done);
        assert(edges.drop_last()[e] == edges[e]);
        e
    }
}

proof fn lemma_occurrences_take(s: Seq<usize>, k: int, v: usize)
    requires
        0 <= k < s.len(),
    ensures
        occurrences(s.take(k + 1), v) == occurrences(s.take(k), v) + if s[k] == v {
            1nat
        } else {
            0nat
        },
{
    assert(s.take(k + 1).drop_last() =~= s.take(k));
    assert(s.take(k + 1).last() == s[k]);
}

proof fn lemma_occurrences_prefix(s: Seq<usize>, k: int, v: usize)
    requires
        0 <= k <= s.len(),
    ensures
        occurrences(s.take(k), v) <= occurrences(s, v),
    decreases s.len() - k,
{
    if k < s.len() {
        lemma_occurrences_take(s, k, v);
        lemma_occurrences_prefix(s, k + 1, v);
    } else {
        assert(s.take(k) =~= s);
    }
}

proof fn lemma_occurrences_concat(a: Seq<usize>, b: Seq<usize>, v: usize)
    ensures
        occurrences(a + b, v) == occurrences(a, v) + occurrences(b, v),
    decreases b.len(),
{
    if b.len() == 0 {
        assert(a + b =~= a);
    } else {
        lemma_occurrences_concat(a, b.drop_last(), v);
        assert((a + b).drop_last() =~= a + b.drop_last());
        assert((a + b).last() == b.last());
    }
}

proof fn lemma_occurrences_positive(s: Seq<usize>, v: usize)
    requires
        occurrences(s, v) > 0,
    ensures
        s.contains(v),
    decreases s.len(),
{
    if s.last() == v {
        assert(s[s.len() - 1] == v);
    } else {
        lemma_occurrences_positive(s.drop_last(), v);
        let b = choose|b: int| 0 <= b < s.drop_last().len() && s.drop_last()[b] == v;
        assert(s[b] == v);
    }
}

proof fn lemma_edge_count_positive(edges: Seq<(usize, usize)>, u: usize, v: usize)
    requires
        edge_count(edges, u, v) > 0,
    ensures
        edges.contains((u, v)),
    decreases edges.len(),
{
    if edges.last() == (u, v) {
        assert(edges[edges.len() - 1] == (u, v));
    } else {
        lemma_edge_count_positive(edges.drop_last(), u, v);
        let b = choose|b: int| 0 <= b < edges.drop_last().len() && edges.drop_last()[b] == (u, v);
        assert(edges[b] == (u, v));
    }
}

/// The nodes `0..n` as a set.
spec fn node_set(n: nat) -> Set<usize> {
    Set::new(|v: usize| v < n)
}

proof fn lemma_node_set(n: nat)
    requires
        n <= usize::MAX + 1,
    ensures
        node_set(n).finite(),
        node_set(n).len() == n,
    decreases n,
{
    if n == 0 {
        assert(node_set(n) =~= Set::empty());
    } else {
        lemma_node_set((n - 1) as nat);
        assert(node_set((n - 1) as nat).insert((n - 1) as usize) =~= node_set(n));
    }
}

/// A list of distinct nodes of `0..n` has at most `n` items, and exactly `n` only if it
/// lists them all.
proof fn lemma_pigeonhole(s: Seq<usize>, n: nat)
    requires
        n <= usize::MAX + 1,
        s.no_duplicates(),
        forall|i: int| 0 <= i < s.len() ==> #[trigger] s[i] < n,
    ensures
        s.len() <= n,
        s.len() == n ==> forall|v: usize| v < n ==> s.contains(v),
{
    lemma_node_set(n);
    s.unique_seq_to_set();
    assert(s.to_set().subset_of(node_set(n))) by {
        assert forall|v: usize| s.to_set().contains(v) implies node_set(n).contains(v) by {
            let b = choose|b: int| 0 <= b < s.len() && s[b] == v;
        }
    }
    lemma_len_subset(s.to_set(), node_set(n));
    if s.len() == n {
        lemma_subset_equality(s.to_set(), node_set(n));
        assert forall|v: usize| v < n implies s.contains(v) by {
            assert(node_set(n).contains(v));
            assert(s.to_set().contains(v));
        }
    }
}

/// A list of distinct nodes that holds every node of `0..n` has at least `n` items.
proof fn lemma_covers(s: Seq<usize>, n: nat)
    requires
        n <= usize::MAX + 1,
        s.no_duplicates(),
        forall|v: usize| v < n ==> s.contains(v),
    ensures
        s.len() >= n,
{
    lemma_node_set(n);
    s.unique_seq_to_set();
    assert(node_set(n).subset_of(s.to_set()));
    vstd::seq_lib::seq_to_set_is_finite(s);
    lemma_len_subset(node_set(n), s.to_set());
}

/// Inserts `x` into the ascending list `list`, before the first larger item.
fn insert_sorted(list: &mut Vec<usize>, x: usize)
    requires
        sorted(old(list)@),
    ensures
        sorted(final(list)@),
        final(list)@.len() == old(list)@.len() + 1,
        forall|v: usize| #[trigger] occurrences(final(list)@, v) == occurrences(old(list)@, v) + if v == x {
            1nat
        } else {
            0nat
        },
        forall|i: int| 0 <= i < final(list)@.len() ==> (#[trigger] final(list)@[i] == x || old(list)@.contains(final(list)@[i])),
{
    let mut i: usize = 0;
    while i < list.len() && list[i] <= x
        invariant
            i <= list@.len(),
            list@ == old(list)@,
            forall|b: int| 0 <= b < i ==> list@[b] <= x,
        decreases list@.len() - i,
    {
        i = i + 1;
    }
    let ghost before = list@;
    list.insert(i, x);
    proof {
        assert(list@ =~= before.take(i as int).push(x) + before.skip(i as int));
        assert(before =~= before.take(i as int) + before.skip(i as int));
        assert forall|v: usize| #[trigger] occurrences(list@, v) == occurrences(before, v) + if v
            == x {
            1nat
        } else {
            0nat
        } by {
            lemma_occurrences_concat(before.take(i as int).push(x), before.skip(i as int), v);
            lemma_occurrences_concat(before.take(i as int), before.skip(i as int), v);
            assert(before.take(i as int).push(x).drop_last() =~= before.take(i as int));
        }
        assert forall|a: int, b: int| 0 <= a <= b < list@.len() implies list@[a] <= list@[b] by {
            if a < i && b > i {
                assert(list@[b] == before[b - 1]);
                assert(before[a] <= before[b - 1]);
            } else if a < i && b < i {
            } else if a == i && b > i {
                assert(list@[b] == before[b - 1]);
                if i < before.len() {
                    assert(before[i as int] > x);
                    assert(before[i as int] <= before[b - 1]);
                }
            } else if a > i {
                assert(list@[a] == before[a - 1]);
                assert(list@[b] == before[b - 1]);
            }
        }
        assert forall|k: int| 0 <= k < list@.len() implies (#[trigger] list@[k] == x
            || before.contains(list@[k])) by {
            if k < i {
                assert(list@[k] == before[k]);
            } else if k > i {
                assert(list@[k] == before[k - 1]);
            }
        }
    }
}

/// An order in which the nodes `0..n` can run so that each edge's source runs before its
/// target, or an error when the edges form a cycle (then no such order exists). The order is
/// the breadth-first one: nodes with no source by increasing index, then each node once its
/// last source is taken, those released together by increasing index.
pub fn topological_order(n: usize, edges: &[(usize, usize)]) -> (r: Result<Vec<usize>, String>)
    requires
        edges_within(edges@, n as nat),
    ensures
        match r {
            Ok(order) => is_topological_order(order@, n as nat, edges@) && is_breadth_first_order(
                order@,
                edges@,
            ),
            Err(msg) => msg@ == "cycle detected in render graph"@ && !(exists|o: Seq<usize>|
                is_topological_order(o, n as nat, edges@)),
        },
{
    let ghost es = edges@;
    let ghost nothing = Seq::<usize>::empty();
    // Per-node in-degree counts, and per-node successor lists.
    let mut in_degree: Vec<usize> = Vec::new();
    let mut adj: Vec<Vec<usize>> = Vec::new();
    let mut v: usize = 0;
    while v < n
        invariant
            v <= n,
            in_degree@.len() == v,
            adj@.len() == v,
            forall|w: int| 0 <= w < v ==> in_degree@[w] == 0,
            forall|w: int| 0 <= w < v ==> (#[trigger] adj@[w])@ == Seq::<usize>::empty(),
        decreases n - v,
    {
        in_degree.push(0);
        adj.push(Vec::new());
        v = v + 1;
    }
    proof {
        assert forall|w: usize| w < n implies in_degree@[w as int] == pending(es.take(0), w, nothing) by {
            assert(es.take(0) =~= Seq::<(usize, usize)>::empty());
        }
        assert forall|u: usize, w: usize| u < n implies #[trigger] occurrences(adj@[u as int]@, w) == edge_count(es.take(0), u, w) by {
            assert(es.take(0) =~= Seq::<(usize, usize)>::empty());
        }
    }
    // Each edge adds its target to the source's successors and one to the target's count.
    let mut k: usize = 0;
    while k < edges.len()
        invariant
            k <= es.len(),
            es == edges@,
            nothing == Seq::<usize>::empty(),
            edges_within(es, n as nat),
            in_degree@.len() == n,
            adj@.len() == n,
            forall|w: usize| w < n ==> #[trigger] in_degree@[w as int] == pending(es.take(k as int), w, nothing),
            forall|u: usize, w: usize| u < n ==> #[trigger] occurrences(adj@[u as int]@, w) == edge_count(es.take(k as int), u, w),
            forall|u: int| 0 <= u < n ==> sorted(#[trigger] adj@[u]@),
            forall|u: int, b: int| 0 <= u < n && 0 <= b < adj@[u]@.len() ==> #[trigger] adj@[u]@[b] < n,
        decreases es.len() - k,
    {
        let (from, to) = edges[k];
        proof {
            assert(es[k as int] == (from, to));
            lemma_pending_bound(es.take(k as int), to, nothing);
            assert(!nothing.contains(from));
        }
        let ghost adj_before = adj@;
        let ghost list_before = adj@[from as int]@;
        insert_sorted(&mut adj[from], to);
        let d = in_degree[to];
        in_degree.set(to, d + 1);
        proof {
            assert forall|w: usize| w < n implies #[trigger] in_degree@[w as int] == pending(es.take(k + 1), w, nothing) by {
                lemma_pending_step(es, k as int, w, nothing);
            }
            assert forall|u: usize, w: usize| u < n implies #[trigger] occurrences(adj@[u as int]@, w) == edge_count(es.take(k + 1), u, w) by {
                lemma_pending_step(es, k as int, w, nothing);
                if u != from {
                    assert(adj@[u as int] == adj_before[u as int]);
                }
            }
            assert forall|u: int| 0 <= u < n implies sorted(#[trigger] adj@[u]@) by {
                if u != from {
                    assert(adj@[u] == adj_before[u]);
                }
            }
            assert forall|u: int, b: int| 0 <= u < n && 0 <= b < adj@[u]@.len() implies #[trigger] adj@[u]@[b] < n by {
                if u != from {
                    assert(adj@[u] == adj_before[u]);
                } else {
                    if adj@[u]@[b] != to {
                        let c = choose|c: int| 0 <= c < list_before.len() && list_before[c] == adj@[u]@[b];
                        assert(adj_before[u]@[c] < n);
                    }
                }
            }
        }
        k = k + 1;
    }
    proof {
        assert(es.take(k as int) =~= es);
    }
    // The nodes with no incoming edge start the queue, by increasing index.
    let mut order: Vec<usize> = Vec::new();
    let ghost mut heads: Seq<int> = Seq::empty();
    let mut v: usize = 0;
    while v < n
        invariant
            v <= n,
            es == edges@,
            nothing == Seq::<usize>::empty(),
            in_degree@.len() == n,
            forall|w: usize| w < n ==> #[trigger] in_degree@[w as int] == pending(es, w, nothing),
            released_in_order(order@, heads, es),
            forall|i: int| 0 <= i < heads.len() ==> #[trigger] heads[i] == -1,
            order@.no_duplicates(),
            forall|i: int| 0 <= i < order@.len() ==> #[trigger] order@[i] < v,
            forall|w: usize| w < n ==> (order@.contains(w) <==> (w < v && #[trigger] in_degree@[w as int] == 0)),
            forall|i: int, e: int| 0 <= i < order@.len() && 0 <= e < es.len() && (#[trigger] es[e]).1 == #[trigger] order@[i] ==> order@.take(i).contains(es[e].0),
        decreases n - v,
    {
        if in_degree[v] == 0 {
            let ghost before = order@;
            proof {
                lemma_pending_zero(es, v, nothing);
                assert(!before.contains(v)) by {
                    if before.contains(v) {
                        let b = choose|b: int| 0 <= b < before.len() && before[b] == v;
                    }
                }
                assert forall|i: int| 0 <= i < before.len() implies key_before(#[trigger] heads[i], before[i], -1, v) by {
                    assert(before[i] < v);
                }
                lemma_release(before, heads, es, v, -1);
            }
            order.push(v);
            proof {
                heads = heads.push(-1);
                assert forall|w: usize| w < n implies (order@.contains(w) <==> (w < v + 1 && #[trigger] in_degree@[w as int] == 0)) by {
                    lemma_push_contains(before, v, w);
                }
                assert forall|i: int, e: int| 0 <= i < order@.len() && 0 <= e < es.len() && (#[trigger] es[e]).1 == #[trigger] order@[i] implies order@.take(i).contains(es[e].0) by {
                    if i < before.len() {
                        assert(order@.take(i) =~= before.take(i));
                    } else {
                        assert(es[e].1 == v);
                        assert(nothing.contains(es[e].0));
                        assert(!nothing.contains(es[e].0));
                    }
                }
            }
        } else {
            proof {
                assert forall|w: usize| w < n implies (order@.contains(w) <==> (w < v + 1 && #[trigger] in_degree@[w as int] == 0)) by {
                    if order@.contains(w) {
                        let b = choose|b: int| 0 <= b < order@.len() && order@[b] == w;
                    }
                }
            }
        }
        v = v + 1;
    }
    // Take nodes from the front of the queue; a node joins the queue once all its sources
    // have been taken.
    let mut head: usize = 0;
    proof {
        assert(order@.take(0) =~= nothing);
    }
    while head < order.len()
        invariant
            head <= order@.len(),
            es == edges@,
            edges_within(es, n as nat),
            in_degree@.len() == n,
            adj@.len() == n,
            forall|u: usize, w: usize| u < n ==> #[trigger] occurrences(adj@[u as int]@, w) == edge_count(es, u, w),
            forall|u: int, b: int| 0 <= u < n && 0 <= b < adj@[u]@.len() ==> #[trigger] adj@[u]@[b] < n,
            forall|w: usize| w < n ==> #[trigger] in_degree@[w as int] == pending(es, w, order@.take(head as int)),
            forall|u: int| 0 <= u < n ==> sorted(#[trigger] adj@[u]@),
            released_in_order(order@, heads, es),
            forall|i: int| 0 <= i < heads.len() ==> #[trigger] heads[i] < head,
            order@.no_duplicates(),
            forall|i: int| 0 <= i < order@.len() ==> #[trigger] order@[i] < n,
            forall|w: usize| w < n ==> (order@.contains(w) <==> #[trigger] in_degree@[w as int] == 0),
            forall|i: int, e: int| 0 <= i < order@.len() && 0 <= e < es.len() && (#[trigger] es[e]).1 == #[trigger] order@[i] ==> order@.take(i).contains(es[e].0),
        decreases n - head,
    {
        proof {
            lemma_pigeonhole(order@, n as nat);
        }
        let p = order[head];
        let ghost done0 = order@.take(head as int);
        let ghost done1 = order@.take(head + 1);
        proof {
            assert(done1 =~= done0.push(p));
            assert(!done0.contains(p)) by {
                if done0.contains(p) {
                    let b = choose|b: int| 0 <= b < done0.len() && done0[b] == p;
                    assert(order@[b] == order@[head as int]);
                }
            }
        }
        let ghost hp = head as int;
        head = head + 1;
        let ghost succ = adj@[p as int]@;
        let mut k: usize = 0;
        while k < adj[p].len()
            invariant
                k <= succ.len(),
                p < n,
                succ == adj@[p as int]@,
                head <= order@.len(),
                order@.take(head as int) == done1,
                done1 == done0.push(p),
                !done0.contains(p),
                es == edges@,
                edges_within(es, n as nat),
                in_degree@.len() == n,
                adj@.len() == n,
                forall|u: usize, w: usize| u < n ==> #[trigger] occurrences(adj@[u as int]@, w) == edge_count(es, u, w),
                forall|u: int, b: int| 0 <= u < n && 0 <= b < adj@[u]@.len() ==> #[trigger] adj@[u]@[b] < n,
                forall|w: usize| w < n ==> #[trigger] in_degree@[w as int] + occurrences(succ.take(k as int), w) == pending(es, w, done0),
                forall|u: int| 0 <= u < n ==> sorted(#[trigger] adj@[u]@),
                hp + 1 == head,
                order@[hp] == p,
                released_in_order(order@, heads, es),
                forall|i: int| 0 <= i < heads.len() ==> #[trigger] heads[i] < hp || (heads[i] == hp
                    && succ.take(k as int).contains(order@[i])),
                order@.no_duplicates(),
                forall|i: int| 0 <= i < order@.len() ==> #[trigger] order@[i] < n,
                forall|w: usize| w < n ==> (order@.contains(w) <==> #[trigger] in_degree@[w as int] == 0),
                forall|i: int, e: int| 0 <= i < order@.len() && 0 <= e < es.len() && (#[trigger] es[e]).1 == #[trigger] order@[i] ==> order@.take(i).contains(es[e].0),
            decreases succ.len() - k,
        {
            let next = adj[p][k];
            proof {
                assert(succ[k as int] == next);
                assert(next < n);
                lemma_occurrences_take(succ, k as int, next);
                lemma_occurrences_prefix(succ, k + 1, next);
                lemma_pending_done(es, next, done0, p);
            }
            let d = in_degree[next];
            in_degree.set(next, d - 1);
            proof {
                assert forall|w: usize| w < n implies #[trigger] in_degree@[w as int] + occurrences(succ.take(k + 1), w) == pending(es, w, done0) by {
                    lemma_occurrences_take(succ, k as int, w);
                }
            }
            if d - 1 == 0 {
                let ghost before = order@;
                proof {
                    // Every edge into `next` comes from a node already taken.
                    assert(pending(es, next, done1) == 0);
                    lemma_pending_zero(es, next, done1);
                    assert(!before.contains(next));
                    // `p` has an edge to `next`, and `next` comes after the earlier nodes
                    // `p` released, which precede it in `p`'s sorted successors.
                    assert(occurrences(adj@[p as int]@, next) == edge_count(es, p, next));
                    lemma_edge_count_positive(es, p, next);
                    assert(before.take(hp + 1) =~= done1);
                    assert forall|i: int| 0 <= i < before.len() implies key_before(#[trigger] heads[i], before[i], hp, next) by {
                        if heads[i] == hp {
                            assert(succ.take(k as int).contains(before[i]));
                            let c = choose|c: int| 0 <= c < k && #[trigger] succ.take(k as int)[c] == before[i];
                            assert(succ[c] == before[i]);
                            assert(succ[c] <= succ[k as int]);
                            assert(before[i] != next);
                        }
                    }
                    lemma_release(before, heads, es, next, hp);
                }
                order.push(next);
                proof {
                    heads = heads.push(hp);
                    assert forall|w: usize| w < n implies (order@.contains(w) <==> #[trigger] in_degree@[w as int] == 0) by {
                        lemma_push_contains(before, next, w);
                    }
                    assert(order@.take(head as int) =~= before.take(head as int));
                    assert forall|i: int, e: int| 0 <= i < order@.len() && 0 <= e < es.len() && (#[trigger] es[e]).1 == #[trigger] order@[i] implies order@.take(i).contains(es[e].0) by {
                        if i < before.len() {
                            assert(order@.take(i) =~= before.take(i));
                        } else {
                            assert(done1.contains(es[e].0));
                            let b = choose|b: int| 0 <= b < done1.len() && done1[b] == es[e].0;
                            assert(order@.take(i)[b] == es[e].0);
                        }
                    }
                    assert forall|a: int, b: int| 0 <= a < order@.len() && 0 <= b < order@.len() && a != b implies order@[a] != order@[b] by {
                        if a < before.len() && b < before.len() {
                            assert(before[a] == order@[a]);
                        } else if a < before.len() {
                            assert(before.contains(order@[a]));
                        } else if b < before.len() {
                            assert(before.contains(order@[b]));
                        }
                    }
                    assert(order@[hp] == before[hp]);
                    assert forall|i: int| 0 <= i < heads.len() implies #[trigger] heads[i] < hp || (heads[i]
                        == hp && succ.take(k + 1).contains(order@[i])) by {
                        if i < before.len() {
                            assert(order@[i] == before[i]);
                            if heads[i] == hp {
                                let c = choose|c: int| 0 <= c < k && #[trigger] succ.take(k as int)[c] == before[i];
                                assert(succ.take(k + 1)[c] == order@[i]);
                            }
                        } else {
                            assert(succ.take(k + 1)[k as int] == order@[i]);
                        }
                    }
                }
            } else {
                proof {
                    assert forall|i: int| 0 <= i < heads.len() implies #[trigger] heads[i] < hp || (heads[i]
                        == hp && succ.take(k + 1).contains(order@[i])) by {
                        if heads[i] == hp {
                            let c = choose|c: int| 0 <= c < k && #[trigger] succ.take(k as int)[c] == order@[i];
                            assert(succ.take(k + 1)[c] == order@[i]);
                        }
                    }
                }
            }
            k = k + 1;
        }
        proof {
            assert(succ.take(k as int) =~= succ);
            assert forall|w: usize| w < n implies #[trigger] in_degree@[w as int] == pending(es, w, order@.take(head as int)) by {
                lemma_pending_done(es, w, done0, p);
            }
        }
    }
    proof {
        lemma_pigeonhole(order@, n as nat);
        assert(order@.take(head as int) =~= order@);
    }
    if order.len() != n {
        proof {
            assert forall|o: Seq<usize>| !is_topological_order(o, n as nat, es) by {
                if is_topological_order(o, n as nat, es) {
                    lemma_pigeonhole(o, n as nat);
                    lemma_all_taken(o, n as nat, es, order@, in_degree@, (n as int) - 1);
                    assert forall|w: usize| w < n implies order@.contains(w) by {
                        assert(o.contains(w));
                        let b = choose|b: int| 0 <= b < o.len() && o[b] == w;
                        assert(order@.contains(o[b]));
                    }
                    lemma_covers(order@, n as nat);
                }
            }
        }
        return Err("cycle detected in render graph".to_string());
    }
    proof {
        assert forall|i: int, j: int| 0 <= i <= j < order@.len() implies !es.contains((#[trigger] order@[j], #[trigger] order@[i])) by {
            if es.contains((order@[j], order@[i])) {
                let e = choose|e: int| 0 <= e < es.len() && es[e] == (order@[j], order@[i]);
                assert(es[e].1 == order@[i]);
                assert(order@.take(i).contains(es[e].0));
                let b = choose|b: int| 0 <= b < i && order@.take(i)[b] == es[e].0;
                assert(order@[b] == order@[j]);
            }
        }
    }
    proof {
        lemma_released_is_breadth_first(order@, heads, es);
    }
    Ok(order)
}

/// When the queue runs dry, each node of a topological order `o` up to position `k` has
/// been taken: a node not taken would still wait for a source not taken, and that source
/// stands earlier in `o`.
proof fn lemma_all_taken(
    o: Seq<usize>,
    n: nat,
    es: Seq<(usize, usize)>,
    order: Seq<usize>,
    in_degree: Seq<usize>,
    k: int,
)
    requires
        is_topological_order(o, n, es),
        edges_within(es, n),
        forall|v: usize| v < n ==> o.contains(v),
        in_degree.len() == n,
        forall|w: usize| w < n ==> #[trigger] in_degree[w as int] == pending(es, w, order),
        forall|w: usize| w < n ==> (order.contains(w) <==> #[trigger] in_degree[w as int] == 0),
        k < o.len(),
    ensures
        forall|i: int| 0 <= i <= k ==> order.contains(#[trigger] o[i]),
    decreases k + 1,
{
    if k >= 0 {
        lemma_all_taken(o, n, es, order, in_degree, k - 1);
        let v = o[k];
        if !order.contains(v) {
            assert(in_degree[v as int] != 0);
            let e = lemma_pending_pos(es, v, order);
            let u = es[e].0;
            assert(u < n);
            assert(o.contains(u));
            let b = choose|b: int| 0 <= b < o.len() && o[b] == u;
            assert(es[e] == (o[b], o[k]));
            assert(es.contains((o[b], o[k])));
            if b >= k {
                assert(!es.contains((o[b], o[k])));
            }
            assert(b < k);
            assert(order.contains(o[b]));
        }
        assert forall|i: int| 0 <= i <= k implies order.contains(#[trigger] o[i]) by {
        }
    }
}

/// The order built so far, with for each entry the position of the node whose taking
/// released it (-1 for a node with no source): every source of an entry stands at or before
/// that position, the releasing node is a source, and entries come by release position, then
/// by index.
spec fn released_in_order(order: Seq<usize>, heads: Seq<int>, es: Seq<(usize, usize)>) -> bool {
    &&& heads.len() == order.len()
    &&& forall|i: int| 0 <= i < heads.len() ==> -1 <= #[trigger] heads[i] < i
    &&& forall|i: int| 0 <= i < heads.len() ==> #[trigger] released_by(order, heads, es, i)
    &&& forall|i: int, e: int|
        0 <= i < order.len() && 0 <= e < es.len() && (#[trigger] es[e]).1 == #[trigger] order[i]
            ==> order.take(heads[i] + 1).contains(es[e].0)
    &&& forall|i: int, j: int|
        #![trigger order[i], order[j]]
        0 <= i < j < order.len() ==> key_before(heads[i], order[i], heads[j], order[j])
}

/// The node that released entry `i`, if any, is a source of it.
spec fn released_by(order: Seq<usize>, heads: Seq<int>, es: Seq<(usize, usize)>, i: int) -> bool {
    heads[i] >= 0 ==> es.contains((order[heads[i]], order[i]))
}

/// Appending `w`, released by the node at position `h` (-1: `w` has no source).
proof fn lemma_release(order: Seq<usize>, heads: Seq<int>, es: Seq<(usize, usize)>, w: usize, h: int)
    requires
        released_in_order(order, heads, es),
        -1 <= h < order.len(),
        !order.contains(w),
        h >= 0 ==> es.contains((order[h], w)),
        forall|e: int| 0 <= e < es.len() && (#[trigger] es[e]).1 == w ==> order.take(h + 1).contains(es[e].0),
        forall|i: int| 0 <= i < order.len() ==> key_before(#[trigger] heads[i], order[i], h, w),
    ensures
        released_in_order(order.push(w), heads.push(h), es),
{
    let o2 = order.push(w);
    let h2 = heads.push(h);
    assert forall|i: int| 0 <= i < h2.len() implies #[trigger] released_by(o2, h2, es, i) by {
        if i < order.len() {
            assert(released_by(order, heads, es, i));
            assert(o2[i] == order[i]);
            if heads[i] >= 0 {
                assert(o2[heads[i]] == order[heads[i]]);
            }
        }
    }
    assert forall|i: int, e: int|
        0 <= i < o2.len() && 0 <= e < es.len() && (#[trigger] es[e]).1 == #[trigger] o2[i] implies o2.take(h2[i] + 1).contains(es[e].0) by {
        if i < order.len() {
            assert(o2[i] == order[i]);
            assert(o2.take(heads[i] + 1) =~= order.take(heads[i] + 1));
        } else {
            assert(o2.take(h + 1) =~= order.take(h + 1));
        }
    }
    assert forall|i: int, j: int| 0 <= i < j < o2.len() implies key_before(h2[i], o2[i], h2[j], o2[j]) by {
        assert(o2[i] == order[i]);
        if j < order.len() {
            assert(o2[j] == order[j]);
        }
    }
}

/// `last_source` finds `h` when the node at `h` is a source of `w` and none after it, up to
/// `k`, is.
proof fn lemma_last_source_is(o: Seq<usize>, es: Seq<(usize, usize)>, w: usize, k: int, h: int)
    requires
        -1 <= h < k <= o.len(),
        h >= 0 ==> es.contains((o[h], w)),
        forall|q: int| h < q < k ==> !es.contains((#[trigger] o[q], w)),
    ensures
        last_source(o, es, w, k) == h,
    decreases k,
{
    if k - 1 > h {
        assert(!es.contains((o[k - 1], w)));
        lemma_last_source_is(o, es, w, k - 1, h);
    }
}

/// The order built with its release positions is breadth first: each entry's release position
/// is the position of its last source.
proof fn lemma_released_is_breadth_first(order: Seq<usize>, heads: Seq<int>, es: Seq<(usize, usize)>)
    requires
        released_in_order(order, heads, es),
        order.no_duplicates(),
    ensures
        is_breadth_first_order(order, es),
{
    let n = order.len() as int;
    assert forall|i: int| 0 <= i < n implies last_source(order, es, #[trigger] order[i], n) == heads[i] by {
        assert forall|q: int| heads[i] < q < n implies !es.contains((#[trigger] order[q], order[i])) by {
            if es.contains((order[q], order[i])) {
                let e = choose|e: int| 0 <= e < es.len() && es[e] == (order[q], order[i]);
                assert(es[e].1 == order[i]);
                assert(order.take(heads[i] + 1).contains(es[e].0));
                let b = choose|b: int| 0 <= b < heads[i] + 1 && #[trigger] order.take(heads[i] + 1)[b] == es[e].0;
                assert(order[b] == order[q]);
            }
        }
        assert(released_by(order, heads, es, i));
        lemma_last_source_is(order, es, order[i], n, heads[i]);
    }
    assert forall|i: int, j: int| 0 <= i < j < n implies key_before(
        last_source(order, es, order[i], n),
        order[i],
        last_source(order, es, order[j], n),
        order[j],
    ) by {
        assert(key_before(heads[i], order[i], heads[j], order[j]));
    }
}

/// `last_source` up to `k` looks only at the first `k` entries.
proof fn lemma_last_source_prefix(o1: Seq<usize>, o2: Seq<usize>, es: Seq<(usize, usize)>, w: usize, k: int)
    requires
        0 <= k <= o1.len(),
        k <= o2.len(),
        forall|q: int| 0 <= q < k ==> o1[q] == o2[q],
    ensures
        last_source(o1, es, w, k) == last_source(o2, es, w, k),
    decreases k,
{
    if k > 0 {
        lemma_last_source_prefix(o1, o2, es, w, k - 1);
    }
}

/// `last_source` up to `k` is `last_source` up to `i` when no entry from `i` to `k` is a
/// source of `w`.
proof fn lemma_last_source_stops(o: Seq<usize>, es: Seq<(usize, usize)>, w: usize, i: int, k: int)
    requires
        0 <= i <= k <= o.len(),
        forall|q: int| i <= q < k ==> !es.contains((#[trigger] o[q], w)),
    ensures
        last_source(o, es, w, k) == last_source(o, es, w, i),
    decreases k,
{
    if k > i {
        lemma_last_source_stops(o, es, w, i, k - 1);
    }
}

/// Two topological breadth-first orders that agree before position `i` agree at `i`.
proof fn lemma_breadth_first_step(o1: Seq<usize>, o2: Seq<usize>, n: nat, es: Seq<(usize, usize)>, i: int)
    requires
        is_topological_order(o1, n, es),
        is_topological_order(o2, n, es),
        is_breadth_first_order(o1, es),
        is_breadth_first_order(o2, es),
        0 <= i < n,
        forall|q: int| 0 <= q < i ==> o1[q] == o2[q],
    ensures
        o1[i] == o2[i],
{
    let x = o1[i];
    let y = o2[i];
    if x != y {
        lemma_pigeonhole(o1, (usize::MAX + 1) as nat);
        lemma_pigeonhole(o1, n);
        lemma_pigeonhole(o2, n);
        assert(o1.contains(y));
        assert(o2.contains(x));
        let j = choose|j: int| 0 <= j < o1.len() && o1[j] == y;
        let j2 = choose|j: int| 0 <= j < o2.len() && o2[j] == x;
        if j < i {
            assert(o2[j] == y);
        }
        if j2 < i {
            assert(o1[j2] == x);
        }
        assert(i < j && i < j2);
        // Every source of `y` stands before `i` in `o2`, hence in `o1`; likewise for `x`.
        assert forall|q: int| i <= q < n implies !es.contains((#[trigger] o1[q], y)) by {
            if es.contains((o1[q], y)) {
                assert(o2.contains(o1[q]));
                let a = choose|a: int| 0 <= a < o2.len() && o2[a] == o1[q];
                if a >= i {
                    assert(!es.contains((o2[a], o2[i])));
                }
                assert(o1[a] == o1[q]);
            }
        }
        assert forall|q: int| i <= q < n implies !es.contains((#[trigger] o2[q], x)) by {
            if es.contains((o2[q], x)) {
                assert(o1.contains(o2[q]));
                let a = choose|a: int| 0 <= a < o1.len() && o1[a] == o2[q];
                if a >= i {
                    assert(!es.contains((o1[a], o1[i])));
                }
                assert(o2[a] == o2[q]);
            }
        }
        assert forall|q: int| i <= q < n implies !es.contains((#[trigger] o1[q], x)) by {
            assert(!es.contains((o1[q], o1[i])));
        }
        assert forall|q: int| i <= q < n implies !es.contains((#[trigger] o2[q], y)) by {
            assert(!es.contains((o2[q], o2[i])));
        }
        lemma_last_source_stops(o1, es, x, i, n as int);
        lemma_last_source_stops(o1, es, y, i, n as int);
        lemma_last_source_stops(o2, es, x, i, n as int);
        lemma_last_source_stops(o2, es, y, i, n as int);
        lemma_last_source_prefix(o1, o2, es, x, i);
        lemma_last_source_prefix(o1, o2, es, y, i);
        assert(key_before(
            last_source(o1, es, o1[i], o1.len() as int),
            o1[i],
            last_source(o1, es, o1[j], o1.len() as int),
            o1[j],
        ));
        assert(key_before(
            last_source(o2, es, o2[i], o2.len() as int),
            o2[i],
            last_source(o2, es, o2[j2], o2.len() as int),
            o2[j2],
        ));
    }
}

/// The order is determined by the graph: two orders of the nodes `0..n` that are both
/// topological and breadth first (with successors by increasing index) are the same.
pub proof fn law_breadth_first_order_is_unique(
    o1: Seq<usize>,
    o2: Seq<usize>,
    n: nat,
    edges: Seq<(usize, usize)>,
)
    requires
        is_topological_order(o1, n, edges),
        is_topological_order(o2, n, edges),
        is_breadth_first_order(o1, edges),
        is_breadth_first_order(o2, edges),
    ensures
        o1 == o2,
{
    assert forall|i: int| 0 <= i < n implies o1[i] == o2[i] by {
        lemma_agree_up_to(o1, o2, n, edges, i);
    }
    assert(o1 =~= o2);
}

proof fn lemma_agree_up_to(o1: Seq<usize>, o2: Seq<usize>, n: nat, es: Seq<(usize, usize)>, i: int)
    requires
        is_topological_order(o1, n, es),
        is_topological_order(o2, n, es),
        is_breadth_first_order(o1, es),
        is_breadth_first_order(o2, es),
        0 <= i < n,
    ensures
        forall|q: int| 0 <= q <= i ==> o1[q] == o2[q],
    decreases i,
{
    if i > 0 {
        lemma_agree_up_to(o1, o2, n, es, i - 1);
    }
    lemma_breadth_first_step(o1, o2, n, es, i);
}

} // verus!
