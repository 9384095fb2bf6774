use vstd::prelude::*;
use vstd::multiset::Multiset;
use std::collections::HashMap;
use crate::datastructures::priority_queue::PriorityQueue;
use crate::graphs::traits::Graph;
use crate::graphs::trees::reversed;

verus! {

broadcast use {vstd::std_specs::hash::group_hash_axioms, vstd::multiset::group_multiset_axioms};

/// `b` is among the neighbours of `a`.
pub open spec fn graph_step<G: Graph>(g: &G, a: usize, b: usize) -> bool {
    exists|r: Seq<usize>| #[trigger] g.neighbors_ok(a, r) && r.contains(b)
}

/// `b` follows `a` on a path of the search: `b` is a neighbour of `a`, or `should_shortcut`
/// answered true for `(a, b)`.
pub open spec fn search_step<G: Graph, S: Fn(usize, usize) -> bool>(
    g: &G,
    should_shortcut: &S,
    a: usize,
    b: usize,
) -> bool {
    ||| graph_step(g, a, b)
    ||| should_shortcut.ensures((a, b), true)
}

/// `path` goes from `start` to a vertex that `end_predicate` accepts, each vertex following the
/// one before it.
pub open spec fn search_path<G: Graph, E: Fn(usize) -> bool, S: Fn(usize, usize) -> bool>(
    g: &G,
    start: usize,
    end_predicate: &E,
    should_shortcut: &S,
    path: Seq<usize>,
) -> bool {
    &&& path.len() >= 1
    &&& path[0] == start
    &&& end_predicate.ensures((path.last(),), true)
    &&& forall|i: int|
        0 <= i < path.len() - 1 ==> search_step(g, should_shortcut, #[trigger] path[i], path[i + 1])
}

/// The sum of `ws`.
pub open spec fn weight_sum(ws: Seq<u64>) -> int
    decreases ws.len(),
{
    if ws.len() == 0 {
        0
    } else {
        ws[0] + weight_sum(ws.drop_first())
    }
}

/// `cost` is at least the total weight of `path` (unless it stopped at `u64::MAX`), the weight
/// of each step `(a, b)` being an answer of `dist_fn(a, b)`.
pub open spec fn search_cost<D: Fn(usize, usize) -> u64>(dist_fn: &D, path: Seq<usize>, cost: u64) -> bool {
    exists|ws: Seq<u64>|
        {
            &&& ws.len() == path.len() - 1
            &&& forall|i: int| 0 <= i < ws.len() ==> dist_fn.ensures((path[i], path[i + 1]), #[trigger] ws[i])
            &&& cost == u64::MAX || weight_sum(ws) <= cost
        }
}

/// `seen` holds `start`, `end_predicate` answered false on each of its vertices, and each of them
/// has a list of neighbours inside `seen`: no vertex reached from `start` is an end.
pub open spec fn search_exhausted<G: Graph, E: Fn(usize) -> bool>(
    g: &G,
    start: usize,
    end_predicate: &E,
    seen: Set<usize>,
) -> bool {
    &&& seen.contains(start)
    &&& forall|v: usize| #[trigger] seen.contains(v) ==> end_predicate.ensures((v,), false)
    &&& forall|v: usize|
        #[trigger] seen.contains(v) ==> exists|r: Seq<usize>|
            #[trigger] g.neighbors_ok(v, r) && forall|i: int| 0 <= i < r.len() ==> seen.contains(r[i])
}

/// The search takes no shortcut, and the graph, `dist_fn` and `end_predicate` each give one
/// answer per question.
pub open spec fn plain_search<G: Graph, E: Fn(usize) -> bool, D: Fn(usize, usize) -> u64, S: Fn(
    usize,
    usize,
) -> bool>(g: &G, end_predicate: &E, dist_fn: &D, should_shortcut: &S) -> bool {
    &&& forall|a: usize, b: usize| !#[trigger] should_shortcut.ensures((a, b), true)
    &&& forall|a: usize, b: usize, w1: u64, w2: u64|
        #[trigger] dist_fn.ensures((a, b), w1) && #[trigger] dist_fn.ensures((a, b), w2) ==> w1 == w2
    &&& forall|v: usize|
        !(#[trigger] end_predicate.ensures((v,), true) && end_predicate.ensures((v,), false))
    &&& forall|v: usize, r1: Seq<usize>, r2: Seq<usize>|
        #[trigger] g.neighbors_ok(v, r1) && #[trigger] g.neighbors_ok(v, r2) ==> r1 == r2
}

/// `p` is a walk of the graph from `start`: each vertex is a neighbour of the one before it.
pub open spec fn graph_walk<G: Graph>(g: &G, start: usize, p: Seq<usize>) -> bool {
    &&& p.len() >= 1
    &&& p[0] == start
    &&& forall|i: int| 0 <= i < p.len() - 1 ==> #[trigger] graph_step(g, p[i], p[i + 1])
}

/// `ws` are the weights of the steps of `p`, as `dist_fn` gives them.
pub open spec fn walk_weights<D: Fn(usize, usize) -> u64>(dist_fn: &D, p: Seq<usize>, ws: Seq<u64>) -> bool {
    &&& ws.len() == p.len() - 1
    &&& forall|i: int| 0 <= i < ws.len() ==> dist_fn.ensures((p[i], p[i + 1]), #[trigger] ws[i])
}

/// The weights of the steps of `p`, as the spec function `w` gives them.
pub open spec fn weights_by(w: spec_fn(usize, usize) -> u64, p: Seq<usize>) -> Seq<u64> {
    Seq::new((p.len() - 1) as nat, |i: int| w(p[i], p[i + 1]))
}

/// The last vertex of `p` is one that `e` accepts.
pub open spec fn ends_at(e: spec_fn(usize) -> bool, p: Seq<usize>) -> bool {
    e(p.last())
}

/// In a plain search, `dist_fn` has given an answer for each link out of an expanded vertex.
#[verifier::opaque]
spec fn weights_known<G: Graph, D: Fn(usize, usize) -> u64>(g: &G, dist_fn: &D, seen: Set<usize>, plain: bool) -> bool {
    plain ==> forall|v: usize, r: Seq<usize>|
        #[trigger] g.neighbors_ok(v, r) && seen.contains(v) ==> forall|i: int|
            #![trigger r[i]]
            0 <= i < r.len() ==> exists|x: u64| #[trigger] dist_fn.ensures((v, r[i]), x)
}

proof fn lemma_weight_sum_push(ws: Seq<u64>, x: u64)
    ensures
        weight_sum(ws.push(x)) == weight_sum(ws) + x,
    decreases ws.len(),
{
    let wx = ws.push(x);
    if ws.len() > 0 {
        assert(wx.drop_first() =~= ws.drop_first().push(x));
        lemma_weight_sum_push(ws.drop_first(), x);
        assert(wx[0] == ws[0]);
        assert(weight_sum(wx) == wx[0] + weight_sum(wx.drop_first()));
        assert(weight_sum(ws) == ws[0] + weight_sum(ws.drop_first()));
    } else {
        assert(wx.drop_first() =~= Seq::<u64>::empty());
        assert(weight_sum(wx) == wx[0] + weight_sum(wx.drop_first()));
        assert(weight_sum(Seq::<u64>::empty()) == 0);
    }
}

proof fn lemma_weight_sum_prefix(ws: Seq<u64>, j: int)
    requires
        0 <= j <= ws.len(),
    ensures
        0 <= weight_sum(ws.take(j)) <= weight_sum(ws),
        j < ws.len() ==> weight_sum(ws.take(j + 1)) == weight_sum(ws.take(j)) + ws[j],
    decreases ws.len() - j,
{
    lemma_weight_sum_nonneg(ws.take(j));
    if j < ws.len() {
        assert(ws.take(j + 1) =~= ws.take(j).push(ws[j]));
        lemma_weight_sum_push(ws.take(j), ws[j]);
        lemma_weight_sum_prefix(ws, j + 1);
    } else {
        assert(ws.take(j) =~= ws);
        lemma_weight_sum_nonneg(ws);
    }
}

proof fn lemma_weight_sum_nonneg(ws: Seq<u64>)
    ensures
        weight_sum(ws) >= 0,
    decreases ws.len(),
{
    if ws.len() > 0 {
        lemma_weight_sum_nonneg(ws.drop_first());
    }
}

/// Along a walk, each vertex is known with a cost at most the weight of the walk so far, or the
/// least waiting cost `c` is at most that weight.
proof fn lemma_walk_bound<G: Graph, D: Fn(usize, usize) -> u64>(
    g: &G,
    dist_fn: &D,
    start: usize,
    m: Map<usize, (usize, u64)>,
    seen: Set<usize>,
    q: Multiset<(u64, usize)>,
    c: u64,
    p: Seq<usize>,
    ws: Seq<u64>,
    j: int,
)
    requires
        m.contains_key(start),
        m[start].1 == 0,
        forall|v: usize| #[trigger] m.contains_key(v) && !seen.contains(v) ==> q.contains((m[v].1, v)),
        forall|x: (u64, usize)| #[trigger] q.contains(x) ==> c <= x.0,
        forall|s: usize, r: Seq<usize>|
            #[trigger] g.neighbors_ok(s, r) && seen.contains(s) ==> forall|i: int|
                0 <= i < r.len() ==> m.contains_key(r[i]) && forall|w: u64|
                    #[trigger] dist_fn.ensures((s, r[i]), w) ==> m[r[i]].1 <= m[s].1 + w,
        graph_walk(g, start, p),
        ws.len() == p.len() - 1,
        forall|i: int| 0 <= i < ws.len() && seen.contains(p[i]) ==> dist_fn.ensures((p[i], p[i + 1]), #[trigger] ws[i]),
        0 <= j < p.len(),
    ensures
        (m.contains_key(p[j]) && m[p[j]].1 <= weight_sum(ws.take(j))) || c <= weight_sum(ws.take(j)),
    decreases j,
{
    if j == 0 {
        assert(ws.take(0) =~= Seq::<u64>::empty());
    } else {
        lemma_walk_bound(g, dist_fn, start, m, seen, q, c, p, ws, j - 1);
        lemma_weight_sum_prefix(ws, j - 1);
        let a = p[j - 1];
        if m.contains_key(a) && m[a].1 <= weight_sum(ws.take(j - 1)) {
            if seen.contains(a) {
                assert(graph_step(g, p[j - 1], p[j]));
                let r = choose|r: Seq<usize>| #[trigger] g.neighbors_ok(a, r) && r.contains(p[j]);
                let i = choose|i: int| 0 <= i < r.len() && r[i] == p[j];
                assert(dist_fn.ensures((a, r[i]), ws[j - 1]));
            } else {
                assert(q.contains((m[a].1, a)));
            }
        }
    }
}

/// `p` is a path of the search from `start` that visits no vertex twice, `ws` are the weights
/// of its steps as `dist_fn` gives them, and `cost` is their sum, stopping at `u64::MAX`.
pub open spec fn search_walk_of_cost<G: Graph, D: Fn(usize, usize) -> u64, S: Fn(usize, usize) -> bool>(
    g: &G,
    should_shortcut: &S,
    dist_fn: &D,
    start: usize,
    p: Seq<usize>,
    ws: Seq<u64>,
    cost: u64,
) -> bool {
    &&& p.len() >= 1
    &&& p[0] == start
    &&& forall|i: int| 0 <= i < p.len() - 1 ==> search_step(g, should_shortcut, #[trigger] p[i], p[i + 1])
    &&& walk_weights(dist_fn, p, ws)
    &&& p.no_duplicates()
    &&& cost == weight_sum(ws) || (cost == u64::MAX && weight_sum(ws) >= u64::MAX)
}

/// Some path of the search from `start` to `v`, visiting no vertex twice, weighs `cost` (stopping
/// at `u64::MAX`).
pub open spec fn reached_at_cost<G: Graph, D: Fn(usize, usize) -> u64, S: Fn(usize, usize) -> bool>(
    g: &G,
    should_shortcut: &S,
    dist_fn: &D,
    start: usize,
    v: usize,
    cost: u64,
) -> bool {
    exists|p: Seq<usize>, ws: Seq<u64>|
        #[trigger] search_walk_of_cost(g, should_shortcut, dist_fn, start, p, ws, cost) && p.last() == v
}

/// `p`, ending at `v`, is a path of the search of cost `c`, along which every vertex is known at
/// no more than the weight of the path up to it.
spec fn cost_path<G: Graph, D: Fn(usize, usize) -> u64, S: Fn(usize, usize) -> bool>(
    g: &G,
    should_shortcut: &S,
    dist_fn: &D,
    m: Map<usize, (usize, u64)>,
    start: usize,
    v: usize,
    c: u64,
    p: Seq<usize>,
    ws: Seq<u64>,
) -> bool {
    &&& search_walk_of_cost(g, should_shortcut, dist_fn, start, p, ws, c)
    &&& p.last() == v
    &&& forall|i: int| 0 <= i < p.len() ==> #[trigger] m.contains_key(p[i]) && m[p[i]].1 <= weight_sum(ws.take(i))
}

/// Each known vertex has a path of the search whose weight is its cost.
#[verifier::opaque]
spec fn witnessed<G: Graph, D: Fn(usize, usize) -> u64, S: Fn(usize, usize) -> bool>(
    g: &G,
    should_shortcut: &S,
    dist_fn: &D,
    m: Map<usize, (usize, u64)>,
    start: usize,
) -> bool {
    forall|v: usize|
        #[trigger] m.contains_key(v) ==> exists|p: Seq<usize>, ws: Seq<u64>|
            #[trigger] cost_path(g, should_shortcut, dist_fn, m, start, v, m[v].1, p, ws)
}

/// A path of the search whose weight is the cost of `v`.
spec fn witness_of<G: Graph, D: Fn(usize, usize) -> u64, S: Fn(usize, usize) -> bool>(
    g: &G,
    should_shortcut: &S,
    dist_fn: &D,
    m: Map<usize, (usize, u64)>,
    start: usize,
    v: usize,
) -> (Seq<usize>, Seq<u64>) {
    choose|p: Seq<usize>, ws: Seq<u64>| cost_path(g, should_shortcut, dist_fn, m, start, v, m[v].1, p, ws)
}

proof fn lemma_witness_of<G: Graph, D: Fn(usize, usize) -> u64, S: Fn(usize, usize) -> bool>(
    g: &G,
    should_shortcut: &S,
    dist_fn: &D,
    m: Map<usize, (usize, u64)>,
    start: usize,
    v: usize,
)
    requires
        witnessed(g, should_shortcut, dist_fn, m, start),
        m.contains_key(v),
    ensures
        cost_path(
            g,
            should_shortcut,
            dist_fn,
            m,
            start,
            v,
            m[v].1,
            witness_of(g, should_shortcut, dist_fn, m, start, v).0,
            witness_of(g, should_shortcut, dist_fn, m, start, v).1,
        ),
{
    reveal(witnessed);
}

/// Lowering costs, or knowing more vertices, keeps a path of the search.
proof fn lemma_cost_path_mono<G: Graph, D: Fn(usize, usize) -> u64, S: Fn(usize, usize) -> bool>(
    g: &G,
    should_shortcut: &S,
    dist_fn: &D,
    m: Map<usize, (usize, u64)>,
    m2: Map<usize, (usize, u64)>,
    start: usize,
    v: usize,
    c: u64,
    p: Seq<usize>,
    ws: Seq<u64>,
)
    requires
        cost_path(g, should_shortcut, dist_fn, m, start, v, c, p, ws),
        forall|x: usize| #[trigger] m.contains_key(x) ==> m2.contains_key(x) && m2[x].1 <= m[x].1,
    ensures
        cost_path(g, should_shortcut, dist_fn, m2, start, v, c, p, ws),
{
    assert forall|i: int| 0 <= i < p.len() implies #[trigger] m2.contains_key(p[i]) && m2[p[i]].1 <= weight_sum(
        ws.take(i),
    ) by {
        assert(m.contains_key(p[i]));
    }
}

/// The search at the start: only `start` is known, at no cost.
proof fn lemma_witnessed_start<G: Graph, D: Fn(usize, usize) -> u64, S: Fn(usize, usize) -> bool>(
    g: &G,
    should_shortcut: &S,
    dist_fn: &D,
    start: usize,
)
    ensures
        witnessed(g, should_shortcut, dist_fn, Map::empty().insert(start, (start, 0u64)), start),
{
    reveal(witnessed);
    let m = Map::<usize, (usize, u64)>::empty().insert(start, (start, 0u64));
    let p = seq![start];
    let ws = Seq::<u64>::empty();
    assert(ws.take(0) =~= ws);
    assert(weight_sum(ws) == 0);
    assert(cost_path(g, should_shortcut, dist_fn, m, start, start, 0, p, ws));
}

/// Reaching `child` from `np`, known through `(p, ws)` at cost `c`, at the cost `c + d` (stopping
/// at `u64::MAX`) lower than any it had: `child` gets the path `p` followed by `child`.
proof fn lemma_relax_witness<G: Graph, D: Fn(usize, usize) -> u64, S: Fn(usize, usize) -> bool>(
    g: &G,
    should_shortcut: &S,
    dist_fn: &D,
    m: Map<usize, (usize, u64)>,
    start: usize,
    np: usize,
    c: u64,
    p: Seq<usize>,
    ws: Seq<u64>,
    child: usize,
    d: u64,
    nc: u64,
    entry: (usize, u64),
)
    requires
        witnessed(g, should_shortcut, dist_fn, m, start),
        cost_path(g, should_shortcut, dist_fn, m, start, np, c, p, ws),
        search_step(g, should_shortcut, np, child),
        dist_fn.ensures((np, child), d),
        nc == (if c + d > u64::MAX { u64::MAX } else { (c + d) as u64 }),
        !m.contains_key(child) || nc < m[child].1,
        entry.1 == nc,
    ensures
        witnessed(g, should_shortcut, dist_fn, m.insert(child, entry), start),
        cost_path(g, should_shortcut, dist_fn, m.insert(child, entry), start, np, c, p, ws),
{
    reveal(witnessed);
    let m2 = m.insert(child, entry);
    assert forall|x: usize| #[trigger] m.contains_key(x) implies m2.contains_key(x) && m2[x].1 <= m[x].1 by {}
    lemma_cost_path_mono(g, should_shortcut, dist_fn, m, m2, start, np, c, p, ws);
    let w = weight_sum(ws);
    lemma_weight_sum_nonneg(ws);
    // `child` is not on `p`: every vertex there costs at most `w`, and `nc` is no less than that.
    assert forall|i: int| 0 <= i < p.len() implies p[i] != child by {
        if p[i] == child {
            assert(m.contains_key(p[i]));
            lemma_weight_sum_prefix(ws, i);
            assert(ws.take(ws.len() as int) =~= ws);
            assert(m[child].1 <= weight_sum(ws.take(i)));
            assert(weight_sum(ws.take(i)) <= w) by {
                lemma_weight_sum_prefix(ws, i);
                lemma_weight_sum_prefix(ws, ws.len() as int);
            }
        }
    }
    let p2 = p.push(child);
    let ws2 = ws.push(d);
    lemma_weight_sum_push(ws, d);
    assert forall|i: int| 0 <= i < p2.len() - 1 implies search_step(g, should_shortcut, #[trigger] p2[i], p2[i + 1]) by {
        if i < p.len() - 1 {
            assert(p2[i] == p[i] && p2[i + 1] == p[i + 1]);
        } else {
            assert(p2[i] == np && p2[i + 1] == child);
        }
    }
    assert forall|i: int| 0 <= i < ws2.len() implies dist_fn.ensures((p2[i], p2[i + 1]), #[trigger] ws2[i]) by {
        if i < ws.len() {
            assert(p2[i] == p[i] && p2[i + 1] == p[i + 1] && ws2[i] == ws[i]);
        } else {
            assert(p2[i] == np && p2[i + 1] == child && ws2[i] == d);
        }
    }
    assert forall|i: int| 0 <= i < p2.len() implies #[trigger] m2.contains_key(p2[i]) && m2[p2[i]].1 <= weight_sum(
        ws2.take(i),
    ) by {
        if i < p.len() {
            assert(ws2.take(i) =~= ws.take(i));
            assert(p2[i] == p[i]);
            assert(m2.contains_key(p[i]) && m2[p[i]].1 <= weight_sum(ws.take(i)));
        } else {
            assert(ws2.take(i) =~= ws2);
        }
    }
    assert(cost_path(g, should_shortcut, dist_fn, m2, start, child, nc, p2, ws2));
    assert forall|v: usize| #[trigger] m2.contains_key(v) implies exists|q: Seq<usize>, qs: Seq<u64>|
        #[trigger] cost_path(g, should_shortcut, dist_fn, m2, start, v, m2[v].1, q, qs) by {
        if v != child {
            assert(m.contains_key(v));
            let (q, qs) = choose|q: Seq<usize>, qs: Seq<u64>|
                #[trigger] cost_path(g, should_shortcut, dist_fn, m, start, v, m[v].1, q, qs);
            lemma_cost_path_mono(g, should_shortcut, dist_fn, m, m2, start, v, m[v].1, q, qs);
        }
    }
}

/// The vertices reached from `start` lie among those of `l`, whose neighbours can be asked for.
pub open spec fn finitely_reachable<G: Graph>(g: &G, start: usize, l: Seq<usize>) -> bool {
    &&& l.contains(start)
    &&& forall|v: usize| #[trigger] l.contains(v) ==> g.has_vertex(v)
    &&& forall|v: usize, r: Seq<usize>|
        #[trigger] g.neighbors_ok(v, r) && l.contains(v) ==> forall|i: int|
            0 <= i < r.len() ==> l.contains(r[i])
}

/// How far the cost known for `v` can still fall: its cost, or one more than any cost when `v`
/// has none.
spec fn potential(m: Map<usize, (usize, u64)>, v: usize) -> int {
    if m.contains_key(v) {
        m[v].1 as int
    } else {
        u64::MAX as int + 1
    }
}

spec fn potential_sum(m: Map<usize, (usize, u64)>, l: Seq<usize>, n: int) -> int
    decreases n,
{
    if n <= 0 {
        0
    } else {
        potential_sum(m, l, n - 1) + potential(m, l[n - 1])
    }
}

proof fn lemma_potential_sum_nonneg(m: Map<usize, (usize, u64)>, l: Seq<usize>, n: int)
    ensures
        potential_sum(m, l, n) >= 0,
    decreases n,
{
    if n > 0 {
        lemma_potential_sum_nonneg(m, l, n - 1);
    }
}

proof fn lemma_potential_sum_falls(
    m1: Map<usize, (usize, u64)>,
    m2: Map<usize, (usize, u64)>,
    l: Seq<usize>,
    n: int,
    j: int,
)
    requires
        forall|v: usize| #[trigger] potential(m2, v) <= potential(m1, v),
        0 <= n,
    ensures
        potential_sum(m2, l, n) <= potential_sum(m1, l, n),
        0 <= j < n && potential(m2, l[j]) < potential(m1, l[j]) ==> potential_sum(m2, l, n)
            < potential_sum(m1, l, n),
    decreases n,
{
    if n > 0 {
        lemma_potential_sum_falls(m1, m2, l, n - 1, j);
        assert(potential(m2, l[n - 1]) <= potential(m1, l[n - 1]));
    }
}

/// The parent of each vertex other than `start` is known and comes strictly before it in the
/// order of (cost, time of the last change).
#[verifier::opaque]
spec fn ranked(m: Map<usize, (usize, u64)>, times: Map<usize, nat>, clock: nat, start: usize) -> bool {
    &&& m.contains_key(start)
    &&& m[start] == (start, 0u64)
    &&& forall|v: usize| #[trigger] m.contains_key(v) ==> times.contains_key(v) && times[v] <= clock
    &&& forall|v: usize|
        #[trigger] m.contains_key(v) && v != start ==> {
            let p = m[v].0;
            &&& m.contains_key(p)
            &&& m[p].1 < m[v].1 || (m[p].1 == m[v].1 && times[p] < times[v])
        }
}

/// Each known vertex lies in `l`, follows its parent, and costs at least its parent plus the
/// weight of the link between them (unless it stopped at `u64::MAX`).
#[verifier::opaque]
spec fn links_ok<G: Graph, D: Fn(usize, usize) -> u64, S: Fn(usize, usize) -> bool>(
    g: &G,
    should_shortcut: &S,
    dist_fn: &D,
    m: Map<usize, (usize, u64)>,
    wts: Map<usize, u64>,
    start: usize,
    l: Seq<usize>,
) -> bool {
    &&& forall|v: usize| #[trigger] m.contains_key(v) ==> l.contains(v)
    &&& forall|v: usize| #[trigger] m.contains_key(v) && v != start ==> m.contains_key(m[v].0)
    &&& forall|v: usize|
        #[trigger] m.contains_key(v) && v != start ==> search_step(g, should_shortcut, m[v].0, v)
    &&& forall|v: usize|
        #[trigger] m.contains_key(v) && v != start ==> {
            &&& dist_fn.ensures((m[v].0, v), wts[v])
            &&& m[v].1 == u64::MAX || m[v].1 >= m[m[v].0].1 + wts[v]
        }
}

/// Each waiting entry is for a known vertex at no less than its cost, each known vertex outside
/// `done` waits at its cost, and in a plain search nothing waits below `last`.
#[verifier::opaque]
spec fn queue_ok(
    m: Map<usize, (usize, u64)>,
    q: Multiset<(u64, usize)>,
    done: Set<usize>,
    plain: bool,
    last: u64,
) -> bool {
    &&& forall|e: (u64, usize)| #[trigger] q.contains(e) ==> m.contains_key(e.1) && m[e.1].1 <= e.0
    &&& forall|v: usize| #[trigger] m.contains_key(v) && !done.contains(v) ==> q.contains((m[v].1, v))
    &&& plain ==> forall|e: (u64, usize)| #[trigger] q.contains(e) ==> last <= e.0
}

/// The expanded vertices are known, are no ends, and have their neighbours known; in a plain
/// search they cost at most `last` and their neighbours cost at most them plus the link.
#[verifier::opaque]
spec fn seen_ok<G: Graph, E: Fn(usize) -> bool, D: Fn(usize, usize) -> u64>(
    g: &G,
    end_predicate: &E,
    dist_fn: &D,
    m: Map<usize, (usize, u64)>,
    seen: Set<usize>,
    plain: bool,
    last: u64,
) -> bool {
    &&& forall|v: usize| #[trigger] seen.contains(v) ==> m.contains_key(v)
    &&& forall|v: usize| #[trigger] seen.contains(v) ==> end_predicate.ensures((v,), false)
    &&& forall|v: usize|
        #[trigger] seen.contains(v) ==> exists|r: Seq<usize>|
            #[trigger] g.neighbors_ok(v, r) && forall|i: int| 0 <= i < r.len() ==> m.contains_key(r[i])
    &&& plain ==> forall|v: usize| #[trigger] seen.contains(v) ==> m[v].1 <= last
    &&& plain ==> forall|v: usize, r: Seq<usize>|
        #[trigger] g.neighbors_ok(v, r) && seen.contains(v) ==> forall|i: int|
            0 <= i < r.len() ==> m.contains_key(r[i]) && forall|w: u64|
                #[trigger] dist_fn.ensures((v, r[i]), w) ==> m[r[i]].1 <= m[v].1 + w
}

/// A better cost `nc` for `child`, reached from the known vertex `np`, keeps the order.
proof fn lemma_relax_ranked(
    m: Map<usize, (usize, u64)>,
    times: Map<usize, nat>,
    clock: nat,
    start: usize,
    child: usize,
    np: usize,
    nc: u64,
)
    requires
        ranked(m, times, clock, start),
        m.contains_key(np),
        m[np].1 <= nc,
        !m.contains_key(child) || nc < m[child].1,
    ensures
        child != start,
        np != child,
        ranked(m.insert(child, (np, nc)), times.insert(child, clock + 1), clock + 1, start),
{
    reveal(ranked);
    let m2 = m.insert(child, (np, nc));
    let t2 = times.insert(child, clock + 1);
    assert forall|v: usize| #[trigger] m2.contains_key(v) && v != start implies {
        let p = m2[v].0;
        &&& m2.contains_key(p)
        &&& m2[p].1 < m2[v].1 || (m2[p].1 == m2[v].1 && t2[p] < t2[v])
    } by {
        if v != child {
            assert(m.contains_key(v));
        }
    }
}

/// A better cost for `child` keeps the links.
proof fn lemma_relax_links<G: Graph, D: Fn(usize, usize) -> u64, S: Fn(usize, usize) -> bool>(
    g: &G,
    should_shortcut: &S,
    dist_fn: &D,
    m: Map<usize, (usize, u64)>,
    wts: Map<usize, u64>,
    start: usize,
    l: Seq<usize>,
    child: usize,
    np: usize,
    nc: u64,
    d: u64,
)
    requires
        links_ok(g, should_shortcut, dist_fn, m, wts, start, l),
        child != start,
        np != child,
        l.contains(child),
        m.contains_key(np),
        search_step(g, should_shortcut, np, child),
        dist_fn.ensures((np, child), d),
        nc == u64::MAX || nc >= m[np].1 + d,
        !m.contains_key(child) || nc < m[child].1,
    ensures
        links_ok(g, should_shortcut, dist_fn, m.insert(child, (np, nc)), wts.insert(child, d), start, l),
{
    reveal(links_ok);
    let m2 = m.insert(child, (np, nc));
    let w2 = wts.insert(child, d);
    assert forall|v: usize| #[trigger] m2.contains_key(v) && v != start implies {
        &&& dist_fn.ensures((m2[v].0, v), w2[v])
        &&& m2[v].1 == u64::MAX || m2[v].1 >= m2[m2[v].0].1 + w2[v]
    } by {
        if v != child {
            assert(m.contains_key(v));
        }
    }
    assert forall|v: usize| #[trigger] m2.contains_key(v) && v != start implies search_step(
        g,
        should_shortcut,
        m2[v].0,
        v,
    ) by {
        if v != child {
            assert(m.contains_key(v));
        }
    }
}

/// A better cost `nc` for `child`, put in the queue, keeps the queue facts.
proof fn lemma_relax_queue(
    m: Map<usize, (usize, u64)>,
    q: Multiset<(u64, usize)>,
    done: Set<usize>,
    plain: bool,
    last: u64,
    child: usize,
    np: usize,
    nc: u64,
)
    requires
        queue_ok(m, q, done, plain, last),
        !m.contains_key(child) || nc < m[child].1,
        plain ==> last <= nc,
    ensures
        queue_ok(m.insert(child, (np, nc)), q.insert((nc, child)), done, plain, last),
{
    reveal(queue_ok);
    let m2 = m.insert(child, (np, nc));
    let q2 = q.insert((nc, child));
    assert forall|e: (u64, usize)| #[trigger] q2.contains(e) implies m2.contains_key(e.1) && m2[e.1].1 <= e.0
        && (plain ==> last <= e.0) by {
        if e != (nc, child) {
            assert(q.contains(e));
        }
    }
    assert forall|v: usize| #[trigger] m2.contains_key(v) && !done.contains(v) implies q2.contains(
        (m2[v].1, v),
    ) by {
        if v != child {
            assert(q.contains((m[v].1, v)));
        }
    }
}

/// A better cost `nc` for `child` keeps the facts on the expanded vertices.
proof fn lemma_relax_seen<G: Graph, E: Fn(usize) -> bool, D: Fn(usize, usize) -> u64>(
    g: &G,
    end_predicate: &E,
    dist_fn: &D,
    m: Map<usize, (usize, u64)>,
    seen: Set<usize>,
    plain: bool,
    last: u64,
    child: usize,
    np: usize,
    nc: u64,
)
    requires
        seen_ok(g, end_predicate, dist_fn, m, seen, plain, last),
        !m.contains_key(child) || nc < m[child].1,
        plain ==> last <= nc,
    ensures
        seen_ok(g, end_predicate, dist_fn, m.insert(child, (np, nc)), seen, plain, last),
        forall|v: usize| #[trigger] m.contains_key(v) ==> m.insert(child, (np, nc))[v].1 <= m[v].1,
{
    reveal(seen_ok);
    let m2 = m.insert(child, (np, nc));
    assert forall|v: usize| #[trigger] seen.contains(v) implies exists|r: Seq<usize>|
        #[trigger] g.neighbors_ok(v, r) && forall|i: int| 0 <= i < r.len() ==> m2.contains_key(r[i]) by {
        let r = choose|r: Seq<usize>|
            #[trigger] g.neighbors_ok(v, r) && forall|i: int| 0 <= i < r.len() ==> m.contains_key(r[i]);
        assert(forall|i: int| 0 <= i < r.len() ==> m2.contains_key(r[i]));
    }
    if plain {
        assert(!seen.contains(child) || !m.contains_key(child)) by {
            if seen.contains(child) && m.contains_key(child) {
                assert(m[child].1 <= last);
            }
        }
        assert forall|v: usize| #[trigger] seen.contains(v) implies m2[v].1 <= last by {
            assert(m.contains_key(v));
        }
        assert forall|v: usize, r: Seq<usize>|
            #[trigger] g.neighbors_ok(v, r) && seen.contains(v) implies forall|i: int|
            0 <= i < r.len() ==> m2.contains_key(r[i]) && forall|w: u64|
                #[trigger] dist_fn.ensures((v, r[i]), w) ==> m2[r[i]].1 <= m2[v].1 + w by {
            assert(m.contains_key(v));
            assert forall|i: int| 0 <= i < r.len() implies m2.contains_key(r[i]) && forall|w: u64|
                #[trigger] dist_fn.ensures((v, r[i]), w) ==> m2[r[i]].1 <= m2[v].1 + w by {
                assert(m.contains_key(r[i]));
            }
        }
    }
}

/// Taking the least entry `e` out of the queue: it is for a known vertex, and the queue facts
/// hold with `last` at its cost, marking its vertex done when the entry is its current cost.
proof fn lemma_pop(
    m: Map<usize, (usize, u64)>,
    q0: Multiset<(u64, usize)>,
    q1: Multiset<(u64, usize)>,
    done: Set<usize>,
    plain: bool,
    last: u64,
    e: (u64, usize),
)
    requires
        queue_ok(m, q0, done, plain, last),
        q0.contains(e),
        q1 == q0.remove(e),
        forall|x: (u64, usize)| #[trigger] q0.contains(x) ==> e.0 <= x.0,
    ensures
        m.contains_key(e.1),
        m[e.1].1 <= e.0,
        plain ==> last <= e.0,
        m[e.1].1 < e.0 ==> queue_ok(m, q1, done, plain, e.0),
        queue_ok(m, q1, done.insert(e.1), plain, e.0),
        forall|x: (u64, usize)| #[trigger] q1.contains(x) ==> q0.contains(x),
{
    reveal(queue_ok);
    assert forall|x: (u64, usize)| #[trigger] q1.contains(x) implies q0.contains(x) by {
        assert(q1.count(x) <= q0.count(x));
    }
    assert forall|v: usize| #[trigger] m.contains_key(v) && !done.contains(v) && (v, m[v].1) != (e.1, e.0)
        implies q1.contains((m[v].1, v)) by {
        assert(q0.contains((m[v].1, v)));
        assert(q1.count((m[v].1, v)) == q0.count((m[v].1, v)));
    }
}

/// In a plain search, raising `last` keeps the facts on the expanded vertices.
proof fn lemma_seen_last<G: Graph, E: Fn(usize) -> bool, D: Fn(usize, usize) -> u64>(
    g: &G,
    end_predicate: &E,
    dist_fn: &D,
    m: Map<usize, (usize, u64)>,
    seen: Set<usize>,
    plain: bool,
    last: u64,
    last2: u64,
)
    requires
        seen_ok(g, end_predicate, dist_fn, m, seen, plain, last),
        plain ==> last <= last2,
    ensures
        seen_ok(g, end_predicate, dist_fn, m, seen, plain, last2),
{
    reveal(seen_ok);
}

/// Once all the neighbours of `vertex` are known, it joins the expanded vertices.
proof fn lemma_expanded<G: Graph, E: Fn(usize) -> bool, D: Fn(usize, usize) -> u64>(
    g: &G,
    end_predicate: &E,
    dist_fn: &D,
    m: Map<usize, (usize, u64)>,
    seen: Set<usize>,
    plain: bool,
    last: u64,
    vertex: usize,
    children: Seq<usize>,
)
    requires
        seen_ok(g, end_predicate, dist_fn, m, seen, plain, last),
        m.contains_key(vertex),
        end_predicate.ensures((vertex,), false),
        g.neighbors_ok(vertex, children),
        forall|j: int| 0 <= j < children.len() ==> m.contains_key(#[trigger] children[j]),
        plain ==> m[vertex].1 == last,
        plain ==> forall|v: usize, r1: Seq<usize>, r2: Seq<usize>|
            #[trigger] g.neighbors_ok(v, r1) && #[trigger] g.neighbors_ok(v, r2) ==> r1 == r2,
        plain ==> forall|j: int, w: u64|
            0 <= j < children.len() && #[trigger] dist_fn.ensures((vertex, children[j]), w) ==> m[children[j]].1
                <= last + w,
    ensures
        seen_ok(g, end_predicate, dist_fn, m, seen.insert(vertex), plain, last),
{
    reveal(seen_ok);
    let s2 = seen.insert(vertex);
    assert forall|v: usize| #[trigger] s2.contains(v) implies exists|r: Seq<usize>|
        #[trigger] g.neighbors_ok(v, r) && forall|i: int| 0 <= i < r.len() ==> m.contains_key(r[i]) by {
        if v == vertex {
            assert(g.neighbors_ok(vertex, children));
        } else {
            assert(seen.contains(v));
        }
    }
    if plain {
        assert forall|v: usize, r: Seq<usize>|
            #[trigger] g.neighbors_ok(v, r) && s2.contains(v) implies forall|i: int|
            0 <= i < r.len() ==> m.contains_key(r[i]) && forall|w: u64|
                #[trigger] dist_fn.ensures((v, r[i]), w) ==> m[r[i]].1 <= m[v].1 + w by {
            if v == vertex {
                assert(r == children);
            } else {
                assert(seen.contains(v));
            }
        }
    }
}

/// Searches the graph `g` from `start`, cheapest first, for a vertex that `end_predicate`
/// accepts, and returns the path to it with its cost. A link `a -> b` costs `dist_fn(a, b)`,
/// costs adding up and stopping at `u64::MAX`; when `should_shortcut(p, b)` holds for the parent
/// `p` of the vertex being expanded, its neighbour `b` is reached straight from `p`, at the cost
/// of `p` plus `dist_fn(p, b)`. The vertices reached from `start` must be finitely many (else
/// the search may not return).
#[verifier::rlimit(50)]
#[verifier::spinoff_prover]
pub fn dijkstra_with<G: Graph, E: Fn(usize) -> bool, D: Fn(usize, usize) -> u64, S: Fn(
    usize,
    usize,
) -> bool>(
    g: &G,
    start: usize,
    end_predicate: E,
    dist_fn: D,
    should_shortcut: S,
) -> (r: Option<(Vec<usize>, u64)>)
    requires
        g.graph_ok(),
        exists|l: Seq<usize>| finitely_reachable(g, start, l),
        forall|v: usize| #[trigger] end_predicate.requires((v,)),
        forall|a: usize, b: usize| #[trigger] dist_fn.requires((a, b)),
        forall|a: usize, b: usize| #[trigger] should_shortcut.requires((a, b)),
    ensures
        r matches Some((path, cost)) ==> search_path(g, start, &end_predicate, &should_shortcut, path@),
        r matches Some((path, cost)) ==> search_cost(&dist_fn, path@, cost),
        r matches Some((path, cost)) ==> reached_at_cost(g, &should_shortcut, &dist_fn, start, path@.last(), cost),
        r is None ==> exists|seen: Set<usize>| search_exhausted(g, start, &end_predicate, seen),
        plain_search(g, &end_predicate, &dist_fn, &should_shortcut) ==> (r matches Some((path, cost))
            ==> forall|p: Seq<usize>, ws: Seq<u64>|
            graph_walk(g, start, p) && end_predicate.ensures((p.last(),), true) && walk_weights(
                &dist_fn,
                p,
                ws,
            ) ==> cost <= weight_sum(ws)),
        plain_search(g, &end_predicate, &dist_fn, &should_shortcut) ==> (r matches Some((path, cost))
            ==> graph_walk(g, start, path@) && exists|ws: Seq<u64>|
            walk_weights(&dist_fn, path@, ws) && (weight_sum(ws) == cost || (cost == u64::MAX
                && weight_sum(ws) >= cost))),
        plain_search(g, &end_predicate, &dist_fn, &should_shortcut) ==> (r matches Some((path, cost))
            ==> forall|w: spec_fn(usize, usize) -> u64, e: spec_fn(usize) -> bool, p: Seq<usize>|
            #![trigger weight_sum(weights_by(w, p)), ends_at(e, p)]
            (forall|a: usize, b: usize, x: u64| #[trigger] dist_fn.ensures((a, b), x) ==> x == w(a, b)) && (
            forall|v: usize, b: bool| #[trigger] end_predicate.ensures((v,), b) ==> b == e(v)) && graph_walk(
                g,
                start,
                p,
            ) && ends_at(e, p) ==> cost <= weight_sum(weights_by(w, p))),
{
    let ghost plain = plain_search(g, &end_predicate, &dist_fn, &should_shortcut);
    let ghost l = choose|l: Seq<usize>| finitely_reachable(g, start, l);
    let mut parent_cost: HashMap<usize, (usize, u64)> = HashMap::new();
    let mut queue: PriorityQueue<usize> = PriorityQueue::default();
    parent_cost.insert(start, (start, 0));
    queue.push(0, start);
    let ghost mut times: Map<usize, nat> = Map::empty().insert(start, 0nat);
    let ghost mut clock: nat = 0;
    let ghost mut seen: Set<usize> = Set::empty();
    let ghost mut wts: Map<usize, u64> = Map::empty();
    let ghost mut last: u64 = 0;
    proof {
        lemma_potential_sum_nonneg(parent_cost@, l, l.len() as int);
        reveal(ranked);
        reveal(links_ok);
        reveal(queue_ok);
        reveal(seen_ok);
        reveal(weights_known);
        assert(queue.entries().contains((0u64, start)));
        lemma_witnessed_start(g, &should_shortcut, &dist_fn, start);
        assert(parent_cost@ =~= Map::empty().insert(start, (start, 0u64)));
    }
    loop
        invariant
            g.graph_ok(),
            finitely_reachable(g, start, l),
            forall|v: usize| #[trigger] end_predicate.requires((v,)),
            forall|a: usize, b: usize| #[trigger] dist_fn.requires((a, b)),
            forall|a: usize, b: usize| #[trigger] should_shortcut.requires((a, b)),
            plain == plain_search(g, &end_predicate, &dist_fn, &should_shortcut),
            ranked(parent_cost@, times, clock, start),
            links_ok(g, &should_shortcut, &dist_fn, parent_cost@, wts, start, l),
            queue_ok(parent_cost@, queue.entries(), seen, plain, last),
            seen_ok(g, &end_predicate, &dist_fn, parent_cost@, seen, plain, last),
            weights_known(g, &dist_fn, seen, plain),
            witnessed(g, &should_shortcut, &dist_fn, parent_cost@, start),
            potential_sum(parent_cost@, l, l.len() as int) >= 0,
        decreases potential_sum(parent_cost@, l, l.len() as int), queue.entries().len(),
    {
        let ghost m0 = parent_cost@;
        let ghost q0 = queue.entries();
        let popped = queue.pop_min();
        let (cost, vertex) = match popped {
            Some(e) => e,
            None => {
                proof {
                    reveal(queue_ok);
                    reveal(seen_ok);
                    reveal(ranked);
                    assert forall|v: usize| #[trigger] parent_cost@.contains_key(v) implies seen.contains(v) by {
                        if !seen.contains(v) {
                            assert(q0.contains((parent_cost@[v].1, v)));
                        }
                    }
                    assert forall|v: usize| #[trigger] seen.contains(v) implies exists|r: Seq<usize>|
                        #[trigger] g.neighbors_ok(v, r) && forall|i: int| 0 <= i < r.len() ==> seen.contains(r[i]) by {
                        let r = choose|r: Seq<usize>|
                            #[trigger] g.neighbors_ok(v, r) && forall|i: int|
                                0 <= i < r.len() ==> parent_cost@.contains_key(r[i]);
                        assert forall|i: int| 0 <= i < r.len() implies seen.contains(r[i]) by {
                            assert(parent_cost@.contains_key(r[i]));
                        }
                    }
                    assert(seen.contains(start));
                    assert(search_exhausted(g, start, &end_predicate, seen));
                }
                return None;
            },
        };
        let ghost q1 = queue.entries();
        proof {
            lemma_pop(m0, q0, q1, seen, plain, last, (cost, vertex));
            lemma_seen_last(g, &end_predicate, &dist_fn, m0, seen, plain, last, cost);
            last = cost;
        }
        let (parent, best_cost) = match parent_cost.get(&vertex) {
            Some(e) => *e,
            None => {
                proof {
                    assert(false);
                }
                return None;
            },
        };
        if best_cost < cost {
            continue;
        }
        let ghost pw = witness_of(g, &should_shortcut, &dist_fn, parent_cost@, start, vertex);
        proof {
            lemma_witness_of(g, &should_shortcut, &dist_fn, parent_cost@, start, vertex);
        }
        if end_predicate(vertex) {
            let mut back: Vec<usize> = Vec::new();
            back.push(vertex);
            let mut v = vertex;
            let ghost mut ws: Seq<u64> = Seq::empty();
            proof {
                reveal(ranked);
                reveal(links_ok);
            }
            while v != start
                invariant
                    ranked(parent_cost@, times, clock, start),
                    links_ok(g, &should_shortcut, &dist_fn, parent_cost@, wts, start, l),
                    parent_cost@.contains_key(v),
                    parent_cost@[v].1 <= cost,
                    back@.len() >= 1,
                    back@[0] == vertex,
                    back@.last() == v,
                    forall|i: int|
                        0 <= i < back@.len() - 1 ==> search_step(
                            g,
                            &should_shortcut,
                            #[trigger] back@[i + 1],
                            back@[i],
                        ),
                    ws.len() == back@.len() - 1,
                    forall|i: int|
                        0 <= i < ws.len() ==> dist_fn.ensures(
                            (back@[back@.len() - 1 - i], back@[back@.len() - 2 - i]),
                            #[trigger] ws[i],
                        ),
                    cost == u64::MAX || parent_cost@[v].1 + weight_sum(ws) <= cost,
                decreases parent_cost@[v].1, times[v],
            {
                proof {
                    reveal(ranked);
                    reveal(links_ok);
                }
                let p = match parent_cost.get(&v) {
                    Some(e) => e.0,
                    None => {
                        proof {
                            assert(false);
                        }
                        v
                    },
                };
                proof {
                    assert(parent_cost@.contains_key(v) && v != start);
                    let w = wts[v];
                    let ws2 = seq![w] + ws;
                    assert(ws2.drop_first() =~= ws);
                    assert(weight_sum(ws2) == w + weight_sum(ws));
                    ws = ws2;
                }
                let ghost back0 = back@;
                back.push(p);
                proof {
                    assert forall|i: int| 0 <= i < ws.len() implies dist_fn.ensures(
                        (back@[back@.len() - 1 - i], back@[back@.len() - 2 - i]),
                        #[trigger] ws[i],
                    ) by {
                        if i > 0 {
                            assert(ws[i] == ws.drop_first()[i - 1]);
                            assert(back@[back@.len() - 1 - i] == back0[back0.len() - 1 - (i - 1)]);
                            assert(back@[back@.len() - 2 - i] == back0[back0.len() - 2 - (i - 1)]);
                        }
                    }
                }
                v = p;
            }
            let path = reversed(&back);
            proof {
                reveal(ranked);
                assert forall|i: int| 0 <= i < path@.len() - 1 implies search_step(
                    g,
                    &should_shortcut,
                    #[trigger] path@[i],
                    path@[i + 1],
                ) by {
                    let n = back@.len();
                    assert(path@[i] == back@[n - 1 - i]);
                    assert(path@[i + 1] == back@[n - 1 - (i + 1)]);
                    assert(back@[(n - 2 - i) + 1] == back@[n - 1 - i]);
                }
                assert(path@.last() == back@[0]);
                assert forall|i: int| 0 <= i < ws.len() implies dist_fn.ensures(
                    (path@[i], path@[i + 1]),
                    #[trigger] ws[i],
                ) by {
                    let n = back@.len();
                    assert(path@[i] == back@[n - 1 - i]);
                    assert(path@[i + 1] == back@[n - 1 - (i + 1)]);
                }
                assert(search_cost(&dist_fn, path@, cost));
                assert(search_walk_of_cost(g, &should_shortcut, &dist_fn, start, pw.0, pw.1, cost));
                assert(pw.0.last() == path@.last());
                assert(reached_at_cost(g, &should_shortcut, &dist_fn, start, path@.last(), cost));
                if plain {
                    reveal(queue_ok);
                    reveal(seen_ok);
                    lemma_search_optimal(g, &end_predicate, &dist_fn, &should_shortcut, start, m0, seen, q0, cost, path@, ws);
                    assert forall|w: spec_fn(usize, usize) -> u64, e: spec_fn(usize) -> bool, p: Seq<usize>|
                        #![trigger weight_sum(weights_by(w, p)), ends_at(e, p)]
                        (forall|a: usize, b: usize, x: u64| #[trigger] dist_fn.ensures((a, b), x) ==> x == w(a, b))
                            && (forall|v: usize, b: bool| #[trigger] end_predicate.ensures((v,), b) ==> b == e(v))
                            && graph_walk(g, start, p) && ends_at(e, p) implies cost <= weight_sum(weights_by(w, p)) by {
                        lemma_search_optimal_by(g, &end_predicate, &dist_fn, start, m0, seen, q0, cost, w, e, p);
                    }
                }
            }
            return Some((path, cost));
        }
        proof {
            reveal(links_ok);
            reveal(ranked);
            assert(l.contains(vertex));
            assert(parent_cost@.contains_key(parent));
        }
        let children = g.neighbors(vertex);
        let ghost m1 = parent_cost@;
        let ghost mut pushes: nat = 0;
        let mut i: usize = 0;
        while i < children.len()
            invariant
                g.graph_ok(),
                finitely_reachable(g, start, l),
                forall|a: usize, b: usize| #[trigger] dist_fn.requires((a, b)),
                forall|a: usize, b: usize| #[trigger] should_shortcut.requires((a, b)),
                plain == plain_search(g, &end_predicate, &dist_fn, &should_shortcut),
                g.neighbors_ok(vertex, children@),
                l.contains(vertex),
                end_predicate.ensures((vertex,), false),
                ranked(parent_cost@, times, clock, start),
                links_ok(g, &should_shortcut, &dist_fn, parent_cost@, wts, start, l),
                queue_ok(parent_cost@, queue.entries(), seen.insert(vertex), plain, last),
                seen_ok(g, &end_predicate, &dist_fn, parent_cost@, seen, plain, last),
                last == cost,
                parent_cost@.contains_key(vertex),
                parent_cost@[vertex].1 <= cost,
                plain ==> parent_cost@[vertex].1 == cost,
                parent_cost@.contains_key(parent),
                forall|v: usize| #[trigger] m1.contains_key(v) ==> parent_cost@.contains_key(v),
                forall|v: usize| #[trigger] potential(parent_cost@, v) <= potential(m1, v),
                m1 == m0,
                i <= children@.len(),
                forall|j: int| 0 <= j < i ==> parent_cost@.contains_key(#[trigger] children@[j]),
                plain ==> forall|j: int, w: u64|
                    0 <= j < i && #[trigger] dist_fn.ensures((vertex, children@[j]), w) ==> parent_cost@[children@[j]].1
                        <= cost + w,
                plain ==> forall|j: int|
                    #![trigger children@[j]]
                    0 <= j < i ==> exists|x: u64| #[trigger] dist_fn.ensures((vertex, children@[j]), x),
                weights_known(g, &dist_fn, seen, plain),
                witnessed(g, &should_shortcut, &dist_fn, parent_cost@, start),
                cost_path(g, &should_shortcut, &dist_fn, parent_cost@, start, vertex, cost, pw.0, pw.1),
                queue.entries().len() == q1.len() + pushes,
                q1.len() + 1 == q0.len(),
                pushes == 0 ==> parent_cost@ == m1,
                pushes > 0 ==> potential_sum(parent_cost@, l, l.len() as int) < potential_sum(
                    m1,
                    l,
                    l.len() as int,
                ),
            decreases children@.len() - i,
        {
            let child = children[i];
            proof {
                reveal(ranked);
                assert(l.contains(child));
            }
            let shortcut = should_shortcut(parent, child);
            let (new_parent, base) = if shortcut {
                let pcost = match parent_cost.get(&parent) {
                    Some(e) => e.1,
                    None => {
                        proof {
                            assert(false);
                        }
                        0
                    },
                };
                (parent, pcost)
            } else {
                (vertex, cost)
            };
            let d = dist_fn(new_parent, child);
            let new_cost = base.saturating_add(d);
            let better = match parent_cost.get(&child) {
                Some(e) => new_cost < e.1,
                None => true,
            };
            let ghost before = parent_cost@;
            let ghost qb = queue.entries();
            if better {
                proof {
                    assert(search_step(g, &should_shortcut, new_parent, child)) by {
                        if !shortcut {
                            assert(children@.contains(child)) by {
                                assert(children@[i as int] == child);
                            }
                        }
                    }
                    lemma_relax_ranked(before, times, clock, start, child, new_parent, new_cost);
                    lemma_relax_links(g, &should_shortcut, &dist_fn, before, wts, start, l, child, new_parent, new_cost, d);
                    lemma_relax_queue(before, qb, seen.insert(vertex), plain, last, child, new_parent, new_cost);
                    lemma_relax_seen(g, &end_predicate, &dist_fn, before, seen, plain, last, child, new_parent, new_cost);
                    let m2 = before.insert(child, (new_parent, new_cost));
                    if shortcut {
                        let qw = witness_of(g, &should_shortcut, &dist_fn, before, start, parent);
                        lemma_witness_of(g, &should_shortcut, &dist_fn, before, start, parent);
                        lemma_relax_witness(g, &should_shortcut, &dist_fn, before, start, parent, base, qw.0, qw.1, child, d, new_cost, (new_parent, new_cost));
                    } else {
                        lemma_relax_witness(g, &should_shortcut, &dist_fn, before, start, vertex, cost, pw.0, pw.1, child, d, new_cost, (new_parent, new_cost));
                    }
                    assert forall|x: usize| #[trigger] before.contains_key(x) implies m2.contains_key(x) && m2[x].1 <= before[x].1 by {}
                    lemma_cost_path_mono(g, &should_shortcut, &dist_fn, before, m2, start, vertex, cost, pw.0, pw.1);
                }
                parent_cost.insert(child, (new_parent, new_cost));
                queue.push(new_cost, child);
                proof {
                    times = times.insert(child, clock + 1);
                    clock = clock + 1;
                    wts = wts.insert(child, d);
                    assert(potential(parent_cost@, child) < potential(before, child));
                    assert forall|v: usize| #[trigger] potential(parent_cost@, v) <= potential(m1, v) by {
                        assert(potential(before, v) <= potential(m1, v));
                    }
                    assert(potential(before, child) <= potential(m1, child));
                    let j = choose|j: int| 0 <= j < l.len() && l[j] == child;
                    lemma_potential_sum_falls(m1, parent_cost@, l, l.len() as int, j);
                    pushes = pushes + 1;
                }
            }
            proof {
                if plain {
                    assert(!shortcut);
                    assert forall|j: int, w: u64|
                        0 <= j < i + 1 && #[trigger] dist_fn.ensures((vertex, children@[j]), w) implies parent_cost@[children@[j]].1
                            <= cost + w by {
                        if j < i {
                            assert(before.contains_key(children@[j]));
                        } else {
                            assert(w == d);
                        }
                    }
                    assert(dist_fn.ensures((vertex, children@[i as int]), d));
                    assert forall|j: int|
                        #![trigger children@[j]]
                        0 <= j < i + 1 implies exists|x: u64| #[trigger] dist_fn.ensures((vertex, children@[j]), x) by {
                        if j == i {
                            assert(dist_fn.ensures((vertex, children@[j]), d));
                        }
                    }
                }
            }
            i += 1;
        }
        proof {
            lemma_expanded(g, &end_predicate, &dist_fn, parent_cost@, seen, plain, last, vertex, children@);
            lemma_weights_known_insert(g, &dist_fn, seen, plain, vertex, children@);
            seen = seen.insert(vertex);
            lemma_potential_sum_nonneg(parent_cost@, l, l.len() as int);
        }
    }
}

/// Once `dist_fn` has answered for each link out of `vertex`, its links join the known ones.
proof fn lemma_weights_known_insert<G: Graph, D: Fn(usize, usize) -> u64>(
    g: &G,
    dist_fn: &D,
    seen: Set<usize>,
    plain: bool,
    vertex: usize,
    children: Seq<usize>,
)
    requires
        weights_known(g, dist_fn, seen, plain),
        g.neighbors_ok(vertex, children),
        plain ==> forall|v: usize, r1: Seq<usize>, r2: Seq<usize>|
            #[trigger] g.neighbors_ok(v, r1) && #[trigger] g.neighbors_ok(v, r2) ==> r1 == r2,
        plain ==> forall|j: int|
            #![trigger children[j]]
            0 <= j < children.len() ==> exists|x: u64| #[trigger] dist_fn.ensures((vertex, children[j]), x),
    ensures
        weights_known(g, dist_fn, seen.insert(vertex), plain),
{
    reveal(weights_known);
    if plain {
        let s2 = seen.insert(vertex);
        assert forall|v: usize, r: Seq<usize>| #[trigger] g.neighbors_ok(v, r) && s2.contains(v) implies forall|i: int|
            #![trigger r[i]]
            0 <= i < r.len() ==> exists|x: u64| #[trigger] dist_fn.ensures((v, r[i]), x) by {
            if v == vertex {
                assert(r == children);
            } else {
                assert(seen.contains(v));
            }
        }
    }
}

/// At the end of a plain search, its cost is at most the weight of any walk to an end, both
/// weights and ends given by spec functions that `dist_fn` and `end_predicate` follow.
proof fn lemma_search_optimal_by<G: Graph, E: Fn(usize) -> bool, D: Fn(usize, usize) -> u64>(
    g: &G,
    end_predicate: &E,
    dist_fn: &D,
    start: usize,
    m: Map<usize, (usize, u64)>,
    seen: Set<usize>,
    q: Multiset<(u64, usize)>,
    cost: u64,
    w: spec_fn(usize, usize) -> u64,
    e: spec_fn(usize) -> bool,
    p: Seq<usize>,
)
    requires
        m.contains_key(start),
        m[start].1 == 0,
        forall|v: usize| #[trigger] m.contains_key(v) && !seen.contains(v) ==> q.contains((m[v].1, v)),
        forall|x: (u64, usize)| #[trigger] q.contains(x) ==> cost <= x.0,
        forall|s: usize| #[trigger] seen.contains(s) ==> end_predicate.ensures((s,), false),
        forall|s: usize, r: Seq<usize>|
            #[trigger] g.neighbors_ok(s, r) && seen.contains(s) ==> forall|i: int|
                0 <= i < r.len() ==> m.contains_key(r[i]) && forall|x: u64|
                    #[trigger] dist_fn.ensures((s, r[i]), x) ==> m[r[i]].1 <= m[s].1 + x,
        weights_known(g, dist_fn, seen, true),
        forall|a: usize, b: usize, x: u64| #[trigger] dist_fn.ensures((a, b), x) ==> x == w(a, b),
        forall|v: usize, b: bool| #[trigger] end_predicate.ensures((v,), b) ==> b == e(v),
        graph_walk(g, start, p),
        e(p.last()),
    ensures
        cost <= weight_sum(weights_by(w, p)),
{
    reveal(weights_known);
    let ws = weights_by(w, p);
    assert forall|i: int| 0 <= i < ws.len() && seen.contains(p[i]) implies dist_fn.ensures(
        (p[i], p[i + 1]),
        #[trigger] ws[i],
    ) by {
        assert(graph_step(g, p[i], p[i + 1]));
        let r = choose|r: Seq<usize>| #[trigger] g.neighbors_ok(p[i], r) && r.contains(p[i + 1]);
        let k = choose|k: int| 0 <= k < r.len() && r[k] == p[i + 1];
        assert(r[k] == p[i + 1]);
        let x = choose|x: u64| #[trigger] dist_fn.ensures((p[i], r[k]), x);
        assert(x == w(p[i], p[i + 1]));
    }
    lemma_walk_bound(g, dist_fn, start, m, seen, q, cost, p, ws, p.len() - 1);
    assert(ws.take(p.len() - 1) =~= ws);
    let x = p.last();
    if m.contains_key(x) && m[x].1 <= weight_sum(ws) {
        if seen.contains(x) {
            assert(end_predicate.ensures((x,), false));
        } else {
            assert(q.contains((m[x].1, x)));
        }
    }
}

/// At the end of a plain search, its cost is at most the weight of any walk to an end, and its
/// path is such a walk of that weight.
proof fn lemma_search_optimal<G: Graph, E: Fn(usize) -> bool, D: Fn(usize, usize) -> u64, S: Fn(
    usize,
    usize,
) -> bool>(
    g: &G,
    end_predicate: &E,
    dist_fn: &D,
    should_shortcut: &S,
    start: usize,
    m: Map<usize, (usize, u64)>,
    seen: Set<usize>,
    q: Multiset<(u64, usize)>,
    cost: u64,
    path: Seq<usize>,
    pws: Seq<u64>,
)
    requires
        plain_search(g, end_predicate, dist_fn, should_shortcut),
        m.contains_key(start),
        m[start].1 == 0,
        forall|v: usize| #[trigger] m.contains_key(v) && !seen.contains(v) ==> q.contains((m[v].1, v)),
        forall|x: (u64, usize)| #[trigger] q.contains(x) ==> cost <= x.0,
        forall|s: usize| #[trigger] seen.contains(s) ==> end_predicate.ensures((s,), false),
        forall|s: usize, r: Seq<usize>|
            #[trigger] g.neighbors_ok(s, r) && seen.contains(s) ==> forall|i: int|
                0 <= i < r.len() ==> m.contains_key(r[i]) && forall|w: u64|
                    #[trigger] dist_fn.ensures((s, r[i]), w) ==> m[r[i]].1 <= m[s].1 + w,
        search_path(g, start, end_predicate, should_shortcut, path),
        pws.len() == path.len() - 1,
        forall|i: int| 0 <= i < pws.len() ==> dist_fn.ensures((path[i], path[i + 1]), #[trigger] pws[i]),
        cost == u64::MAX || weight_sum(pws) <= cost,
    ensures
        forall|p: Seq<usize>, ws: Seq<u64>|
            graph_walk(g, start, p) && end_predicate.ensures((p.last(),), true) && walk_weights(
                dist_fn,
                p,
                ws,
            ) ==> cost <= weight_sum(ws),
        graph_walk(g, start, path),
        walk_weights(dist_fn, path, pws),
        weight_sum(pws) == cost || (cost == u64::MAX && weight_sum(pws) >= cost),
{
    assert forall|p: Seq<usize>, ws: Seq<u64>|
        graph_walk(g, start, p) && end_predicate.ensures((p.last(),), true) && walk_weights(
            dist_fn,
            p,
            ws,
        ) implies cost <= weight_sum(ws) by {
        lemma_walk_bound(g, dist_fn, start, m, seen, q, cost, p, ws, p.len() - 1);
        assert(ws.take(p.len() - 1) =~= ws);
        let x = p.last();
        if m.contains_key(x) && m[x].1 <= weight_sum(ws) {
            if seen.contains(x) {
                assert(end_predicate.ensures((x,), false));
            } else {
                assert(q.contains((m[x].1, x)));
            }
        }
    }
    assert forall|i: int| 0 <= i < path.len() - 1 implies #[trigger] graph_step(g, path[i], path[i + 1]) by {
        assert(search_step(g, should_shortcut, path[i], path[i + 1]));
        assert(!should_shortcut.ensures((path[i], path[i + 1]), true));
    }
    assert(path.len() >= 1 && path[0] == start);
    assert(graph_walk(g, start, path));
    assert(walk_weights(dist_fn, path, pws));
    assert(cost <= weight_sum(pws));
}

} // verus!
