use vstd::prelude::*;
use crate::graphs::traits::{Graph, IterableGraph};
use std::collections::HashMap;
use vstd::cell::invcell::InvCell;

verus! {

/// A graph whose vertices are the integers `0..n`, stored as adjacency lists.
#[derive(Clone, Debug)]
pub struct LinkGraph {
    nexts: Vec<Vec<usize>>,
}

/// `s` grown with empty rows up to length `n`, when it is shorter.
pub open spec fn padded(s: Seq<Seq<usize>>, n: nat) -> Seq<Seq<usize>> {
    Seq::new(
        if s.len() >= n {
            s.len()
        } else {
            n
        },
        |i: int|
            if i < s.len() {
                s[i]
            } else {
                Seq::<usize>::empty()
            },
    )
}

/// `s` after removing every `x` as a scan from index `i` does: an `x` at the scan position is
/// replaced by the last item (the list shrinking by one) and looked at again; any other item is
/// passed.
pub open spec fn swap_removed(s: Seq<usize>, x: usize, i: int) -> Seq<usize>
    decreases s.len(), s.len() - i,
{
    if i < 0 || i >= s.len() {
        s
    } else if s[i] == x {
        swap_removed(s.update(i, s.last()).drop_last(), x, i)
    } else {
        swap_removed(s, x, i + 1)
    }
}

/// Removing an end that was just appended to a row where it did not occur gives the row back,
/// in its order: `remove_link` undoes `add_new_link`.
pub proof fn lemma_remove_undoes_add(s: Seq<usize>, x: usize)
    requires
        !s.contains(x),
    ensures
        swap_removed(s.push(x), x, 0) == s,
{
    lemma_remove_appended_from(s, x, 0);
}

proof fn lemma_remove_appended_from(s: Seq<usize>, x: usize, i: int)
    requires
        !s.contains(x),
        0 <= i <= s.len(),
    ensures
        swap_removed(s.push(x), x, i) == s,
    decreases s.len() - i,
{
    let t = s.push(x);
    if i < s.len() {
        assert(t[i] == s[i]);
        assert(t[i] != x);
        lemma_remove_appended_from(s, x, i + 1);
        assert(swap_removed(t, x, i) == swap_removed(t, x, i + 1));
    } else {
        assert(t[i] == x);
        let u = t.update(i, t.last()).drop_last();
        assert(u =~= s);
        assert(swap_removed(u, x, i) == u);
        assert(swap_removed(t, x, i) == swap_removed(u, x, i));
    }
}

/// Whether `x` occurs in `v`.
fn vec_contains(v: &Vec<usize>, x: usize) -> (r: bool)
    ensures
        r == v@.contains(x),
{
    let mut i: usize = 0;
    while i < v.len()
        invariant
            i <= v@.len(),
            forall|j: int| 0 <= j < i ==> v@[j] != x,
        decreases v@.len() - i,
    {
        if v[i] == x {
            return true;
        }
        i += 1;
    }
    false
}

impl LinkGraph {
    /// The adjacency lists: row `i` lists the ends of the links that start at `i`, in order.
    pub closed spec fn rows(&self) -> Seq<Seq<usize>> {
        self.nexts@.map_values(|r: Vec<usize>| r@)
    }

    /// A graph with no vertex.
    pub fn new() -> (g: Self)
        ensures
            g.rows() == Seq::<Seq<usize>>::empty(),
    {
        LinkGraph { nexts: Vec::new() }
    }

    /// Adds empty rows until both `start` and `end` are vertices.
    fn grow_to(&mut self, start: usize, end: usize)
        requires
            start < usize::MAX,
            end < usize::MAX,
        ensures
            final(self).rows() == padded(
                old(self).rows(),
                (if start > end {
                    start
                } else {
                    end
                }) as nat + 1,
            ),
    {
        let m = if start > end { start } else { end };
        let n = self.nexts.len();
        if m >= n {
            let mut k: usize = 0;
            while k < m - n + 1
                invariant
                    n == old(self).nexts@.len(),
                    m >= n,
                    m < usize::MAX,
                    k <= m - n + 1,
                    self.nexts@.len() == n + k,
                    forall|i: int| 0 <= i < n ==> #[trigger] self.nexts@[i] == old(self).nexts@[i],
                    forall|i: int| n <= i < n + k ==> (#[trigger] self.nexts@[i])@ == Seq::<usize>::empty(),
                decreases m - n + 1 - k,
            {
                self.nexts.push(Vec::new());
                k += 1;
            }
        }
        assert(self.rows() =~= padded(old(self).rows(), m as nat + 1));
    }

    /// Adds the link `start -> end`, growing the vertex set as needed. A link that is already
    /// there is added once more.
    pub fn add_new_link(&mut self, start: usize, end: usize)
        requires
            start < usize::MAX,
            end < usize::MAX,
        ensures
            ({
                let grown = padded(
                    old(self).rows(),
                    (if start > end {
                        start
                    } else {
                        end
                    }) as nat + 1,
                );
                final(self).rows() == grown.update(start as int, grown[start as int].push(end))
            }),
    {
        self.grow_to(start, end);
        let ghost grown = self.rows();
        assert(self.nexts@.len() == grown.len());
        self.nexts[start].push(end);
        assert(self.rows() =~= grown.update(start as int, grown[start as int].push(end)));
    }

    /// Adds the link `start -> end` unless it is already there, growing the vertex set as
    /// needed.
    pub fn add_link(&mut self, start: usize, end: usize)
        requires
            start < usize::MAX,
            end < usize::MAX,
        ensures
            ({
                let grown = padded(
                    old(self).rows(),
                    (if start > end {
                        start
                    } else {
                        end
                    }) as nat + 1,
                );
                final(self).rows() == if grown[start as int].contains(end) {
                    grown
                } else {
                    grown.update(start as int, grown[start as int].push(end))
                }
            }),
    {
        self.grow_to(start, end);
        let ghost grown = self.rows();
        assert(self.nexts@.len() == grown.len());
        assert(self.nexts@[start as int]@ == grown[start as int]);
        if !vec_contains(&self.nexts[start], end) {
            self.nexts[start].push(end);
            assert(self.rows() =~= grown.update(start as int, grown[start as int].push(end)));
        }
    }

    /// Removes every link `start -> end`. The other ends of `start` stay, possibly in another
    /// order.
    pub fn remove_link(&mut self, start: usize, end: usize)
        ensures
            final(self).rows().len() == old(self).rows().len(),
            forall|i: int|
                0 <= i < old(self).rows().len() && i != start ==> #[trigger] final(self).rows()[i]
                    == old(self).rows()[i],
            start < old(self).rows().len() ==> forall|x: usize|
                #[trigger] final(self).rows()[start as int].to_multiset().count(x) == if x == end {
                    0
                } else {
                    old(self).rows()[start as int].to_multiset().count(x)
                },
            start < old(self).rows().len() ==> final(self).rows()[start as int] == swap_removed(
                old(self).rows()[start as int],
                end,
                0,
            ),
    {
        if start >= self.nexts.len() {
            return;
        }
        let mut row: Vec<usize> = Vec::new();
        std::mem::swap(&mut row, &mut self.nexts[start]);
        let ghost orig = row@;
        let mut i: usize = 0;
        while i < row.len()
            invariant
                i <= row@.len(),
                forall|j: int| 0 <= j < i ==> row@[j] != end,
                forall|x: usize| x != end ==> #[trigger] row@.to_multiset().count(x) == orig.to_multiset().count(x),
                row@.to_multiset().count(end) <= orig.to_multiset().count(end),
                swap_removed(row@, end, i as int) == swap_removed(orig, end, 0),
            decreases row@.len() - i,
        {
            if row[i] == end {
                proof {
                    lemma_swap_remove_multiset(row@, i as int);
                    assert(swap_removed(row@, end, i as int) == swap_removed(
                        row@.update(i as int, row@.last()).drop_last(),
                        end,
                        i as int,
                    ));
                }
                let ghost r0 = row@;
                row.swap_remove(i);
                proof {
                    assert(row@ =~= r0.update(i as int, r0.last()).drop_last());
                }
            } else {
                i += 1;
            }
        }
        proof {
            assert(swap_removed(row@, end, i as int) == row@);
            assert(!row@.contains(end));
            row@.to_multiset_ensures();
        }
        self.nexts.set(start, row);
        proof {
            assert forall|k: int| 0 <= k < old(self).rows().len() && k != start implies #[trigger] self.rows()[k]
                == old(self).rows()[k] by {}
        }
    }
}

impl Default for LinkGraph {
    /// A graph with no vertex.
    fn default() -> (g: Self)
        ensures
            g.rows() == Seq::<Seq<usize>>::empty(),
    {
        LinkGraph::new()
    }
}

impl Graph for LinkGraph {
    open spec fn graph_ok(&self) -> bool {
        true
    }

    open spec fn has_vertex(&self, vertex: usize) -> bool {
        vertex < self.rows().len()
    }

    open spec fn neighbors_ok(&self, vertex: usize, r: Seq<usize>) -> bool {
        r == self.rows()[vertex as int]
    }

    /// The ends of the links that start at `vertex`, in the order they were added.
    fn neighbors(&self, vertex: usize) -> (r: Vec<usize>) {
        let r = self.nexts[vertex].clone();
        assert(r@ =~= self.rows()[vertex as int]);
        r
    }
}

/// The integers `0..n` in increasing order.
fn range_vec(n: usize) -> (r: Vec<usize>)
    ensures
        r@.len() == n,
        forall|i: int| 0 <= i < n ==> #[trigger] r@[i] == i,
{
    let mut r: Vec<usize> = Vec::new();
    let mut i: usize = 0;
    while i < n
        invariant
            i <= n,
            r@.len() == i,
            forall|j: int| 0 <= j < i ==> #[trigger] r@[j] == j,
        decreases n - i,
    {
        r.push(i);
        i += 1;
    }
    r
}

proof fn lemma_range_vec(r: Seq<usize>, n: usize)
    requires
        r.len() == n,
        forall|i: int| 0 <= i < n ==> #[trigger] r[i] == i,
    ensures
        r.no_duplicates(),
        forall|v: usize| r.contains(v) <==> v < n,
{
    assert forall|v: usize| v < n implies r.contains(v) by {
        assert(r[v as int] == v);
    }
}

impl IterableGraph for LinkGraph {
    open spec fn listed(&self, v: usize) -> bool {
        self.has_vertex(v)
    }

    /// The vertices `0..n` in increasing order.
    fn iter(&self) -> (r: Vec<usize>)
        ensures
            r@.len() == self.rows().len(),
            forall|i: int| 0 <= i < r@.len() ==> #[trigger] r@[i] == i,
    {
        let r = range_vec(self.nexts.len());
        proof {
            lemma_range_vec(r@, self.nexts@.len() as usize);
        }
        r
    }
}

broadcast use vstd::std_specs::hash::group_hash_axioms;

/// A graph stored as adjacency lists in a hash map: the vertices are its keys.
#[derive(Clone, Debug)]
pub struct MapGraph {
    nexts: HashMap<usize, Vec<usize>>,
}

impl MapGraph {
    /// The adjacency lists: the ends of the links that start at each vertex, in order.
    pub closed spec fn adjacency(&self) -> Map<usize, Seq<usize>> {
        Map::new(|k: usize| self.nexts@.contains_key(k), |k: usize| self.nexts@[k]@)
    }

    /// The row of `start`, or an empty one when `start` is not a vertex.
    pub open spec fn row_or_empty(&self, start: usize) -> Seq<usize> {
        if self.adjacency().contains_key(start) {
            self.adjacency()[start]
        } else {
            Seq::empty()
        }
    }

    /// A graph with no vertex.
    pub fn new() -> (g: Self)
        ensures
            g.adjacency() == Map::<usize, Seq<usize>>::empty(),
    {
        let g = MapGraph { nexts: HashMap::new() };
        assert(g.adjacency() =~= Map::<usize, Seq<usize>>::empty());
        g
    }

    /// Takes the row of `start` out of the map (an empty row when there is none).
    fn take_row(&mut self, start: usize) -> (row: Vec<usize>)
        ensures
            row@ == old(self).row_or_empty(start),
            final(self).adjacency() == old(self).adjacency().remove(start),
    {
        let row = match self.nexts.remove(&start) {
            Some(r) => r,
            None => Vec::new(),
        };
        assert(self.adjacency() =~= old(self).adjacency().remove(start));
        row
    }

    /// Puts `row` back as the row of `start`.
    fn put_row(&mut self, start: usize, row: Vec<usize>)
        ensures
            final(self).adjacency() == old(self).adjacency().insert(start, row@),
    {
        self.nexts.insert(start, row);
        assert(self.adjacency() =~= old(self).adjacency().insert(start, row@));
    }

    /// Adds the link `start -> end`, making `start` a vertex if it is not one. A link that is
    /// already there is added once more.
    pub fn add_new_link(&mut self, start: usize, end: usize)
        ensures
            final(self).adjacency() == old(self).adjacency().insert(
                start,
                old(self).row_or_empty(start).push(end),
            ),
    {
        let mut row = self.take_row(start);
        row.push(end);
        self.put_row(start, row);
        assert(self.adjacency() =~= old(self).adjacency().insert(
            start,
            old(self).row_or_empty(start).push(end),
        ));
    }

    /// Adds the link `start -> end` unless it is already there; `start` must be a vertex.
    pub fn add_link(&mut self, start: usize, end: usize)
        requires
            old(self).adjacency().contains_key(start),
        ensures
            final(self).adjacency() == if old(self).adjacency()[start].contains(end) {
                old(self).adjacency()
            } else {
                old(self).adjacency().insert(start, old(self).adjacency()[start].push(end))
            },
    {
        assert(self.nexts@.contains_key(start));
        let row = self.nexts.get(&start).unwrap();
        if !vec_contains(row, end) {
            self.add_new_link(start, end);
        }
    }

    /// Removes every link `start -> end`, making `start` a vertex if it is not one. The other
    /// ends of `start` stay, possibly in another order.
    pub fn remove_link(&mut self, start: usize, end: usize)
        ensures
            final(self).adjacency().dom() == old(self).adjacency().dom().insert(start),
            forall|k: usize|
                old(self).adjacency().contains_key(k) && k != start ==> #[trigger] final(self).adjacency()[k] == old(self).adjacency()[k],
            forall|x: usize|
                #[trigger] final(self).adjacency()[start].to_multiset().count(x) == if x == end {
                    0
                } else {
                    old(self).row_or_empty(start).to_multiset().count(x)
                },
            final(self).adjacency()[start] == swap_removed(old(self).row_or_empty(start), end, 0),
    {
        let mut row = self.take_row(start);
        let ghost orig = row@;
        let mut i: usize = 0;
        while i < row.len()
            invariant
                i <= row@.len(),
                forall|j: int| 0 <= j < i ==> row@[j] != end,
                forall|x: usize| x != end ==> #[trigger] row@.to_multiset().count(x) == orig.to_multiset().count(x),
                swap_removed(row@, end, i as int) == swap_removed(orig, end, 0),
            decreases row@.len() - i,
        {
            if row[i] == end {
                proof {
                    lemma_swap_remove_multiset(row@, i as int);
                    assert(swap_removed(row@, end, i as int) == swap_removed(
                        row@.update(i as int, row@.last()).drop_last(),
                        end,
                        i as int,
                    ));
                }
                let ghost r0 = row@;
                row.swap_remove(i);
                proof {
                    assert(row@ =~= r0.update(i as int, r0.last()).drop_last());
                }
            } else {
                i += 1;
            }
        }
        proof {
            assert(swap_removed(row@, end, i as int) == row@);
            assert(!row@.contains(end));
            row@.to_multiset_ensures();
        }
        self.put_row(start, row);
        assert(self.adjacency().dom() =~= old(self).adjacency().dom().insert(start));
    }

    /// Makes `ends` the row of `start`.
    pub fn set_neighbors(&mut self, start: usize, ends: Vec<usize>)
        ensures
            final(self).adjacency() == old(self).adjacency().insert(start, ends@),
    {
        self.put_row(start, ends);
    }

    /// The graph whose vertices are `vertices` and whose row of each vertex `v` is `f(v)`: `f` is
    /// called once for each item, in order, and a vertex listed more than once keeps the answer
    /// of its last call.
    pub fn from_fn<F: Fn(usize) -> Vec<usize>>(vertices: Vec<usize>, f: F) -> (g: Self)
        requires
            forall|v: usize| #[trigger] f.requires((v,)),
        ensures
            forall|v: usize| g.adjacency().contains_key(v) <==> vertices@.contains(v),
            exists|answers: Seq<Vec<usize>>| #[trigger] last_answers(f, vertices@, g.adjacency(), answers),
            forall|v: usize|
                #[trigger] g.adjacency().contains_key(v) ==> exists|r: Vec<usize>|
                    f.ensures((v,), r) && r@ == g.adjacency()[v],
    {
        let mut g = MapGraph::new();
        let ghost mut answers: Seq<Vec<usize>> = Seq::empty();
        let mut i: usize = 0;
        while i < vertices.len()
            invariant
                i <= vertices@.len(),
                forall|v: usize| #[trigger] f.requires((v,)),
                answers.len() == i,
                forall|j: int| 0 <= j < i ==> f.ensures((vertices@[j],), #[trigger] answers[j]),
                forall|j: int|
                    0 <= j < i && (forall|k: int| j < k < i ==> vertices@[k] != vertices@[j])
                        ==> g.adjacency()[#[trigger] vertices@[j]] == answers[j]@,
                forall|v: usize|
                    g.adjacency().contains_key(v) <==> exists|j: int|
                        0 <= j < i && #[trigger] vertices@[j] == v,
                forall|v: usize|
                    #[trigger] g.adjacency().contains_key(v) ==> exists|r: Vec<usize>|
                        f.ensures((v,), r) && r@ == g.adjacency()[v],
            decreases vertices@.len() - i,
        {
            let v = vertices[i];
            let row = f(v);
            let ghost a0 = answers;
            let ghost adj0 = g.adjacency();
            proof {
                answers = answers.push(row);
            }
            g.put_row(v, row);
            proof {
                assert forall|w: usize|
                    g.adjacency().contains_key(w) <==> exists|j: int|
                        0 <= j < i + 1 && #[trigger] vertices@[j] == w by {
                    if w == v {
                        assert(vertices@[i as int] == w);
                    }
                }
                assert forall|j: int| 0 <= j < i + 1 implies f.ensures((vertices@[j],), #[trigger] answers[j]) by {
                    if j < i {
                        assert(answers[j] == a0[j]);
                    }
                }
                assert forall|j: int|
                    0 <= j < i + 1 && (forall|k: int| j < k < i + 1 ==> vertices@[k] != vertices@[j])
                        implies g.adjacency()[#[trigger] vertices@[j]] == answers[j]@ by {
                    if j < i {
                        assert(vertices@[i as int] != vertices@[j]);
                        assert(forall|k: int| j < k < i ==> vertices@[k] != vertices@[j]);
                        assert(adj0[vertices@[j]] == a0[j]@);
                        assert(answers[j] == a0[j]);
                    }
                }
            }
            i += 1;
        }
        proof {
            assert forall|w: usize| g.adjacency().contains_key(w) <==> vertices@.contains(w) by {
                if vertices@.contains(w) {
                    let j = choose|j: int| 0 <= j < vertices@.len() && vertices@[j] == w;
                    assert(vertices@[j] == w);
                }
            }
            assert(last_answers(f, vertices@, g.adjacency(), answers));
        }
        g
    }
}

/// `answers[j]` is an answer of `f` for `vertices[j]`, for each `j`, and `rows` holds for each
/// vertex the answer for its last place in `vertices`.
pub open spec fn last_answers<F: Fn(usize) -> Vec<usize>>(
    f: F,
    vertices: Seq<usize>,
    rows: Map<usize, Seq<usize>>,
    answers: Seq<Vec<usize>>,
) -> bool {
    &&& answers.len() == vertices.len()
    &&& forall|j: int| 0 <= j < answers.len() ==> f.ensures((vertices[j],), #[trigger] answers[j])
    &&& forall|j: int|
        0 <= j < vertices.len() && (forall|k: int| j < k < vertices.len() ==> vertices[k] != vertices[j])
            ==> rows[#[trigger] vertices[j]] == answers[j]@
}

impl Default for MapGraph {
    /// A graph with no vertex.
    fn default() -> (g: Self)
        ensures
            g.adjacency() == Map::<usize, Seq<usize>>::empty(),
    {
        MapGraph::new()
    }
}

impl Graph for MapGraph {
    open spec fn graph_ok(&self) -> bool {
        true
    }

    open spec fn has_vertex(&self, vertex: usize) -> bool {
        self.adjacency().contains_key(vertex)
    }

    open spec fn neighbors_ok(&self, vertex: usize, r: Seq<usize>) -> bool {
        r == self.adjacency()[vertex]
    }

    /// The ends of the links that start at `vertex`, in the order they were added.
    fn neighbors(&self, vertex: usize) -> (r: Vec<usize>) {
        assert(self.nexts@.contains_key(vertex));
        let r = self.nexts.get(&vertex).unwrap().clone();
        assert(r@ =~= self.adjacency()[vertex]);
        r
    }
}

impl IterableGraph for MapGraph {
    open spec fn listed(&self, v: usize) -> bool {
        self.has_vertex(v)
    }

    /// The vertices, in the order of the hash map.
    fn iter(&self) -> (r: Vec<usize>) {
        keys_of(&self.nexts)
    }
}

/// The keys of `m`, each once, in the order of the hash map.
pub(crate) fn keys_of<V>(m: &HashMap<usize, V>) -> (r: Vec<usize>)
    ensures
        r@.no_duplicates(),
        forall|v: usize| r@.contains(v) <==> m@.contains_key(v),
{
    let mut r: Vec<usize> = Vec::new();
    let ghost ks = vstd::std_specs::iter::IteratorSpec::remaining(&vstd::std_specs::hash::spec_keys_iter(m));
    for k in it: m.keys()
        invariant
            it.seq() == ks,
            r@ == it.seq().take(it.index() as int).unref(),
    {
        r.push(*k);
        proof {
            assert(r@ =~= it.seq().take(it.index() + 1).unref());
        }
    }
    proof {
        assert(r@ =~= ks.unref());
        assert forall|v: usize| r@.contains(v) <==> m@.contains_key(v) by {
            assert(ks.unref().to_set() == m@.dom());
            if r@.contains(v) {
                assert(ks.unref().to_set().contains(v));
            }
            if m@.contains_key(v) {
                assert(m@.dom().contains(v));
                assert(ks.unref().to_set().contains(v));
            }
        }
    }
    r
}

proof fn lemma_swap_remove_multiset(s: Seq<usize>, i: int)
    requires
        0 <= i < s.len(),
    ensures
        s.update(i, s.last()).drop_last().to_multiset() == s.to_multiset().remove(s[i]),
{
    broadcast use vstd::seq_lib::group_to_multiset_ensures;
    broadcast use vstd::multiset::group_multiset_properties;

    let d = s.drop_last();
    assert(s =~= d.push(s.last()));
    if i == s.len() - 1 {
        assert(s.update(i, s.last()).drop_last() =~= d);
        assert(s.to_multiset().remove(s[i]) =~= d.to_multiset());
    } else {
        assert(s.update(i, s.last()).drop_last() =~= d.update(i, s.last()));
        assert(d.update(i, s.last()).to_multiset() == d.to_multiset().insert(s.last()).remove(d[i]));
        assert(d.to_multiset().insert(s.last()).remove(d[i]) =~= s.to_multiset().remove(s[i]));
    }
}

/// A graph given by a function from a vertex to its neighbours.
#[derive(Clone, Debug)]
pub struct FuncGraph<F> {
    nexts: F,
}

impl<F> FuncGraph<F> {
    /// The function that lists the neighbours of a vertex.
    pub closed spec fn func(&self) -> F {
        self.nexts
    }

    /// The graph whose neighbours are given by `f`.
    pub fn new(f: F) -> (g: Self)
        ensures
            g.func() == f,
    {
        FuncGraph { nexts: f }
    }
}

impl<F: Fn(usize) -> Vec<usize>> Graph for FuncGraph<F> {
    open spec fn graph_ok(&self) -> bool {
        true
    }

    open spec fn has_vertex(&self, vertex: usize) -> bool {
        self.func().requires((vertex,))
    }

    open spec fn neighbors_ok(&self, vertex: usize, r: Seq<usize>) -> bool {
        exists|v: Vec<usize>| self.func().ensures((vertex,), v) && v@ == r
    }

    /// What the function answers for `vertex`.
    fn neighbors(&self, vertex: usize) -> (r: Vec<usize>) {
        (self.nexts)(vertex)
    }
}

/// Whether every answer kept in `cache` is an answer of `f` for its vertex.
pub open spec fn answers_of<F: Fn(usize) -> Vec<usize>>(f: F) -> spec_fn(HashMap<usize, Vec<usize>>) -> bool {
    |cache: HashMap<usize, Vec<usize>>|
        forall|v: usize| #[trigger] cache@.contains_key(v) ==> f.ensures((v,), cache@[v])
}

/// A graph given by a function, each answer of which is kept and given again. The kept answers
/// sit in a cell, so that they can be filled through a shared reference.
pub struct CachedFuncGraph<F: Fn(usize) -> Vec<usize>> {
    cache: InvCell<HashMap<usize, Vec<usize>>, spec_fn(HashMap<usize, Vec<usize>>) -> bool>,
    nexts: F,
}

impl<F: Fn(usize) -> Vec<usize>> CachedFuncGraph<F> {
    #[verifier::type_invariant]
    spec fn cache_holds_answers(&self) -> bool {
        self.cache.predicate() == answers_of(self.nexts)
    }

    /// The function that lists the neighbours of a vertex.
    pub closed spec fn func(&self) -> F {
        self.nexts
    }

    /// The graph whose neighbours are given by `f`, with nothing kept yet.
    pub fn new(f: F) -> (g: Self)
        ensures
            g.func() == f,
    {
        let cache = InvCell::new(HashMap::new(), Ghost(answers_of(f)));
        CachedFuncGraph { cache, nexts: f }
    }
}

impl<F: Fn(usize) -> Vec<usize>> Graph for CachedFuncGraph<F> {
    open spec fn graph_ok(&self) -> bool {
        true
    }

    open spec fn has_vertex(&self, vertex: usize) -> bool {
        self.func().requires((vertex,))
    }

    open spec fn neighbors_ok(&self, vertex: usize, r: Seq<usize>) -> bool {
        exists|v: Vec<usize>| self.func().ensures((vertex,), v) && v@ == r
    }

    /// The kept answer for `vertex`; when there is none, a new answer of the function, which is
    /// kept for the next calls.
    fn neighbors(&self, vertex: usize) -> (r: Vec<usize>) {
        proof {
            use_type_invariant(self);
        }
        let mut cache = self.cache.replace(HashMap::new());
        let r = match cache.get(&vertex) {
            Some(row) => {
                let r = row.clone();
                assert(self.nexts.ensures((vertex,), cache@[vertex]) && r@ == cache@[vertex]@);
                r
            },
            None => {
                let fresh = (self.nexts)(vertex);
                let r = fresh.clone();
                let ghost before = cache@;
                let ghost kept = fresh;
                cache.insert(vertex, fresh);
                assert forall|v: usize| #[trigger] cache@.contains_key(v) implies self.nexts.ensures(
                    (v,),
                    cache@[v],
                ) by {
                    if v != vertex {
                        assert(before.contains_key(v));
                    }
                }
                assert(self.nexts.ensures((vertex,), kept) && r@ == kept@);
                r
            },
        };
        self.cache.set(cache);
        r
    }
}

/// The items `s[i]` for which `keep[i]` holds, in order.
pub open spec fn select(s: Seq<usize>, keep: Seq<bool>) -> Seq<usize>
    decreases s.len(),
{
    if s.len() == 0 {
        Seq::empty()
    } else {
        let rest = select(s.drop_last(), keep);
        if keep[s.len() - 1] {
            rest.push(s.last())
        } else {
            rest
        }
    }
}

/// The links of `graph` that `filter` keeps.
#[derive(Clone, Debug)]
pub struct SubGraph<G, F> {
    pub graph: G,
    pub filter: F,
}

impl<G, F> SubGraph<G, F> {
    /// The links of `graph` from `a` to `b` for which `filter(a, b)` holds.
    pub fn new(graph: G, filter: F) -> (g: Self)
        ensures
            g.graph == graph,
            g.filter == filter,
    {
        SubGraph { graph, filter }
    }
}

impl<G: Graph, F: Fn(usize, usize) -> bool> Graph for SubGraph<G, F> {
    open spec fn graph_ok(&self) -> bool {
        &&& self.graph.graph_ok()
        &&& forall|a: usize, b: usize| #[trigger] self.filter.requires((a, b))
    }

    open spec fn has_vertex(&self, vertex: usize) -> bool {
        self.graph.has_vertex(vertex)
    }

    open spec fn neighbors_ok(&self, vertex: usize, r: Seq<usize>) -> bool {
        exists|all: Seq<usize>, keep: Seq<bool>|
            {
                &&& self.graph.neighbors_ok(vertex, all)
                &&& keep.len() == all.len()
                &&& forall|i: int| 0 <= i < all.len() ==> self.filter.ensures((vertex, all[i]), #[trigger] keep[i])
                &&& r == select(all, keep)
            }
    }

    /// The neighbours of `vertex` in `graph` that `filter` keeps, in order.
    fn neighbors(&self, vertex: usize) -> (r: Vec<usize>) {
        let all = self.graph.neighbors(vertex);
        let mut r: Vec<usize> = Vec::new();
        let ghost mut keep: Seq<bool> = Seq::empty();
        let mut i: usize = 0;
        while i < all.len()
            invariant
                forall|a: usize, b: usize| #[trigger] self.filter.requires((a, b)),
                i <= all@.len(),
                keep.len() == i,
                forall|j: int| 0 <= j < i ==> self.filter.ensures((vertex, all@[j]), #[trigger] keep[j]),
                r@ == select(all@.take(i as int), keep),
            decreases all@.len() - i,
        {
            let x = all[i];
            let b = (self.filter)(vertex, x);
            proof {
                let t = all@.take(i as int + 1);
                assert(t.drop_last() =~= all@.take(i as int));
                assert(t.last() == x);
                let k0 = keep;
                keep = keep.push(b);
                assert(keep.drop_last() =~= k0);
                assert(select(t, keep) == if b { select(t.drop_last(), keep).push(x) } else { select(t.drop_last(), keep) });
                lemma_select_prefix(all@.take(i as int), keep.drop_last(), keep);
            }
            if b {
                r.push(x);
            }
            i += 1;
        }
        proof {
            assert(all@.take(all@.len() as int) =~= all@);
        }
        r
    }
}

/// `select` reads `keep` only at the positions of `s`.
proof fn lemma_select_prefix(s: Seq<usize>, k1: Seq<bool>, k2: Seq<bool>)
    requires
        k1.len() >= s.len(),
        k2.len() >= s.len(),
        forall|i: int| 0 <= i < s.len() ==> k1[i] == k2[i],
    ensures
        select(s, k1) == select(s, k2),
    decreases s.len(),
{
    if s.len() > 0 {
        lemma_select_prefix(s.drop_last(), k1, k2);
    }
}

impl<G: IterableGraph, F: Fn(usize, usize) -> bool> IterableGraph for SubGraph<G, F> {
    open spec fn listed(&self, v: usize) -> bool {
        self.graph.listed(v)
    }

    /// The vertices of `graph`.
    fn iter(&self) -> (r: Vec<usize>) {
        self.graph.iter()
    }
}

/// The path graph on `start..end`: each vertex is linked to the next.
impl Graph for core::ops::Range<usize> {
    open spec fn graph_ok(&self) -> bool {
        true
    }

    open spec fn has_vertex(&self, vertex: usize) -> bool {
        self.start <= vertex < self.end
    }

    open spec fn neighbors_ok(&self, vertex: usize, r: Seq<usize>) -> bool {
        r == if vertex + 1 < self.end {
            seq![(vertex + 1) as usize]
        } else {
            Seq::<usize>::empty()
        }
    }

    /// The next vertex, if it is in the range.
    fn neighbors(&self, vertex: usize) -> (r: Vec<usize>) {
        let mut r: Vec<usize> = Vec::new();
        let next = vertex + 1;
        if next < self.end {
            r.push(next);
        }
        assert(self.neighbors_ok(vertex, r@));
        r
    }
}

impl IterableGraph for core::ops::Range<usize> {
    open spec fn listed(&self, v: usize) -> bool {
        self.start <= v < self.end
    }

    /// The vertices `start..end` in increasing order.
    fn iter(&self) -> (r: Vec<usize>)
        ensures
            r@.len() == if self.start <= self.end {
                self.end - self.start
            } else {
                0
            },
            forall|i: int| 0 <= i < r@.len() ==> #[trigger] r@[i] == self.start + i,
    {
        let mut r: Vec<usize> = Vec::new();
        let mut i: usize = self.start;
        while i < self.end
            invariant
                i <= self.end || i == self.start,
                self.start <= i,
                r@.len() == i - self.start,
                forall|j: int| 0 <= j < r@.len() ==> #[trigger] r@[j] == self.start + j,
            decreases self.end - i,
        {
            r.push(i);
            i += 1;
        }
        proof {
            assert(self.start <= self.end ==> r@.len() == self.end - self.start);
            assert(self.start > self.end ==> r@.len() == 0);
            assert forall|v: usize| r@.contains(v) <==> self.listed(v) by {
                if self.start <= v < self.end {
                    assert(r@[v - self.start] == v);
                }
                if r@.contains(v) {
                    let j = choose|j: int| 0 <= j < r@.len() && r@[j] == v;
                    assert(r@[j] == self.start + j);
                }
            }
            assert forall|a: int, b: int| 0 <= a < b < r@.len() implies r@[a] != r@[b] by {}
        }
        r
    }
}

} // verus!
