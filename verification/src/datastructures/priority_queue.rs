use vstd::prelude::*;
use vstd::multiset::Multiset;

verus! {

broadcast use vstd::seq_lib::group_to_multiset_ensures;

/// Index of the left child of heap slot `i`.
fn left_child(i: usize) -> (r: usize)
    requires
        i < (usize::MAX - 1) / 2,
    ensures
        r == 2 * i + 1,
{
    i * 2 + 1
}

/// Index of the right child of heap slot `i`.
fn right_child(i: usize) -> (r: usize)
    requires
        i < (usize::MAX - 1) / 2,
    ensures
        r == 2 * i + 2,
{
    i * 2 + 2
}

/// Index of the parent of heap slot `i`.
fn parent(i: usize) -> (r: usize)
    requires
        i > 0,
    ensures
        r == spec_parent(i as int),
        r < i,
{
    (i - 1) / 2
}

pub open spec fn spec_parent(i: int) -> int {
    (i - 1) / 2
}

/// The binary-heap order on the slots `0..n` of `s`: no slot is lighter than its parent.
pub open spec fn heap_order<T>(s: Seq<(u64, T)>, n: int) -> bool {
    forall|k: int| 0 < k < n ==> #[trigger] s[spec_parent(k)].0 <= s[k].0
}

/// Swaps two slots of a vector.
///
/// Calls `slice::swap` of std, whose documentation says that it swaps the two elements; it
/// panics on an index out of range, which `requires` excludes.
#[verifier::external_body]
fn vec_swap<T>(v: &mut Vec<T>, i: usize, j: usize)
    requires
        i < old(v).len(),
        j < old(v).len(),
    ensures
        final(v)@ == old(v)@.update(i as int, old(v)@[j as int]).update(j as int, old(v)@[i as int]),
{
    v.swap(i, j)
}

proof fn lemma_swap_multiset<T>(s: Seq<T>, i: int, j: int)
    requires
        0 <= i < s.len(),
        0 <= j < s.len(),
    ensures
        s.update(i, s[j]).update(j, s[i]).to_multiset() == s.to_multiset(),
{
    broadcast use vstd::multiset::group_multiset_properties;

    if i == j {
        assert(s.update(i, s[j]).update(j, s[i]) =~= s);
    } else {
        let s1 = s.update(i, s[j]);
        assert(s1.to_multiset() == s.to_multiset().insert(s[j]).remove(s[i]));
        assert(s1[j] == s[j]);
        assert(s1.update(j, s[i]).to_multiset() == s1.to_multiset().insert(s[i]).remove(s[j]));
        assert(s.to_multiset().insert(s[j]).remove(s[i]).insert(s[i]).remove(s[j])
            =~= s.to_multiset());
    }
}

/// In a heap, the root is no heavier than any slot.
proof fn lemma_root_is_min<T>(s: Seq<(u64, T)>, n: int, k: int)
    requires
        heap_order(s, n),
        0 <= k < n,
    ensures
        s[0].0 <= s[k].0,
    decreases k,
{
    if k > 0 {
        lemma_root_is_min(s, n, spec_parent(k));
        assert(s[spec_parent(k)].0 <= s[k].0);
    }
}

/// A min-priority queue, stored as a binary heap: low weights come out first.
pub struct PriorityQueue<T> {
    heap: Vec<(u64, T)>,
}

impl<T> PriorityQueue<T> {
    #[verifier::type_invariant]
    spec fn heap_ok(self) -> bool {
        heap_order(self.heap@, self.heap@.len() as int)
    }

    /// The entries waiting in the queue, as (weight, value) pairs.
    pub closed spec fn entries(&self) -> Multiset<(u64, T)> {
        self.heap@.to_multiset()
    }

    /// Adds `value` with priority `weight`.
    pub fn push(&mut self, weight: u64, value: T)
        ensures
            final(self).entries() == old(self).entries().insert((weight, value)),
    {
        proof {
            use_type_invariant(&*self);
        }
        let mut heap: Vec<(u64, T)> = Vec::new();
        std::mem::swap(&mut heap, &mut self.heap);
        let ghost start = heap@;
        let mut i = heap.len();
        heap.push((weight, value));
        while i > 0 && heap[i].0 < heap[parent(i)].0
            invariant
                i < heap@.len(),
                heap@.len() == start.len() + 1,
                heap@.to_multiset() == start.to_multiset().insert((weight, value)),
                forall|k: int|
                    0 < k < heap@.len() && k != i ==> #[trigger] heap@[spec_parent(k)].0
                        <= heap@[k].0,
                i > 0 ==> forall|k: int|
                    0 < k < heap@.len() && spec_parent(k) == i ==> heap@[spec_parent(i as int)].0
                        <= #[trigger] heap@[k].0,
            decreases i,
        {
            let p = parent(i);
            proof {
                lemma_swap_multiset(heap@, i as int, p as int);
            }
            let ghost before = heap@;
            vec_swap(&mut heap, i, p);
            proof {
                assert forall|k: int|
                    0 < k < heap@.len() && k != p implies #[trigger] heap@[spec_parent(k)].0
                        <= heap@[k].0 by {
                    if k == i {
                    } else if spec_parent(k) == i {
                        assert(before[spec_parent(k)].0 <= before[k].0);
                    } else if spec_parent(k) == p {
                        assert(before[spec_parent(k)].0 <= before[k].0);
                    } else if k == p {
                    } else {
                        assert(before[spec_parent(k)].0 <= before[k].0);
                    }
                }
                if p > 0 {
                    assert(before[spec_parent(p as int)].0 <= before[p as int].0);
                    assert forall|k: int|
                        0 < k < heap@.len() && spec_parent(k) == p implies heap@[spec_parent(
                            p as int,
                        )].0 <= #[trigger] heap@[k].0 by {
                        if k != i {
                            assert(before[spec_parent(k)].0 <= before[k].0);
                        }
                    }
                }
            }
            i = p;
        }
        self.heap = heap;
    }

    /// Removes and returns an entry of least weight, or `None` when the queue is empty.
    pub fn pop_min(&mut self) -> (r: Option<(u64, T)>)
        ensures
            r is None <==> old(self).entries().len() == 0,
            r is None ==> final(self).entries() == old(self).entries(),
            r matches Some(e) ==> {
                &&& old(self).entries().contains(e)
                &&& final(self).entries() == old(self).entries().remove(e)
                &&& forall|x: (u64, T)| #[trigger] old(self).entries().contains(x) ==> e.0 <= x.0
            },
    {
        proof {
            use_type_invariant(&*self);
        }
        let mut heap: Vec<(u64, T)> = Vec::new();
        std::mem::swap(&mut heap, &mut self.heap);
        let ghost start = heap@;
        let n = heap.len();
        if n > 1 {
            let m = n - 1;
            proof {
                lemma_swap_multiset(heap@, 0, m as int);
            }
            vec_swap(&mut heap, 0, m);
            let mut i: usize = 0;
            loop
                invariant
                    n == start.len(),
                    m == n - 1,
                    m >= 1,
                    i < m,
                    heap@.len() == n,
                    heap@[m as int] == start[0],
                    heap@.to_multiset() == start.to_multiset(),
                    forall|k: int|
                        0 < k < m && spec_parent(k) != i ==> #[trigger] heap@[spec_parent(k)].0
                            <= heap@[k].0,
                    i > 0 ==> forall|k: int|
                        0 < k < m && spec_parent(k) == i ==> heap@[spec_parent(i as int)].0
                            <= #[trigger] heap@[k].0,
                ensures
                    heap@.len() == n,
                    heap@[m as int] == start[0],
                    heap@.to_multiset() == start.to_multiset(),
                    heap_order(heap@, m as int),
                decreases m - i,
            {
                let mut j = i;
                if m - i > i + 1 {
                    let l = left_child(i);
                    if heap[l].0 < heap[j].0 {
                        j = l;
                    }
                }
                if m - i > i + 2 {
                    let r = right_child(i);
                    if heap[r].0 < heap[j].0 {
                        j = r;
                    }
                }
                if i == j {
                    proof {
                        assert forall|k: int| 0 < k < m implies #[trigger] heap@[spec_parent(k)].0
                            <= heap@[k].0 by {
                            if spec_parent(k) == i {
                                assert(k == 2 * i + 1 || k == 2 * i + 2);
                            }
                        }
                    }
                    break;
                } else {
                    proof {
                        lemma_swap_multiset(heap@, i as int, j as int);
                    }
                    let ghost before = heap@;
                    vec_swap(&mut heap, i, j);
                    proof {
                        assert(spec_parent(j as int) == i);
                        assert forall|k: int|
                            0 < k < m && spec_parent(k) != j implies #[trigger] heap@[spec_parent(
                                k,
                            )].0 <= heap@[k].0 by {
                            if k == j {
                            } else if spec_parent(k) == i {
                                assert(k == 2 * i + 1 || k == 2 * i + 2);
                            } else if k == i {
                                assert(spec_parent(j as int) == i);
                                assert(before[spec_parent(i as int)].0 <= before[j as int].0);
                            } else {
                                assert(before[spec_parent(k)].0 <= before[k].0);
                            }
                        }
                        assert forall|k: int|
                            0 < k < m && spec_parent(k) == j implies heap@[spec_parent(
                                j as int,
                            )].0 <= #[trigger] heap@[k].0 by {
                            assert(before[spec_parent(k)].0 <= before[k].0);
                        }
                    }
                    i = j;
                }
            }
            proof {
                lemma_root_is_min(start, n as int, 0);
            }
        }
        proof {
            if n > 0 {
                assert forall|x: (u64, T)| #[trigger] start.to_multiset().contains(x) implies start[0].0
                    <= x.0 by {
                    assert(start.contains(x));
                    let k = choose|k: int| 0 <= k < start.len() && start[k] == x;
                    lemma_root_is_min(start, n as int, k);
                }
            }
        }
        let ghost before_pop = heap@;
        let r = heap.pop();
        proof {
            if n > 0 {
                assert(heap@.push(r.unwrap()) =~= before_pop);
                assert(heap_order(heap@, heap@.len() as int)) by {
                    assert forall|k: int| 0 < k < heap@.len() implies #[trigger] heap@[spec_parent(
                        k,
                    )].0 <= heap@[k].0 by {
                        assert(before_pop[spec_parent(k)].0 <= before_pop[k].0);
                    }
                }
            }
        }
        self.heap = heap;
        r
    }
}

impl<T> Default for PriorityQueue<T> {
    /// An empty queue.
    fn default() -> (q: Self)
        ensures
            q.entries() == Multiset::<(u64, T)>::empty(),
    {
        PriorityQueue { heap: Vec::new() }
    }
}

/// Draining a queue gives its entries in non-decreasing weight: when each of the entries
/// `ms[i]` is followed by `ms[i + 1]`, what is left after `pop_min` took out `es[i]`, a least
/// heavy entry of `ms[i]`, then the entries taken out come in non-decreasing weight, and they and
/// what is left make up the entries at the start.
pub proof fn lemma_drain_in_order<T>(ms: Seq<Multiset<(u64, T)>>, es: Seq<(u64, T)>)
    requires
        ms.len() == es.len() + 1,
        forall|i: int|
            0 <= i < es.len() ==> {
                &&& ms[i].contains(#[trigger] es[i])
                &&& forall|x: (u64, T)| #[trigger] ms[i].contains(x) ==> es[i].0 <= x.0
                &&& ms[i + 1] == ms[i].remove(es[i])
            },
    ensures
        forall|i: int, j: int| 0 <= i < j < es.len() ==> #[trigger] es[i].0 <= #[trigger] es[j].0,
        ms.last().add(es.to_multiset()) == ms[0],
{
    assert forall|i: int, j: int| 0 <= i < j < es.len() implies #[trigger] es[i].0 <= #[trigger] es[j].0 by {
        lemma_drain_kept(ms, es, i + 1, j);
        assert(ms[i].contains(es[i]));
        assert(ms[i + 1] == ms[i].remove(es[i]));
        lemma_removed_contains(ms[i], es[i], es[j]);
    }
    lemma_drain_total(ms, es, es.len() as int);
    assert(es.take(es.len() as int) =~= es);
}

proof fn lemma_removed_contains<T>(m: Multiset<(u64, T)>, e: (u64, T), x: (u64, T))
    requires
        m.remove(e).contains(x),
    ensures
        m.contains(x),
{
    broadcast use vstd::multiset::group_multiset_axioms;

    assert(m.remove(e).count(x) <= m.count(x));
}

/// What is left after a later pop was there at an earlier one.
proof fn lemma_drain_kept<T>(ms: Seq<Multiset<(u64, T)>>, es: Seq<(u64, T)>, i: int, j: int)
    requires
        ms.len() == es.len() + 1,
        forall|k: int|
            0 <= k < es.len() ==> {
                &&& ms[k].contains(#[trigger] es[k])
                &&& ms[k + 1] == ms[k].remove(es[k])
            },
        0 <= i <= j < es.len(),
    ensures
        ms[i].contains(es[j]),
    decreases j - i,
{
    if i < j {
        lemma_drain_kept(ms, es, i + 1, j);
        let e = es[i];
        assert(ms[i + 1] == ms[i].remove(e));
        lemma_removed_contains(ms[i], es[i], es[j]);
    } else {
        assert(ms[j].contains(es[j]));
    }
}

/// The entries taken out by the first `n` pops, with what is left, are the entries at the start.
proof fn lemma_drain_total<T>(ms: Seq<Multiset<(u64, T)>>, es: Seq<(u64, T)>, n: int)
    requires
        ms.len() == es.len() + 1,
        forall|k: int|
            0 <= k < es.len() ==> {
                &&& ms[k].contains(#[trigger] es[k])
                &&& ms[k + 1] == ms[k].remove(es[k])
            },
        0 <= n <= es.len(),
    ensures
        ms[n].add(es.take(n).to_multiset()) == ms[0],
    decreases n,
{
    broadcast use vstd::multiset::group_multiset_axioms;

    if n == 0 {
        assert(es.take(0) =~= Seq::<(u64, T)>::empty());
        assert(ms[0].add(Multiset::empty()) =~= ms[0]);
    } else {
        lemma_drain_total(ms, es, n - 1);
        let e = es[n - 1];
        assert(ms[n - 1 + 1] == ms[n - 1].remove(e));
        assert(es.take(n) =~= es.take(n - 1).push(e));
        es.take(n - 1).to_multiset_ensures();
        assert(es.take(n).to_multiset() =~= es.take(n - 1).to_multiset().insert(e));
        assert(ms[n] == ms[n - 1].remove(e));
        assert(ms[n - 1].contains(e));
        assert(ms[n].add(es.take(n).to_multiset()) =~= ms[n - 1].add(es.take(n - 1).to_multiset()));
    }
}

} // verus!
