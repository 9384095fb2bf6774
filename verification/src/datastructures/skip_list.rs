use vstd::prelude::*;

verus! {

// Skip lists whose elements are intervals. The lists can be cut and joined again; all their
// nodes live in one arena, and a cursor gives positional access into a list.

/// Number of levels of the lists.
pub const SKIP_LIST_HEIGHT: usize = 1;

/// The link that stands for "no node".
pub const FAKE_NODE: usize = usize::MAX - 1;

/// `true` with probability `numerator / denominator`.
///
/// Calls `rand::random_ratio`, which draws from the thread-local generator. What it returns is left
/// free, except that a ratio of one always gives `true` and a ratio of zero always `false`; it
/// panics on a denominator of zero or a numerator above the denominator, which `requires` excludes.
#[verifier::external_body]
fn random_ratio(numerator: u32, denominator: u32) -> (b: bool)
    requires
        0 < denominator,
        numerator <= denominator,
    ensures
        numerator == denominator ==> b,
        numerator == 0 ==> !b,
{
    rand::random_ratio(numerator, denominator)
}

/// A random number of levels for a new node, each extra level with probability one half.
fn random_height() -> (h: usize)
    ensures
        1 <= h <= SKIP_LIST_HEIGHT,
{
    let mut i: usize = 1;
    while random_ratio(1, 2) && i < SKIP_LIST_HEIGHT
        invariant
            1 <= i <= SKIP_LIST_HEIGHT,
        decreases SKIP_LIST_HEIGHT - i,
    {
        i += 1;
    }
    i
}

/// Answer of an interval compared with a searched value.
#[derive(Clone, Copy, Debug, PartialEq, Eq)]
pub enum Side {
    /// The value lies before the interval.
    Less,
    /// The value lies in the interval.
    Equal,
    /// The value lies after the interval.
    Greater,
}

/// An element of the lists, which a searched value can be compared with.
pub trait Interval {
    type Value;

    /// Where `value` lies compared with this interval.
    spec fn side_of(&self, value: &Self::Value) -> Side;

    fn cmp_value(&self, value: &Self::Value) -> (r: Side)
        ensures
            r == self.side_of(value),
    ;
}

/// The closed range of integers `lo..=hi`, given as `(lo, hi)`.
impl Interval for (i64, i64) {
    type Value = i64;

    open spec fn side_of(&self, value: &i64) -> Side {
        if *value < self.0 {
            Side::Less
        } else if *value > self.1 {
            Side::Greater
        } else {
            Side::Equal
        }
    }

    fn cmp_value(&self, value: &i64) -> (r: Side) {
        if *value < self.0 {
            Side::Less
        } else if *value > self.1 {
            Side::Greater
        } else {
            Side::Equal
        }
    }
}

#[derive(Debug, Clone)]
struct SkipListNode<I> {
    id: usize,
    interval: I,
    height: usize,
    succs: [usize; SKIP_LIST_HEIGHT],
    preds: [usize; SKIP_LIST_HEIGHT],
}

impl<I> SkipListNode<I> {
    /// Makes this node the predecessor on each of its levels.
    fn use_as_preds(&self, preds: &mut [usize; SKIP_LIST_HEIGHT])
        requires
            self.height <= SKIP_LIST_HEIGHT,
        ensures
            forall|i: int|
                0 <= i < SKIP_LIST_HEIGHT ==> #[trigger] final(preds)@[i] == if i < self.height {
                    self.id
                } else {
                    old(preds)@[i]
                },
    {
        let mut i: usize = 0;
        while i < self.height
            invariant
                i <= self.height <= SKIP_LIST_HEIGHT,
                forall|k: int|
                    0 <= k < SKIP_LIST_HEIGHT ==> #[trigger] preds@[k] == if k < i {
                        self.id
                    } else {
                        old(preds)@[k]
                    },
            decreases self.height - i,
        {
            preds[i] = self.id;
            i += 1;
        }
    }

    /// Copies this node's predecessors on each of its levels.
    fn put_preds(&self, preds: &mut [usize; SKIP_LIST_HEIGHT])
        requires
            self.height <= SKIP_LIST_HEIGHT,
        ensures
            forall|i: int|
                0 <= i < SKIP_LIST_HEIGHT ==> #[trigger] final(preds)@[i] == if i < self.height {
                    self.preds@[i]
                } else {
                    old(preds)@[i]
                },
    {
        let mut i: usize = 0;
        while i < self.height
            invariant
                i <= self.height <= SKIP_LIST_HEIGHT,
                forall|k: int|
                    0 <= k < SKIP_LIST_HEIGHT ==> #[trigger] preds@[k] == if k < i {
                        self.preds@[k]
                    } else {
                        old(preds)@[k]
                    },
            decreases self.height - i,
        {
            preds[i] = self.preds[i];
            i += 1;
        }
    }

    /// Makes this node the successor on each of its levels.
    fn use_as_succs(&self, succs: &mut [usize; SKIP_LIST_HEIGHT])
        requires
            self.height <= SKIP_LIST_HEIGHT,
        ensures
            forall|i: int|
                0 <= i < SKIP_LIST_HEIGHT ==> #[trigger] final(succs)@[i] == if i < self.height {
                    self.id
                } else {
                    old(succs)@[i]
                },
    {
        let mut i: usize = 0;
        while i < self.height
            invariant
                i <= self.height <= SKIP_LIST_HEIGHT,
                forall|k: int|
                    0 <= k < SKIP_LIST_HEIGHT ==> #[trigger] succs@[k] == if k < i {
                        self.id
                    } else {
                        old(succs)@[k]
                    },
            decreases self.height - i,
        {
            succs[i] = self.id;
            i += 1;
        }
    }

    /// Copies this node's successors on each of its levels.
    fn put_succs(&self, succs: &mut [usize; SKIP_LIST_HEIGHT])
        requires
            self.height <= SKIP_LIST_HEIGHT,
        ensures
            forall|i: int|
                0 <= i < SKIP_LIST_HEIGHT ==> #[trigger] final(succs)@[i] == if i < self.height {
                    self.succs@[i]
                } else {
                    old(succs)@[i]
                },
    {
        let mut i: usize = 0;
        while i < self.height
            invariant
                i <= self.height <= SKIP_LIST_HEIGHT,
                forall|k: int|
                    0 <= k < SKIP_LIST_HEIGHT ==> #[trigger] succs@[k] == if k < i {
                        self.succs@[k]
                    } else {
                        old(succs)@[k]
                    },
            decreases self.height - i,
        {
            succs[i] = self.succs[i];
            i += 1;
        }
    }
}

/// The handle of one list: its first node on each level.
#[derive(Debug, Clone, Copy)]
pub struct SkipListAccess {
    first_nodes: [usize; SKIP_LIST_HEIGHT],
}

impl SkipListAccess {
    /// The first node of the list, or `FAKE_NODE` for an empty list.
    pub closed spec fn first(&self) -> usize {
        self.first_nodes@[0]
    }

    /// The handle of an empty list.
    pub fn new() -> (a: Self)
        ensures
            a.first() == FAKE_NODE,
    {
        SkipListAccess { first_nodes: [FAKE_NODE; SKIP_LIST_HEIGHT] }
    }
}

/// An arena holding the nodes of any number of lists, and the slots freed for reuse.
#[derive(Clone, Debug)]
pub struct IntervalSkipLists<I> {
    nodes: Vec<SkipListNode<I>>,
    free_idxs: Vec<usize>,
}

impl<I> IntervalSkipLists<I> {
    /// The slots of the arena are consistent: each knows its index and has between one and
    /// `SKIP_LIST_HEIGHT` levels, freed slots are distinct and in range, and no slot index is
    /// `FAKE_NODE`.
    pub closed spec fn wf(&self) -> bool {
        &&& self.nodes@.len() <= FAKE_NODE
        &&& forall|k: int|
            0 <= k < self.nodes@.len() ==> {
                &&& #[trigger] self.nodes@[k].id == k
                &&& 1 <= self.nodes@[k].height <= SKIP_LIST_HEIGHT
            }
        &&& forall|k: int| 0 <= k < self.free_idxs@.len() ==> #[trigger] self.free_idxs@[k] < self.nodes@.len()
        &&& self.free_idxs@.no_duplicates()
    }

    /// Number of slots in the arena.
    pub closed spec fn node_count(&self) -> nat {
        self.nodes@.len()
    }

    /// The slots freed for reuse, the last one reused first.
    pub closed spec fn free_ids(&self) -> Seq<usize> {
        self.free_idxs@
    }

    /// The successor of slot `id` on the lowest level.
    pub closed spec fn succ_of(&self, id: int) -> usize {
        self.nodes@[id].succs@[0]
    }

    /// The predecessor of slot `id` on the lowest level.
    pub closed spec fn pred_of(&self, id: int) -> usize {
        self.nodes@[id].preds@[0]
    }

    /// The interval stored in slot `id`.
    pub closed spec fn interval_of(&self, id: int) -> I {
        self.nodes@[id].interval
    }

    /// `ids`, in order, are the slots of the list that starts at `first`: distinct live slots,
    /// each linked forwards and backwards to its neighbours, with `FAKE_NODE` at both ends.
    #[verifier::opaque]
    pub open spec fn chain(&self, first: usize, ids: Seq<usize>) -> bool {
        &&& ids.no_duplicates()
        &&& forall|k: int|
            0 <= k < ids.len() ==> {
                &&& #[trigger] ids[k] < self.node_count()
                &&& ids[k] != FAKE_NODE
                &&& !self.free_ids().contains(ids[k])
            }
        &&& first == if ids.len() == 0 {
            FAKE_NODE
        } else {
            ids[0]
        }
        &&& forall|k: int|
            0 <= k < ids.len() ==> self.succ_of(#[trigger] ids[k] as int) == if k + 1 < ids.len() {
                ids[k + 1]
            } else {
                FAKE_NODE
            }
        &&& forall|k: int|
            0 <= k < ids.len() ==> self.pred_of(#[trigger] ids[k] as int) == if k > 0 {
                ids[k - 1]
            } else {
                FAKE_NODE
            }
    }

    /// `access` is the handle of a well-linked list of this arena.
    pub open spec fn holds_list(&self, access: SkipListAccess) -> bool {
        exists|ids: Seq<usize>| self.chain(access.first(), ids)
    }

    /// The slots of the list of `access`, in order.
    pub open spec fn list_ids(&self, access: SkipListAccess) -> Seq<usize> {
        choose|ids: Seq<usize>| self.chain(access.first(), ids)
    }

    /// The intervals of the list of `access`, in order.
    pub open spec fn list_intervals(&self, access: SkipListAccess) -> Seq<I> {
        self.list_ids(access).map_values(|id: usize| self.interval_of(id as int))
    }

    /// A list is determined by its first slot.
    pub proof fn lemma_chain_unique(&self, first: usize, ids1: Seq<usize>, ids2: Seq<usize>)
        requires
            self.chain(first, ids1),
            self.chain(first, ids2),
        ensures
            ids1 == ids2,
    {
        reveal(IntervalSkipLists::chain);
        assert forall|k: int| 0 <= k < ids1.len() && k < ids2.len() implies ids1[k] == ids2[k] by {
            self.lemma_chain_unique_at(first, ids1, ids2, k);
        }
        if ids1.len() < ids2.len() {
            let n = ids1.len() as int;
            if n > 0 {
                assert(ids1[n - 1] == ids2[n - 1]);
                assert(self.succ_of(ids1[n - 1] as int) == FAKE_NODE);
                assert(self.succ_of(ids2[n - 1] as int) == ids2[n]);
            }
            assert(ids2[n] != FAKE_NODE);
        } else if ids2.len() < ids1.len() {
            let n = ids2.len() as int;
            if n > 0 {
                assert(ids1[n - 1] == ids2[n - 1]);
                assert(self.succ_of(ids2[n - 1] as int) == FAKE_NODE);
                assert(self.succ_of(ids1[n - 1] as int) == ids1[n]);
            }
            assert(ids1[n] != FAKE_NODE);
        }
        assert(ids1 =~= ids2);
    }

    proof fn lemma_chain_unique_at(&self, first: usize, ids1: Seq<usize>, ids2: Seq<usize>, k: int)
        requires
            self.chain(first, ids1),
            self.chain(first, ids2),
            0 <= k < ids1.len(),
            k < ids2.len(),
        ensures
            ids1[k] == ids2[k],
        decreases k,
    {
        reveal(IntervalSkipLists::chain);
        if k > 0 {
            self.lemma_chain_unique_at(first, ids1, ids2, k - 1);
            assert(self.succ_of(ids1[k - 1] as int) == ids1[k]);
            assert(self.succ_of(ids2[k - 1] as int) == ids2[k]);
        }
    }

    /// What `list_ids` picks is the list that `chain` describes.
    pub proof fn lemma_list_ids(&self, access: SkipListAccess, ids: Seq<usize>)
        requires
            self.chain(access.first(), ids),
        ensures
            self.holds_list(access),
            self.list_ids(access) == ids,
    {
        let c = self.list_ids(access);
        self.lemma_chain_unique(access.first(), c, ids);
    }

    /// Stores `interval` in a fresh or reused slot and links it between `preds` and `succs`.
    fn add_node(
        &mut self,
        access: &mut SkipListAccess,
        interval: I,
        preds: [usize; SKIP_LIST_HEIGHT],
        succs: [usize; SKIP_LIST_HEIGHT],
    ) -> (id: usize)
        requires
            old(self).wf(),
            preds@[0] == FAKE_NODE || (preds@[0] < old(self).node_count()
                && !old(self).free_ids().contains(preds@[0])),
            succs@[0] == FAKE_NODE || (succs@[0] < old(self).node_count()
                && !old(self).free_ids().contains(succs@[0])),
            old(self).free_ids().len() > 0 || old(self).node_count() < FAKE_NODE,
        ensures
            final(self).wf(),
            id == if old(self).free_ids().len() == 0 {
                old(self).node_count() as usize
            } else {
                old(self).free_ids().last()
            },
            final(self).free_ids() == if old(self).free_ids().len() == 0 {
                old(self).free_ids()
            } else {
                old(self).free_ids().drop_last()
            },
            final(self).node_count() == if old(self).free_ids().len() == 0 {
                old(self).node_count() + 1
            } else {
                old(self).node_count()
            },
            final(self).interval_of(id as int) == interval,
            final(self).pred_of(id as int) == preds@[0],
            final(self).succ_of(id as int) == succs@[0],
            forall|x: int|
                0 <= x < old(self).node_count() && x != id ==> #[trigger] final(self).succ_of(x)
                    == if x == preds@[0] {
                    id
                } else {
                    old(self).succ_of(x)
                },
            forall|x: int|
                0 <= x < old(self).node_count() && x != id ==> #[trigger] final(self).pred_of(x)
                    == if x == succs@[0] {
                    id
                } else {
                    old(self).pred_of(x)
                },
            forall|x: int|
                0 <= x < old(self).node_count() && x != id ==> #[trigger] final(self).interval_of(x)
                    == old(self).interval_of(x),
            final(access).first() == if preds@[0] == FAKE_NODE {
                id
            } else {
                old(access).first()
            },
    {
        let id = if self.free_idxs.len() == 0 {
            let id = self.nodes.len();
            self.nodes.push(SkipListNode { height: 0, interval, preds, succs, id });
            id
        } else {
            let id = self.free_idxs.pop().unwrap();
            proof {
                assert(old(self).free_idxs@[old(self).free_idxs@.len() - 1] == id);
            }
            self.nodes[id].interval = interval;
            id
        };
        proof {
            if old(self).free_ids().len() > 0 {
                assert(old(self).free_ids().contains(id));
            }
        }
        self.nodes[id].height = random_height();
        self.nodes[id].succs = succs;
        self.nodes[id].preds = preds;
        let ghost mid_nodes = self.nodes@;
        let ghost mid_free = self.free_idxs@;
        proof {
            assert forall|k: int| 0 <= k < mid_nodes.len() implies (#[trigger] mid_nodes[k]).id == k
                && 1 <= mid_nodes[k].height <= SKIP_LIST_HEIGHT by {
                if k != id {
                    assert(old(self).nodes@[k] == mid_nodes[k]);
                    assert(old(self).nodes@[k].id == k);
                } else if old(self).free_ids().len() > 0 {
                    assert(old(self).nodes@[k].id == k);
                }
            }
            assert forall|k: int| 0 <= k < mid_free.len() implies #[trigger] mid_free[k]
                < mid_nodes.len() by {
                assert(old(self).free_idxs@[k] == mid_free[k]);
            }
            assert(mid_nodes[id as int].interval == interval);
        }
        let ghost mid_access = *access;
        let height = self.nodes[id].height;
        let mut i: usize = 0;
        while i < height
            invariant
                height == 1,
                i <= height,
                id < self.nodes@.len(),
                self.nodes@.len() == mid_nodes.len(),
                self.nodes@.len() <= FAKE_NODE,
                self.free_idxs@ == mid_free,
                preds@[0] == FAKE_NODE || (preds@[0] < self.nodes@.len() && preds@[0] != id),
                succs@[0] == FAKE_NODE || (succs@[0] < self.nodes@.len() && succs@[0] != id),
                mid_nodes[id as int].preds@ == preds@,
                mid_nodes[id as int].succs@ == succs@,
                forall|k: int|
                    0 <= k < mid_nodes.len() ==> (#[trigger] mid_nodes[k]).id == k && 1
                        <= mid_nodes[k].height <= SKIP_LIST_HEIGHT,
                forall|k: int| 0 <= k < mid_free.len() ==> #[trigger] mid_free[k] < mid_nodes.len(),
                mid_free.no_duplicates(),
                mid_nodes[id as int].interval == interval,
                i == 0 ==> self.nodes@ == mid_nodes && *access == mid_access,
                i == 1 ==> {
                    &&& forall|x: int|
                        0 <= x < mid_nodes.len() ==> {
                            &&& (#[trigger] self.nodes@[x]).id == mid_nodes[x].id
                            &&& self.nodes@[x].height == mid_nodes[x].height
                            &&& self.nodes@[x].interval == mid_nodes[x].interval
                            &&& self.nodes@[x].succs@[0] == if x == preds@[0] {
                                id
                            } else {
                                mid_nodes[x].succs@[0]
                            }
                            &&& self.nodes@[x].preds@[0] == if x == succs@[0] {
                                id
                            } else {
                                mid_nodes[x].preds@[0]
                            }
                        }
                    &&& access.first_nodes@[0] == if preds@[0] == FAKE_NODE {
                        id
                    } else {
                        mid_access.first_nodes@[0]
                    }
                },
            decreases height - i,
        {
            let p = self.nodes[id].preds[i];
            let s = self.nodes[id].succs[i];
            if p == FAKE_NODE {
                access.first_nodes[i] = id;
            } else {
                self.nodes[p].succs[i] = id;
            }
            if s != FAKE_NODE {
                self.nodes[s].preds[i] = id;
            }
            i += 1;
        }
        id
    }

    /// A list survives an update that keeps every well-linked list linked and every live slot's
    /// interval: it is still well linked, with the same intervals.
    pub proof fn lemma_list_kept(&self, other: &Self, b: SkipListAccess)
        requires
            self.holds_list(b),
            forall|f: usize, ids: Seq<usize>| self.chain(f, ids) ==> #[trigger] other.chain(f, ids),
            forall|x: int|
                0 <= x < self.node_count() && !self.free_ids().contains(x as usize)
                    ==> #[trigger] other.interval_of(x) == self.interval_of(x),
        ensures
            other.holds_list(b),
            other.list_intervals(b) == self.list_intervals(b),
    {
        let ids = self.list_ids(b);
        assert(self.chain(b.first(), ids));
        assert(other.chain(b.first(), ids));
        other.lemma_list_ids(b, ids);
        assert forall|k: int| 0 <= k < ids.len() implies other.interval_of(#[trigger] ids[k] as int)
            == self.interval_of(ids[k] as int) by {
            reveal(IntervalSkipLists::chain);
            let x = ids[k] as int;
            assert(0 <= x < self.node_count() && !self.free_ids().contains(x as usize));
        }
        assert(other.list_intervals(b) =~= self.list_intervals(b));
    }

    /// Linking slot `id` between the `k`-th slot of a list and the next one, as `add_node`
    /// does, inserts it at position `k`.
    #[verifier::spinoff_prover]
    #[verifier::rlimit(40)]
    pub proof fn lemma_insert_chain(
        &self,
        after: &Self,
        first: usize,
        new_first: usize,
        ids: Seq<usize>,
        k: int,
        id: usize,
    )
        requires
            self.wf(),
            after.wf(),
            self.chain(first, ids),
            0 <= k <= ids.len(),
            id < after.node_count(),
            !after.free_ids().contains(id),
            !ids.contains(id),
            after.node_count() >= self.node_count(),
            forall|j: int|
                0 <= j < after.free_ids().len() ==> self.free_ids().contains(
                    #[trigger] after.free_ids()[j],
                ),
            ({
                let p = if k > 0 {
                    ids[k - 1]
                } else {
                    FAKE_NODE
                };
                let s = if k < ids.len() {
                    ids[k]
                } else {
                    FAKE_NODE
                };
                &&& after.pred_of(id as int) == p
                &&& after.succ_of(id as int) == s
                &&& forall|x: int|
                    0 <= x < self.node_count() && x != id ==> #[trigger] after.succ_of(x) == if x
                        == p {
                        id
                    } else {
                        self.succ_of(x)
                    }
                &&& forall|x: int|
                    0 <= x < self.node_count() && x != id ==> #[trigger] after.pred_of(x) == if x
                        == s {
                        id
                    } else {
                        self.pred_of(x)
                    }
                &&& new_first == if p == FAKE_NODE {
                    id
                } else {
                    first
                }
            }),
        ensures
            after.chain(new_first, ids.insert(k, id)),
    {
        reveal(IntervalSkipLists::chain);
        let n = ids.insert(k, id);
        assert forall|j: int| 0 <= j < n.len() implies {
            &&& #[trigger] n[j] < after.node_count()
            &&& n[j] != FAKE_NODE
            &&& !after.free_ids().contains(n[j])
        } by {
            if j != k {
                let o = if j < k { j } else { j - 1 };
                assert(n[j] == ids[o]);
                if after.free_ids().contains(n[j]) {
                    let i = choose|i: int| 0 <= i < after.free_ids().len() && after.free_ids()[i] == n[j];
                    assert(self.free_ids().contains(after.free_ids()[i]));
                }
            }
        }
        assert forall|j: int| 0 <= j < n.len() implies after.succ_of(#[trigger] n[j] as int) == if j
            + 1 < n.len() {
            n[j + 1]
        } else {
            FAKE_NODE
        } by {
            if j < k {
                assert(n[j] == ids[j]);
                if j + 1 < k {
                    assert(ids[j] != ids[k - 1]);
                }
            } else if j > k {
                assert(n[j] == ids[j - 1]);
                if k > 0 {
                    assert(ids[j - 1] != ids[k - 1]);
                }
            }
        }
        assert forall|j: int| 0 <= j < n.len() implies after.pred_of(#[trigger] n[j] as int) == if j
            > 0 {
            n[j - 1]
        } else {
            FAKE_NODE
        } by {
            if j < k {
                assert(n[j] == ids[j]);
                if k < ids.len() {
                    assert(ids[j] != ids[k]);
                }
            } else if j > k {
                assert(n[j] == ids[j - 1]);
                if j - 1 > k {
                    assert(ids[j - 1] != ids[k]);
                }
            }
        }
        assert(n.no_duplicates()) by {
            assert forall|a: int, b: int| 0 <= a < b < n.len() implies n[a] != n[b] by {
                if a == k {
                    let o = b - 1;
                    assert(n[b] == ids[o]);
                } else if b == k {
                    assert(n[a] == ids[a]);
                } else {
                    let oa = if a < k { a } else { a - 1 };
                    let ob = if b < k { b } else { b - 1 };
                    assert(n[a] == ids[oa]);
                    assert(n[b] == ids[ob]);
                }
            }
        }
    }

    /// Unlinking the `k`-th slot of a list from its neighbours, as `remove_node` does, removes it
    /// from the list.
    #[verifier::spinoff_prover]
    #[verifier::rlimit(40)]
    pub proof fn lemma_remove_chain(
        &self,
        after: &Self,
        first: usize,
        new_first: usize,
        ids: Seq<usize>,
        k: int,
    )
        requires
            self.wf(),
            self.chain(first, ids),
            0 <= k < ids.len(),
            after.node_count() == self.node_count(),
            after.free_ids() == self.free_ids().push(ids[k]),
            ({
                let p = if k > 0 {
                    ids[k - 1]
                } else {
                    FAKE_NODE
                };
                let s = if k + 1 < ids.len() {
                    ids[k + 1]
                } else {
                    FAKE_NODE
                };
                &&& forall|x: int|
                    0 <= x < self.node_count() ==> #[trigger] after.succ_of(x) == if x == p {
                        s
                    } else {
                        self.succ_of(x)
                    }
                &&& forall|x: int|
                    0 <= x < self.node_count() ==> #[trigger] after.pred_of(x) == if x == s {
                        p
                    } else {
                        self.pred_of(x)
                    }
                &&& new_first == if p == FAKE_NODE {
                    s
                } else {
                    first
                }
            }),
        ensures
            after.chain(new_first, ids.remove(k)),
    {
        reveal(IntervalSkipLists::chain);
        let n = ids.remove(k);
        assert forall|j: int| 0 <= j < n.len() implies {
            &&& #[trigger] n[j] < after.node_count()
            &&& n[j] != FAKE_NODE
            &&& !after.free_ids().contains(n[j])
        } by {
            let o = if j < k { j } else { j + 1 };
            assert(n[j] == ids[o]);
            assert(n[j] != ids[k]);
            if after.free_ids().contains(n[j]) {
                let i = choose|i: int| 0 <= i < after.free_ids().len() && after.free_ids()[i] == n[j];
                if i < self.free_ids().len() {
                    assert(self.free_ids()[i] == n[j]);
                }
            }
        }
        assert forall|j: int| 0 <= j < n.len() implies after.succ_of(#[trigger] n[j] as int) == if j
            + 1 < n.len() {
            n[j + 1]
        } else {
            FAKE_NODE
        } by {
            if j < k {
                assert(n[j] == ids[j]);
                if j + 1 < k {
                    assert(ids[j] != ids[k - 1]);
                }
            } else {
                assert(n[j] == ids[j + 1]);
                if k > 0 {
                    assert(ids[j + 1] != ids[k - 1]);
                }
            }
        }
        assert forall|j: int| 0 <= j < n.len() implies after.pred_of(#[trigger] n[j] as int) == if j
            > 0 {
            n[j - 1]
        } else {
            FAKE_NODE
        } by {
            if j < k {
                assert(n[j] == ids[j]);
                if k + 1 < ids.len() {
                    assert(ids[j] != ids[k + 1]);
                }
            } else {
                assert(n[j] == ids[j + 1]);
                if j > k {
                    assert(ids[j + 1] != ids[k + 1]);
                }
            }
        }
        assert(n.no_duplicates()) by {
            assert forall|a: int, b: int| 0 <= a < b < n.len() implies n[a] != n[b] by {
                let oa = if a < k { a } else { a + 1 };
                let ob = if b < k { b } else { b + 1 };
                assert(n[a] == ids[oa]);
                assert(n[b] == ids[ob]);
            }
        }
        if k == 0 && n.len() > 0 {
            assert(n[0] == ids[1]);
        }
    }

    /// Linking the last slot of one list to the first slot of another, as `Cursor::concat_list`
    /// does, joins the two lists.
    #[verifier::spinoff_prover]
    #[verifier::rlimit(40)]
    pub proof fn lemma_concat_chain(
        &self,
        after: &Self,
        first: usize,
        new_first: usize,
        ids1: Seq<usize>,
        first2: usize,
        ids2: Seq<usize>,
    )
        requires
            self.wf(),
            self.chain(first, ids1),
            self.chain(first2, ids2),
            forall|a: int, b: int|
                0 <= a < ids1.len() && 0 <= b < ids2.len() ==> ids1[a] != ids2[b],
            after.node_count() == self.node_count(),
            after.free_ids() == self.free_ids(),
            ({
                let p = if ids1.len() > 0 {
                    ids1.last()
                } else {
                    FAKE_NODE
                };
                &&& forall|x: int|
                    0 <= x < self.node_count() ==> #[trigger] after.succ_of(x) == if x == p {
                        first2
                    } else {
                        self.succ_of(x)
                    }
                &&& forall|x: int|
                    0 <= x < self.node_count() ==> #[trigger] after.pred_of(x) == if x == first2 {
                        p
                    } else {
                        self.pred_of(x)
                    }
                &&& new_first == if p == FAKE_NODE {
                    first2
                } else {
                    first
                }
            }),
        ensures
            after.chain(new_first, ids1 + ids2),
    {
        reveal(IntervalSkipLists::chain);
        let n = ids1 + ids2;
        let l = ids1.len() as int;
        assert forall|j: int| 0 <= j < n.len() implies {
            &&& #[trigger] n[j] < after.node_count()
            &&& n[j] != FAKE_NODE
            &&& !after.free_ids().contains(n[j])
        } by {
            if j < l {
                assert(n[j] == ids1[j]);
            } else {
                assert(n[j] == ids2[j - l]);
            }
        }
        assert forall|j: int| 0 <= j < n.len() implies after.succ_of(#[trigger] n[j] as int) == if j
            + 1 < n.len() {
            n[j + 1]
        } else {
            FAKE_NODE
        } by {
            if j < l {
                assert(n[j] == ids1[j]);
                if j + 1 < l {
                    assert(ids1[j] != ids1[l - 1]);
                } else if ids2.len() > 0 {
                    assert(n[j + 1] == ids2[0]);
                }
            } else {
                assert(n[j] == ids2[j - l]);
                if l > 0 {
                    assert(ids2[j - l] != ids1[l - 1]);
                }
            }
        }
        assert forall|j: int| 0 <= j < n.len() implies after.pred_of(#[trigger] n[j] as int) == if j
            > 0 {
            n[j - 1]
        } else {
            FAKE_NODE
        } by {
            if j < l {
                assert(n[j] == ids1[j]);
                if ids2.len() > 0 {
                    assert(ids1[j] != ids2[0]);
                }
            } else {
                assert(n[j] == ids2[j - l]);
                if j > l {
                    assert(ids2[j - l] != ids2[0]);
                } else if l > 0 {
                    assert(n[j - 1] == ids1[l - 1]);
                }
            }
        }
        assert(n.no_duplicates()) by {
            assert forall|a: int, b: int| 0 <= a < b < n.len() implies n[a] != n[b] by {
                if b < l {
                    assert(n[a] == ids1[a] && n[b] == ids1[b]);
                } else if a >= l {
                    assert(n[a] == ids2[a - l] && n[b] == ids2[b - l]);
                } else {
                    assert(n[a] == ids1[a] && n[b] == ids2[b - l]);
                }
            }
        }
        if l == 0 {
            assert(n =~= ids2);
        } else {
            assert(n[0] == ids1[0]);
        }
    }

    /// A list keeps its shape in `other` when each of its slots is still live there and keeps
    /// its links.
    pub proof fn lemma_chain_frame(&self, other: &Self, first: usize, ids: Seq<usize>)
        requires
            self.chain(first, ids),
            forall|k: int|
                0 <= k < ids.len() ==> {
                    &&& #[trigger] ids[k] < other.node_count()
                    &&& !other.free_ids().contains(ids[k])
                    &&& other.succ_of(ids[k] as int) == self.succ_of(ids[k] as int)
                    &&& other.pred_of(ids[k] as int) == self.pred_of(ids[k] as int)
                },
        ensures
            other.chain(first, ids),
    {
        reveal(IntervalSkipLists::chain);
        assert forall|k: int| 0 <= k < ids.len() implies other.succ_of(#[trigger] ids[k] as int)
            == if k + 1 < ids.len() {
            ids[k + 1]
        } else {
            FAKE_NODE
        } by {
            assert(self.succ_of(ids[k] as int) == other.succ_of(ids[k] as int));
        }
        assert forall|k: int| 0 <= k < ids.len() implies other.pred_of(#[trigger] ids[k] as int)
            == if k > 0 {
            ids[k - 1]
        } else {
            FAKE_NODE
        } by {
            assert(self.pred_of(ids[k] as int) == other.pred_of(ids[k] as int));
        }
    }

    /// Cutting a list after slot `p` and before slot `s`, as `split_between` does, leaves every
    /// list that holds neither `p` nor `s` as it was.
    pub proof fn lemma_split_keeps_other(&self, after: &Self, p: usize, s: usize, b: SkipListAccess)
        requires
            self.wf(),
            self.holds_list(b),
            !self.list_ids(b).contains(p),
            !self.list_ids(b).contains(s),
            after.node_count() == self.node_count(),
            after.free_ids() == self.free_ids(),
            forall|x: int|
                0 <= x < self.node_count() ==> #[trigger] after.succ_of(x) == if x == p {
                    FAKE_NODE
                } else {
                    self.succ_of(x)
                },
            forall|x: int|
                0 <= x < self.node_count() ==> #[trigger] after.pred_of(x) == if x == s {
                    FAKE_NODE
                } else {
                    self.pred_of(x)
                },
            forall|x: int| 0 <= x < self.node_count() ==> #[trigger] after.interval_of(x) == self.interval_of(x),
        ensures
            after.holds_list(b),
            after.list_intervals(b) == self.list_intervals(b),
    {
        let ids = self.list_ids(b);
        assert(self.chain(b.first(), ids));
        reveal(IntervalSkipLists::chain);
        assert forall|k: int| 0 <= k < ids.len() implies {
            &&& #[trigger] ids[k] < after.node_count()
            &&& !after.free_ids().contains(ids[k])
            &&& after.succ_of(ids[k] as int) == self.succ_of(ids[k] as int)
            &&& after.pred_of(ids[k] as int) == self.pred_of(ids[k] as int)
        } by {
            assert(ids[k] < self.node_count());
            assert(ids[k] != p && ids[k] != s);
        }
        self.lemma_chain_frame(after, b.first(), ids);
        after.lemma_list_ids(b, ids);
        assert forall|k: int| 0 <= k < ids.len() implies after.interval_of(#[trigger] ids[k] as int)
            == self.interval_of(ids[k] as int) by {
            assert(ids[k] < self.node_count());
        }
        assert(after.list_intervals(b) =~= self.list_intervals(b));
    }

    /// Unlinks slot `id` from its neighbours and frees it.
    fn remove_node(&mut self, access: &mut SkipListAccess, id: usize)
        requires
            old(self).wf(),
            id < old(self).node_count(),
            !old(self).free_ids().contains(id),
            old(self).pred_of(id as int) == FAKE_NODE || old(self).pred_of(id as int)
                < old(self).node_count(),
            old(self).succ_of(id as int) == FAKE_NODE || old(self).succ_of(id as int)
                < old(self).node_count(),
        ensures
            final(self).wf(),
            final(self).free_ids() == old(self).free_ids().push(id),
            final(self).node_count() == old(self).node_count(),
            forall|x: int|
                0 <= x < old(self).node_count() ==> #[trigger] final(self).succ_of(x) == if x == old(self).pred_of(id as int) {
                    old(self).succ_of(id as int)
                } else {
                    old(self).succ_of(x)
                },
            forall|x: int|
                0 <= x < old(self).node_count() ==> #[trigger] final(self).pred_of(x) == if x == old(self).succ_of(id as int) {
                    old(self).pred_of(id as int)
                } else {
                    old(self).pred_of(x)
                },
            forall|x: int|
                0 <= x < old(self).node_count() ==> #[trigger] final(self).interval_of(x) == old(self).interval_of(x),
            final(access).first() == if old(self).pred_of(id as int) == FAKE_NODE {
                old(self).succ_of(id as int)
            } else {
                old(access).first()
            },
    {
        self.free_idxs.push(id);
        let ghost mid_nodes = self.nodes@;
        let ghost mid_access = *access;
        let ghost p0 = mid_nodes[id as int].preds@[0];
        let ghost s0 = mid_nodes[id as int].succs@[0];
        let height = self.nodes[id].height;
        proof {
            assert(old(self).nodes@[id as int].id == id);
        }
        let mut i: usize = 0;
        while i < height
            invariant
                height == 1,
                i <= height,
                id < self.nodes@.len(),
                self.nodes@.len() == mid_nodes.len(),
                self.free_idxs@ == old(self).free_idxs@.push(id),
                mid_nodes.len() <= FAKE_NODE,
                p0 == FAKE_NODE || p0 < mid_nodes.len(),
                s0 == FAKE_NODE || s0 < mid_nodes.len(),
                p0 == mid_nodes[id as int].preds@[0],
                s0 == mid_nodes[id as int].succs@[0],
                i == 0 ==> self.nodes@ == mid_nodes && *access == mid_access,
                i == 1 ==> {
                    &&& forall|x: int|
                        0 <= x < mid_nodes.len() ==> {
                            &&& (#[trigger] self.nodes@[x]).id == mid_nodes[x].id
                            &&& self.nodes@[x].height == mid_nodes[x].height
                            &&& self.nodes@[x].interval == mid_nodes[x].interval
                            &&& self.nodes@[x].succs@[0] == if x == p0 {
                                s0
                            } else {
                                mid_nodes[x].succs@[0]
                            }
                            &&& self.nodes@[x].preds@[0] == if x == s0 {
                                p0
                            } else {
                                mid_nodes[x].preds@[0]
                            }
                        }
                    &&& access.first_nodes@[0] == if p0 == FAKE_NODE {
                        s0
                    } else {
                        mid_access.first_nodes@[0]
                    }
                },
            decreases height - i,
        {
            let p = self.nodes[id].preds[i];
            let s = self.nodes[id].succs[i];
            if p == FAKE_NODE {
                access.first_nodes[i] = s;
            } else {
                self.nodes[p].succs[i] = s;
            }
            if s != FAKE_NODE {
                self.nodes[s].preds[i] = p;
            }
            i += 1;
        }
        proof {
            assert forall|k: int| 0 <= k < self.nodes@.len() implies (#[trigger] self.nodes@[k]).id
                == k && 1 <= self.nodes@[k].height <= SKIP_LIST_HEIGHT by {
                assert(old(self).nodes@[k].id == k);
            }
            assert forall|k: int| 0 <= k < self.free_idxs@.len() implies #[trigger] self.free_idxs@[k]
                < self.nodes@.len() by {
                if k < old(self).free_idxs@.len() {
                    assert(old(self).free_idxs@[k] == self.free_idxs@[k]);
                }
            }
            assert(self.free_idxs@.no_duplicates()) by {
                assert forall|a: int, b: int|
                    0 <= a < b < self.free_idxs@.len() implies self.free_idxs@[a]
                    != self.free_idxs@[b] by {
                    if b == old(self).free_idxs@.len() {
                        assert(old(self).free_idxs@.contains(self.free_idxs@[a]));
                    }
                }
            }
        }
    }

    /// Cutting a list between its `k`-th and `k + 1`-th slots, as `split_between` does, leaves
    /// the first `k` slots in the list of the old handle and the others in the list of the new one.
    #[verifier::spinoff_prover]
    #[verifier::rlimit(40)]
    pub proof fn lemma_split_chain(
        &self,
        after: &Self,
        first: usize,
        new_first: usize,
        p: usize,
        s: usize,
        ids: Seq<usize>,
        k: int,
    )
        requires
            self.chain(first, ids),
            0 <= k <= ids.len(),
            p == if k > 0 {
                ids[k - 1]
            } else {
                FAKE_NODE
            },
            s == if k < ids.len() {
                ids[k]
            } else {
                FAKE_NODE
            },
            after.free_ids() == self.free_ids(),
            after.node_count() == self.node_count(),
            new_first == if p == FAKE_NODE {
                FAKE_NODE
            } else {
                first
            },
            forall|x: int|
                0 <= x < self.node_count() ==> #[trigger] after.succ_of(x) == if x == p {
                    FAKE_NODE
                } else {
                    self.succ_of(x)
                },
            forall|x: int|
                0 <= x < self.node_count() ==> #[trigger] after.pred_of(x) == if x == s {
                    FAKE_NODE
                } else {
                    self.pred_of(x)
                },
        ensures
            after.chain(new_first, ids.take(k)),
            after.chain(s, ids.skip(k)),
    {
        reveal(IntervalSkipLists::chain);
        let a = ids.take(k);
        let b = ids.skip(k);
        assert forall|j: int| 0 <= j < a.len() implies after.succ_of(#[trigger] a[j] as int) == if j
            + 1 < a.len() {
            a[j + 1]
        } else {
            FAKE_NODE
        } by {
            assert(a[j] == ids[j]);
            assert(after.succ_of(ids[j] as int) == if ids[j] == p { FAKE_NODE } else { self.succ_of(ids[j] as int) });
            if j + 1 < k {
                assert(ids[j] != ids[k - 1]);
            }
        }
        assert forall|j: int| 0 <= j < a.len() implies after.pred_of(#[trigger] a[j] as int) == if j
            > 0 {
            a[j - 1]
        } else {
            FAKE_NODE
        } by {
            assert(a[j] == ids[j]);
            assert(after.succ_of(ids[j] as int) == if ids[j] == p { FAKE_NODE } else { self.succ_of(ids[j] as int) });
            if k < ids.len() {
                assert(ids[j] != ids[k]);
            }
        }
        assert forall|j: int| 0 <= j < b.len() implies after.succ_of(#[trigger] b[j] as int) == if j
            + 1 < b.len() {
            b[j + 1]
        } else {
            FAKE_NODE
        } by {
            assert(b[j] == ids[k + j]);
            assert(after.succ_of(ids[k + j] as int) == if ids[k + j] == p { FAKE_NODE } else { self.succ_of(ids[k + j] as int) });
            if k > 0 {
                assert(ids[k + j] != ids[k - 1]);
            }
        }
        assert forall|j: int| 0 <= j < b.len() implies after.pred_of(#[trigger] b[j] as int) == if j
            > 0 {
            b[j - 1]
        } else {
            FAKE_NODE
        } by {
            assert(b[j] == ids[k + j]);
            assert(after.succ_of(ids[k + j] as int) == if ids[k + j] == p { FAKE_NODE } else { self.succ_of(ids[k + j] as int) });
            if j > 0 {
                assert(ids[k + j] != ids[k]);
            }
        }
        assert forall|j: int| 0 <= j < a.len() implies {
            &&& #[trigger] a[j] < after.node_count()
            &&& a[j] != FAKE_NODE
            &&& !after.free_ids().contains(a[j])
        } by {
            assert(a[j] == ids[j]);
        }
        assert forall|j: int| 0 <= j < b.len() implies {
            &&& #[trigger] b[j] < after.node_count()
            &&& b[j] != FAKE_NODE
            &&& !after.free_ids().contains(b[j])
        } by {
            assert(b[j] == ids[k + j]);
        }
        if k > 0 {
            assert(ids[0] == a[0]);
        }
    }

    /// Cuts the list of `access` between `preds` and `succs`: the part up to `preds` stays with
    /// `access`, and the handle of the rest is returned.
    pub fn split_between(
        &mut self,
        access: &mut SkipListAccess,
        preds: [usize; SKIP_LIST_HEIGHT],
        succs: [usize; SKIP_LIST_HEIGHT],
    ) -> (rest: SkipListAccess)
        requires
            old(self).wf(),
            preds@[0] == FAKE_NODE || preds@[0] < old(self).node_count(),
            succs@[0] == FAKE_NODE || succs@[0] < old(self).node_count(),
        ensures
            final(self).wf(),
            final(self).free_ids() == old(self).free_ids(),
            final(self).node_count() == old(self).node_count(),
            forall|x: int|
                0 <= x < old(self).node_count() ==> #[trigger] final(self).succ_of(x) == if x == preds@[0] {
                    FAKE_NODE
                } else {
                    old(self).succ_of(x)
                },
            forall|x: int|
                0 <= x < old(self).node_count() ==> #[trigger] final(self).pred_of(x) == if x == succs@[0] {
                    FAKE_NODE
                } else {
                    old(self).pred_of(x)
                },
            forall|x: int|
                0 <= x < old(self).node_count() ==> #[trigger] final(self).interval_of(x) == old(self).interval_of(x),
            final(access).first() == if preds@[0] == FAKE_NODE {
                FAKE_NODE
            } else {
                old(access).first()
            },
            rest.first() == succs@[0],
    {
        let ghost mid_nodes = self.nodes@;
        let ghost mid_access = *access;
        let mut i: usize = 0;
        while i < SKIP_LIST_HEIGHT
            invariant
                i <= SKIP_LIST_HEIGHT,
                self.nodes@.len() == mid_nodes.len(),
                self.free_idxs@ == old(self).free_idxs@,
                mid_nodes.len() <= FAKE_NODE,
                preds@[0] == FAKE_NODE || preds@[0] < mid_nodes.len(),
                succs@[0] == FAKE_NODE || succs@[0] < mid_nodes.len(),
                i == 0 ==> self.nodes@ == mid_nodes && *access == mid_access,
                i == 1 ==> {
                    &&& forall|x: int|
                        0 <= x < mid_nodes.len() ==> {
                            &&& (#[trigger] self.nodes@[x]).id == mid_nodes[x].id
                            &&& self.nodes@[x].height == mid_nodes[x].height
                            &&& self.nodes@[x].interval == mid_nodes[x].interval
                            &&& self.nodes@[x].succs@[0] == if x == preds@[0] {
                                FAKE_NODE
                            } else {
                                mid_nodes[x].succs@[0]
                            }
                            &&& self.nodes@[x].preds@[0] == if x == succs@[0] {
                                FAKE_NODE
                            } else {
                                mid_nodes[x].preds@[0]
                            }
                        }
                    &&& access.first_nodes@[0] == if preds@[0] == FAKE_NODE {
                        FAKE_NODE
                    } else {
                        mid_access.first_nodes@[0]
                    }
                },
            decreases SKIP_LIST_HEIGHT - i,
        {
            let s = succs[i];
            let p = preds[i];
            if p == FAKE_NODE {
                access.first_nodes[i] = FAKE_NODE;
            } else {
                self.nodes[p].succs[i] = FAKE_NODE;
            }
            if s != FAKE_NODE {
                self.nodes[s].preds[i] = FAKE_NODE;
            }
            i += 1;
        }
        proof {
            assert forall|k: int| 0 <= k < self.nodes@.len() implies (#[trigger] self.nodes@[k]).id
                == k && 1 <= self.nodes@[k].height <= SKIP_LIST_HEIGHT by {
                assert(old(self).nodes@[k].id == k);
            }
        }
        let rest = SkipListAccess { first_nodes: succs };
        rest
    }

    /// Loads `intervals`, meant to be sorted, as a new list and returns its handle. Lists that
    /// were well linked before keep their slots, links and intervals.
    #[verifier::rlimit(80)]
    pub fn bulk_load(&mut self, intervals: Vec<I>) -> (access: SkipListAccess)
        requires
            old(self).wf(),
            old(self).node_count() + intervals@.len() <= FAKE_NODE,
        ensures
            final(self).wf(),
            final(self).holds_list(access),
            final(self).list_intervals(access) == intervals@,
            forall|f: usize, ids: Seq<usize>|
                old(self).chain(f, ids) ==> #[trigger] final(self).chain(f, ids),
            forall|x: int|
                0 <= x < old(self).node_count() && !old(self).free_ids().contains(x as usize)
                    ==> #[trigger] final(self).interval_of(x) == old(self).interval_of(x),
    {
        let mut preds = [FAKE_NODE; SKIP_LIST_HEIGHT];
        let mut access = SkipListAccess::new();
        let ghost mut ids: Seq<usize> = Seq::empty();
        let ghost input = intervals@;
        assert(self.chain(access.first(), ids)) by {
            reveal(IntervalSkipLists::chain);
        }
        for interval in it: intervals
            invariant
                it.seq() == input,
                self.wf(),
                ids.len() == it.index(),
                self.chain(access.first(), ids),
                preds@[0] == if ids.len() == 0 {
                    FAKE_NODE
                } else {
                    ids.last()
                },
                forall|k: int| 0 <= k < ids.len() ==> #[trigger] self.interval_of(ids[k] as int) == input[k],
                forall|k: int|
                    0 <= k < ids.len() ==> #[trigger] ids[k] >= old(self).node_count()
                        || old(self).free_ids().contains(ids[k]),
                self.node_count() <= old(self).node_count() + ids.len(),
                self.node_count() >= old(self).node_count(),
                self.free_ids().len() <= old(self).free_ids().len(),
                self.free_ids() == old(self).free_ids().take(self.free_ids().len() as int),
                old(self).node_count() + input.len() <= FAKE_NODE,
                forall|f: usize, ids2: Seq<usize>|
                    old(self).chain(f, ids2) ==> #[trigger] self.chain(f, ids2),
                forall|x: int|
                    0 <= x < old(self).node_count() && !old(self).free_ids().contains(x as usize) ==> #[trigger] self.interval_of(x)
                        == old(self).interval_of(x),
        {
            let ghost before = *self;
            let ghost before_access = access;
            let no_succs = [FAKE_NODE; SKIP_LIST_HEIGHT];
            assert(no_succs@[0] == FAKE_NODE);
            assert(preds@[0] == FAKE_NODE || (preds@[0] < self.node_count() && !self.free_ids().contains(
                preds@[0],
            ))) by {
                reveal(IntervalSkipLists::chain);
                if ids.len() > 0 {
                    assert(ids[ids.len() - 1] == preds@[0]);
                }
            }
            let id = self.add_node(&mut access, interval, preds, no_succs);
            proof {
                old(self).lemma_bulk_step(&before, &*self, before_access.first(), access.first(), ids, id, preds@[0], input);
                ids = ids.push(id);
                assert(self.nodes@[id as int].id == id);
            }
            self.nodes[id].use_as_preds(&mut preds);
        }
        proof {
            assert(ids =~= ids.take(ids.len() as int));
            self.lemma_list_ids(access, ids);
            assert(self.list_intervals(access) =~= input);
        }
        access
    }

    #[verifier::spinoff_prover]
    proof fn lemma_bulk_step(
        &self,
        before: &Self,
        after: &Self,
        first: usize,
        new_first: usize,
        ids: Seq<usize>,
        id: usize,
        p: usize,
        input: Seq<I>,
    )
        requires
            p == if ids.len() == 0 {
                FAKE_NODE
            } else {
                ids.last()
            },
            before.wf(),
            after.wf(),
            ids.len() < input.len(),
            before.chain(first, ids),
            forall|k: int| 0 <= k < ids.len() ==> #[trigger] before.interval_of(ids[k] as int) == input[k],
            forall|k: int|
                0 <= k < ids.len() ==> #[trigger] ids[k] >= self.node_count()
                    || self.free_ids().contains(ids[k]),
            before.node_count() >= self.node_count(),
            before.free_ids() == self.free_ids().take(before.free_ids().len() as int),
            before.free_ids().len() <= self.free_ids().len(),
            forall|f: usize, ids2: Seq<usize>|
                self.chain(f, ids2) ==> #[trigger] before.chain(f, ids2),
            forall|x: int|
                0 <= x < self.node_count() && !self.free_ids().contains(x as usize) ==> #[trigger] before.interval_of(x)
                    == self.interval_of(x),
            id == if before.free_ids().len() == 0 {
                before.node_count() as usize
            } else {
                before.free_ids().last()
            },
            after.free_ids() == if before.free_ids().len() == 0 {
                before.free_ids()
            } else {
                before.free_ids().drop_last()
            },
            after.node_count() == if before.free_ids().len() == 0 {
                before.node_count() + 1
            } else {
                before.node_count()
            },
            after.interval_of(id as int) == input[ids.len() as int],
            after.pred_of(id as int) == p,
            after.succ_of(id as int) == FAKE_NODE,
            forall|x: int|
                0 <= x < before.node_count() && x != id ==> #[trigger] after.succ_of(x) == if x == p {
                    id
                } else {
                    before.succ_of(x)
                },
            forall|x: int|
                0 <= x < before.node_count() && x != id ==> #[trigger] after.pred_of(x) == if x
                    == FAKE_NODE {
                    id
                } else {
                    before.pred_of(x)
                },
            forall|x: int|
                0 <= x < before.node_count() && x != id ==> #[trigger] after.interval_of(x)
                    == before.interval_of(x),
            new_first == if p == FAKE_NODE {
                id
            } else {
                first
            },
        ensures
            after.chain(new_first, ids.push(id)),
            forall|k: int| 0 <= k < ids.len() + 1 ==> #[trigger] after.interval_of(ids.push(id)[k] as int) == input[k],
            forall|k: int|
                0 <= k < ids.len() + 1 ==> #[trigger] ids.push(id)[k] >= self.node_count()
                    || self.free_ids().contains(ids.push(id)[k]),
            after.free_ids() == self.free_ids().take(after.free_ids().len() as int),
            forall|f: usize, ids2: Seq<usize>|
                self.chain(f, ids2) ==> #[trigger] after.chain(f, ids2),
            forall|x: int|
                0 <= x < self.node_count() && !self.free_ids().contains(x as usize) ==> #[trigger] after.interval_of(x)
                    == self.interval_of(x),
    {
        reveal(IntervalSkipLists::chain);
        if before.free_ids().len() > 0 {
            let last = before.free_ids().len() - 1;
            assert(before.free_ids()[last] == id);
            assert(self.free_ids()[last] == id);
            assert(self.free_ids().contains(id));
            assert(before.free_ids().contains(id));
            assert(after.free_ids() =~= self.free_ids().take(after.free_ids().len() as int));
        }
        assert(!after.free_ids().contains(id)) by {
            if after.free_ids().contains(id) {
                let j = choose|j: int| 0 <= j < after.free_ids().len() && after.free_ids()[j] == id;
                assert(before.free_ids()[j] == id);
                assert(before.free_ids()[before.free_ids().len() - 1] == id);
            }
        }
        assert(!ids.contains(id)) by {
            if ids.contains(id) {
                let k = choose|k: int| 0 <= k < ids.len() && ids[k] == id;
                assert(!before.free_ids().contains(ids[k]));
            }
        }
        assert forall|j: int| 0 <= j < after.free_ids().len() implies before.free_ids().contains(#[trigger] after.free_ids()[j]) by {
            assert(after.free_ids()[j] == before.free_ids()[j]);
        }
        before.lemma_append_chain(after, first, new_first, ids, id);
        let n = ids.push(id);
        assert forall|k: int| 0 <= k < ids.len() + 1 implies #[trigger] after.interval_of(n[k] as int) == input[k] by {
            if k < ids.len() {
                assert(n[k] == ids[k]);
                assert(before.interval_of(ids[k] as int) == input[k]);
            }
        }
        assert forall|k: int|
            0 <= k < ids.len() + 1 implies #[trigger] n[k] >= self.node_count()
                || self.free_ids().contains(n[k]) by {
            if k < ids.len() {
                assert(n[k] == ids[k]);
            }
        }
        assert forall|x: int|
            0 <= x < self.node_count() && !self.free_ids().contains(x as usize) implies #[trigger] after.interval_of(x)
                == self.interval_of(x) by {
            assert(x != id);
            assert(0 <= x < before.node_count());
            assert(after.interval_of(x) == before.interval_of(x));
            assert(before.interval_of(x) == self.interval_of(x));
        }
        assert forall|f: usize, ids2: Seq<usize>| self.chain(f, ids2) implies #[trigger] after.chain(f, ids2) by {
            assert(before.chain(f, ids2));
            assert forall|k: int| 0 <= k < ids2.len() implies {
                &&& #[trigger] ids2[k] < after.node_count()
                &&& !after.free_ids().contains(ids2[k])
                &&& after.succ_of(ids2[k] as int) == before.succ_of(ids2[k] as int)
                &&& after.pred_of(ids2[k] as int) == before.pred_of(ids2[k] as int)
            } by {
                let x = ids2[k];
                assert(x < self.node_count() && !self.free_ids().contains(x));
                assert(x != id);
                if ids.len() > 0 {
                    let last = ids.last();
                    assert(ids[ids.len() - 1] == last);
                    assert(x != last);
                }
                if after.free_ids().contains(x) {
                    let j = choose|j: int| 0 <= j < after.free_ids().len() && after.free_ids()[j] == x;
                    assert(self.free_ids()[j] == x);
                }
            }
            before.lemma_chain_frame(after, f, ids2);
        }
    }

    /// Appending a freshly linked slot `id` after the last slot of a list.
    proof fn lemma_append_chain(&self, after: &Self, first: usize, new_first: usize, ids: Seq<usize>, id: usize)
        requires
            self.wf(),
            after.wf(),
            self.chain(first, ids),
            id < after.node_count(),
            !after.free_ids().contains(id),
            !ids.contains(id),
            after.node_count() >= self.node_count(),
            forall|j: int| 0 <= j < after.free_ids().len() ==> self.free_ids().contains(#[trigger] after.free_ids()[j]),
            ({
                let p = if ids.len() == 0 { FAKE_NODE } else { ids.last() };
                &&& after.pred_of(id as int) == p
                &&& after.succ_of(id as int) == FAKE_NODE
                &&& forall|x: int|
                    0 <= x < self.node_count() && x != id ==> #[trigger] after.succ_of(x) == if x == p {
                        id
                    } else {
                        self.succ_of(x)
                    }
                &&& forall|x: int|
                    0 <= x < self.node_count() && x != id ==> #[trigger] after.pred_of(x) == self.pred_of(x)
                &&& new_first == if p == FAKE_NODE {
                    id
                } else {
                    first
                }
            }),
        ensures
            after.chain(new_first, ids.push(id)),
    {
        reveal(IntervalSkipLists::chain);
        let n = ids.push(id);
        assert forall|k: int| 0 <= k < n.len() implies {
            &&& #[trigger] n[k] < after.node_count()
            &&& n[k] != FAKE_NODE
            &&& !after.free_ids().contains(n[k])
        } by {
            if k < ids.len() {
                assert(n[k] == ids[k]);
                if after.free_ids().contains(n[k]) {
                    let j = choose|j: int| 0 <= j < after.free_ids().len() && after.free_ids()[j] == n[k];
                    assert(self.free_ids().contains(after.free_ids()[j]));
                }
            }
        }
        assert forall|k: int| 0 <= k < n.len() implies after.succ_of(#[trigger] n[k] as int) == if k + 1 < n.len() {
            n[k + 1]
        } else {
            FAKE_NODE
        } by {
            if k < ids.len() {
                assert(n[k] == ids[k]);
                if k + 1 < ids.len() {
                    assert(ids[k] != ids[ids.len() - 1]);
                }
            }
        }
        assert forall|k: int| 0 <= k < n.len() implies after.pred_of(#[trigger] n[k] as int) == if k > 0 {
            n[k - 1]
        } else {
            FAKE_NODE
        } by {
            if k < ids.len() {
                assert(n[k] == ids[k]);
            }
        }
        assert(n.no_duplicates()) by {
            assert forall|a: int, b: int| 0 <= a < b < n.len() implies n[a] != n[b] by {
                if b == ids.len() {
                    assert(ids.contains(n[a]) || a >= ids.len());
                }
            }
        }
    }

    proof fn lemma_slot_ok(&self, id: usize)
        requires
            self.wf(),
            id < self.node_count(),
        ensures
            self.nodes@[id as int].id == id,
            1 <= self.nodes@[id as int].height <= SKIP_LIST_HEIGHT,
    {
        assert(self.nodes@[id as int].id == id);
    }

    /// An empty arena.
    pub fn new() -> (s: Self)
        ensures
            s.wf(),
            s.node_count() == 0,
            s.free_ids() == Seq::<usize>::empty(),
    {
        IntervalSkipLists { nodes: Vec::new(), free_idxs: Vec::new() }
    }
}

impl<I: Interval> IntervalSkipLists<I> {
    /// Where `value` lies compared with the interval of the `j`-th slot of `ids`.
    pub open spec fn side_at(&self, ids: Seq<usize>, j: int, value: &I::Value) -> Side {
        self.interval_of(ids[j] as int).side_of(value)
    }

    /// A cursor into the list of `access` placed at `value`: past every interval that lies
    /// before `value`, and then on the next interval if it holds `value`, or before it if not.
    #[verifier::rlimit(40)]
    pub fn cursor(&self, access: &SkipListAccess, value: I::Value) -> (c: Cursor)
        requires
            self.wf(),
            self.holds_list(*access),
        ensures
            exists|k: int|
                #![trigger self.side_at(self.list_ids(*access), k, &value)]
                {
                    let ids = self.list_ids(*access);
                    &&& 0 <= k <= ids.len()
                    &&& forall|j: int|
                        0 <= j < k ==> #[trigger] self.side_at(ids, j, &value) == Side::Greater
                    &&& k == ids.len() ==> c.between(ids, k)
                    &&& k < ids.len() ==> self.side_at(ids, k, &value) != Side::Greater
                    &&& k < ids.len() ==> (if self.side_at(ids, k, &value) == Side::Equal {
                        c.on(ids, k)
                    } else {
                        c.between(ids, k)
                    })
                },
    {
        let ghost ids = self.list_ids(*access);
        proof {
            assert(self.chain(access.first(), ids));
            reveal(IntervalSkipLists::chain);
        }
        let mut curr_i = SKIP_LIST_HEIGHT - 1;
        let mut preds = [FAKE_NODE; SKIP_LIST_HEIGHT];
        let mut succs = access.first_nodes;
        let ghost mut k: int = 0;
        loop
            invariant
                self.wf(),
                self.chain(access.first(), ids),
                ids == self.list_ids(*access),
                curr_i == 0,
                0 <= k <= ids.len(),
                preds@[0] == if k > 0 {
                    ids[k - 1]
                } else {
                    FAKE_NODE
                },
                succs@[0] == if k < ids.len() {
                    ids[k]
                } else {
                    FAKE_NODE
                },
                forall|j: int| 0 <= j < k ==> #[trigger] self.side_at(ids, j, &value) == Side::Greater,
            decreases ids.len() - k,
        {
            proof {
                reveal(IntervalSkipLists::chain);
            }
            let s_id = succs[curr_i];
            if s_id == FAKE_NODE {
                if curr_i == 0 {
                    let c = Cursor { idx: None, preds, succs: [FAKE_NODE; SKIP_LIST_HEIGHT] };
                    proof {
                        assert(k == ids.len()) by {
                            if k < ids.len() {
                                assert(ids[k] != FAKE_NODE);
                            }
                        }
                        assert(self.side_at(ids, k, &value) == self.side_at(ids, k, &value));
                    }
                    return c;
                }
                curr_i -= 1;
                continue ;
            }
            proof {
                assert(k < ids.len());
                self.lemma_slot_ok(s_id);
            }
            let node = &self.nodes[s_id];
            match node.interval.cmp_value(&value) {
                Side::Equal => {
                    if curr_i == 0 {
                        node.put_succs(&mut succs);
                        let c = Cursor { idx: Some(s_id), succs, preds };
                        assert(self.side_at(ids, k, &value) == Side::Equal);
                        return c;
                    } else {
                        curr_i -= 1;
                    }
                },
                Side::Greater => {
                    node.use_as_preds(&mut preds);
                    node.put_succs(&mut succs);
                    proof {
                        k = k + 1;
                    }
                },
                Side::Less => {
                    if curr_i == 0 {
                        let c = Cursor { idx: None, succs, preds };
                        assert(self.side_at(ids, k, &value) == Side::Less);
                        return c;
                    } else {
                        curr_i -= 1;
                    }
                },
            }
        }
    }

    /// A cursor before the first interval of the list of `access`.
    pub fn cursor_left(&self, access: &SkipListAccess) -> (c: Cursor)
        ensures
            c.slot() is None,
            c.pred() == FAKE_NODE,
            c.succ() == access.first(),
            forall|ids: Seq<usize>| #[trigger] self.chain(access.first(), ids) ==> c.between(ids, 0),
    {
        let c = Cursor { idx: None, succs: access.first_nodes, preds: [FAKE_NODE; SKIP_LIST_HEIGHT] };
        proof {
            reveal(IntervalSkipLists::chain);
        }
        c
    }
}

/// A position in a list of an arena: on one of its slots, or between two consecutive slots
/// (`FAKE_NODE` standing for the ends of the list).
#[derive(Debug, Clone, Copy)]
pub struct Cursor {
    idx: Option<usize>,
    preds: [usize; SKIP_LIST_HEIGHT],
    succs: [usize; SKIP_LIST_HEIGHT],
}

impl Cursor {
    /// The slot the cursor is on, if any.
    pub closed spec fn slot(&self) -> Option<usize> {
        self.idx
    }

    /// The slot before the cursor's position.
    pub closed spec fn pred(&self) -> usize {
        self.preds@[0]
    }

    /// The slot after the cursor's position.
    pub closed spec fn succ(&self) -> usize {
        self.succs@[0]
    }

    /// The cursor stands between the first `k` slots of `ids` and the others.
    pub open spec fn between(&self, ids: Seq<usize>, k: int) -> bool {
        &&& 0 <= k <= ids.len()
        &&& self.slot() is None
        &&& self.pred() == if k > 0 {
            ids[k - 1]
        } else {
            FAKE_NODE
        }
        &&& self.succ() == if k < ids.len() {
            ids[k]
        } else {
            FAKE_NODE
        }
    }

    /// The cursor is on the `k`-th slot of `ids`.
    pub open spec fn on(&self, ids: Seq<usize>, k: int) -> bool {
        &&& 0 <= k < ids.len()
        &&& self.slot() == Some(ids[k])
        &&& self.pred() == if k > 0 {
            ids[k - 1]
        } else {
            FAKE_NODE
        }
        &&& self.succ() == if k + 1 < ids.len() {
            ids[k + 1]
        } else {
            FAKE_NODE
        }
    }

    /// The interval the cursor is on, if any.
    pub fn get_interval<'b, I>(&self, list: &'b IntervalSkipLists<I>) -> (r: Option<&'b I>)
        requires
            self.slot() matches Some(id) ==> id < list.node_count(),
        ensures
            r is Some <==> self.slot() is Some,
            self.slot() matches Some(id) ==> *r.unwrap() == list.interval_of(id as int),
    {
        match self.idx {
            Some(id) => Some(&list.nodes[id].interval),
            None => None,
        }
    }

    /// The interval the cursor is on, if any, to be changed in place; the slots and their links
    /// stay as they are, so every list of the arena stays the same but for that interval.
    pub fn get_interval_mut<'b, I>(&self, list: &'b mut IntervalSkipLists<I>) -> (r: Option<&'b mut I>)
        requires
            self.slot() matches Some(id) ==> id < old(list).node_count(),
        ensures
            r is Some <==> self.slot() is Some,
            self.slot() is None ==> *final(list) == *old(list),
            self.slot() matches Some(id) ==> *r.unwrap() == old(list).interval_of(id as int),
            self.slot() matches Some(id) ==> final(list).interval_of(id as int) == *final(r.unwrap()),
            old(list).wf() ==> final(list).wf(),
            final(list).node_count() == old(list).node_count(),
            final(list).free_ids() == old(list).free_ids(),
            forall|k: int|
                0 <= k < old(list).node_count() ==> #[trigger] final(list).succ_of(k) == old(list).succ_of(k)
                    && final(list).pred_of(k) == old(list).pred_of(k),
            forall|k: int|
                0 <= k < old(list).node_count() && Some(k as usize) != self.slot() ==> #[trigger] final(list).interval_of(k) == old(list).interval_of(k),
            forall|first: usize, ids: Seq<usize>|
                #[trigger] final(list).chain(first, ids) == old(list).chain(first, ids),
    {
        proof {
            reveal(IntervalSkipLists::chain);
        }
        match self.idx {
            Some(id) => Some(&mut list.nodes[id].interval),
            None => None,
        }
    }

    /// Removes the interval the cursor is on; the cursor then stands where it was.
    pub fn remove_interval<I>(&mut self, list: &mut IntervalSkipLists<I>, access: &mut SkipListAccess)
        requires
            old(list).wf(),
            old(self).slot() is Some,
            old(self).slot().unwrap() < old(list).node_count(),
            !old(list).free_ids().contains(old(self).slot().unwrap()),
            old(list).pred_of(old(self).slot().unwrap() as int) == old(self).pred(),
            old(list).succ_of(old(self).slot().unwrap() as int) == old(self).succ(),
            old(self).pred() == FAKE_NODE || old(self).pred() < old(list).node_count(),
            old(self).succ() == FAKE_NODE || old(self).succ() < old(list).node_count(),
        ensures
            final(list).wf(),
            final(self).slot() is None,
            final(self).pred() == old(self).pred(),
            final(self).succ() == old(self).succ(),
            final(list).free_ids() == old(list).free_ids().push(old(self).slot().unwrap()),
            final(list).node_count() == old(list).node_count(),
            forall|x: int|
                0 <= x < old(list).node_count() ==> #[trigger] final(list).interval_of(x) == old(list).interval_of(x),
            forall|ids: Seq<usize>, k: int|
                #![trigger old(list).chain(old(access).first(), ids), old(self).on(ids, k)]
                old(list).chain(old(access).first(), ids) && old(self).on(ids, k) ==> {
                    &&& final(list).chain(final(access).first(), ids.remove(k))
                    &&& final(self).between(ids.remove(k), k)
                },
    {
        let id = match self.idx {
            Some(id) => id,
            None => {
                proof {
                    assert(false);
                }
                0
            },
        };
        let ghost before = *list;
        let ghost before_access = *access;
        list.remove_node(access, id);
        self.idx = None;
        proof {
            assert forall|ids: Seq<usize>, k: int|
                #![trigger old(list).chain(old(access).first(), ids), old(self).on(ids, k)]
                old(list).chain(old(access).first(), ids) && old(self).on(ids, k) implies {
                &&& list.chain(access.first(), ids.remove(k))
                &&& self.between(ids.remove(k), k)
            } by {
                before.lemma_remove_chain(&*list, before_access.first(), access.first(), ids, k);
                let n = ids.remove(k);
                if k > 0 {
                    assert(n[k - 1] == ids[k - 1]);
                }
                if k < n.len() {
                    assert(n[k] == ids[k + 1]);
                }
            }
        }
    }

    /// Inserts `interval` at the cursor's position; the cursor is then on it.
    pub fn push_interval<I>(
        &mut self,
        list: &mut IntervalSkipLists<I>,
        access: &mut SkipListAccess,
        interval: I,
    )
        requires
            old(list).wf(),
            old(self).slot() is None,
            old(self).pred() == FAKE_NODE || (old(self).pred() < old(list).node_count()
                && !old(list).free_ids().contains(old(self).pred())),
            old(self).succ() == FAKE_NODE || (old(self).succ() < old(list).node_count()
                && !old(list).free_ids().contains(old(self).succ())),
            old(list).free_ids().len() > 0 || old(list).node_count() < FAKE_NODE,
        ensures
            final(list).wf(),
            final(self).slot() is Some,
            final(self).pred() == old(self).pred(),
            final(self).succ() == old(self).succ(),
            final(list).interval_of(final(self).slot().unwrap() as int) == interval,
            final(self).slot().unwrap() == if old(list).free_ids().len() == 0 {
                old(list).node_count() as usize
            } else {
                old(list).free_ids().last()
            },
            forall|x: int|
                0 <= x < old(list).node_count() && x != final(self).slot().unwrap() ==> #[trigger] final(list).interval_of(x) == old(list).interval_of(x),
            forall|ids: Seq<usize>, k: int|
                #![trigger old(list).chain(old(access).first(), ids), old(self).between(ids, k)]
                old(list).chain(old(access).first(), ids) && old(self).between(ids, k) ==> {
                    &&& final(list).chain(
                        final(access).first(),
                        ids.insert(k, final(self).slot().unwrap()),
                    )
                    &&& final(self).on(ids.insert(k, final(self).slot().unwrap()), k)
                },
    {
        let ghost before = *list;
        let ghost before_access = *access;
        let id = list.add_node(access, interval, self.preds, self.succs);
        self.idx = Some(id);
        proof {
            assert forall|ids: Seq<usize>, k: int|
                #![trigger old(list).chain(old(access).first(), ids), old(self).between(ids, k)]
                old(list).chain(old(access).first(), ids) && old(self).between(ids, k) implies {
                &&& list.chain(access.first(), ids.insert(k, id))
                &&& self.on(ids.insert(k, id), k)
            } by {
                assert(!ids.contains(id)) by {
                    reveal(IntervalSkipLists::chain);
                    if ids.contains(id) {
                        let j = choose|j: int| 0 <= j < ids.len() && ids[j] == id;
                        assert(!before.free_ids().contains(ids[j]));
                        if before.free_ids().len() > 0 {
                            assert(before.free_ids()[before.free_ids().len() - 1] == id);
                        }
                    }
                }
                assert(!list.free_ids().contains(id)) by {
                    if list.free_ids().contains(id) {
                        let j = choose|j: int| 0 <= j < list.free_ids().len() && list.free_ids()[j] == id;
                        assert(before.free_ids()[j] == id);
                        assert(before.free_ids()[before.free_ids().len() - 1] == id);
                    }
                }
                assert forall|j: int| 0 <= j < list.free_ids().len() implies before.free_ids().contains(
                    #[trigger] list.free_ids()[j],
                ) by {
                    assert(list.free_ids()[j] == before.free_ids()[j]);
                }
                assert(list.nodes@[id as int].id == id);
                before.lemma_insert_chain(&*list, before_access.first(), access.first(), ids, k, id);
                let n = ids.insert(k, id);
                if k > 0 {
                    assert(n[k - 1] == ids[k - 1]);
                }
                if k < ids.len() {
                    assert(n[k + 1] == ids[k]);
                }
            }
        }
    }

    /// Steps over one slot to the right: from between two slots onto the next one, or from a
    /// slot to just after it. Panics at the right end of the list, which `requires` excludes.
    pub fn move_right<I>(&mut self, list: &IntervalSkipLists<I>)
        requires
            list.wf(),
            old(self).slot() is None ==> old(self).succ() != FAKE_NODE && old(self).succ()
                < list.node_count(),
            old(self).slot() matches Some(id) ==> id < list.node_count(),
        ensures
            old(self).slot() is None ==> {
                &&& final(self).slot() == Some(old(self).succ())
                &&& final(self).pred() == old(self).pred()
                &&& final(self).succ() == list.succ_of(old(self).succ() as int)
            },
            old(self).slot() matches Some(id) ==> {
                &&& final(self).slot() is None
                &&& final(self).pred() == id
                &&& final(self).succ() == old(self).succ()
            },
            forall|first: usize, ids: Seq<usize>, k: int|
                #![trigger list.chain(first, ids), old(self).between(ids, k)]
                list.chain(first, ids) && old(self).between(ids, k) ==> final(self).on(ids, k),
            forall|first: usize, ids: Seq<usize>, k: int|
                #![trigger list.chain(first, ids), old(self).on(ids, k)]
                list.chain(first, ids) && old(self).on(ids, k) ==> final(self).between(ids, k + 1),
    {
        match self.idx {
            None => {
                let id = self.succs[0];
                if id == FAKE_NODE {
                    proof {
                        assert(false);
                    }
                }
                self.idx = Some(id);
                proof {
                    assert(list.nodes@[id as int].id == id);
                }
                list.nodes[id].put_succs(&mut self.succs);
            },
            Some(id) => {
                self.idx = None;
                proof {
                    assert(list.nodes@[id as int].id == id);
                }
                list.nodes[id].use_as_preds(&mut self.preds);
            },
        }
        proof {
            reveal(IntervalSkipLists::chain);
        }
    }

    /// Steps over one slot to the left: from between two slots onto the previous one, or from
    /// a slot to just before it. Panics at the left end of the list, which `requires` excludes.
    pub fn move_left<I>(&mut self, list: &IntervalSkipLists<I>)
        requires
            list.wf(),
            old(self).slot() is None ==> old(self).pred() != FAKE_NODE && old(self).pred()
                < list.node_count(),
            old(self).slot() matches Some(id) ==> id < list.node_count(),
        ensures
            old(self).slot() is None ==> {
                &&& final(self).slot() == Some(old(self).pred())
                &&& final(self).pred() == list.pred_of(old(self).pred() as int)
                &&& final(self).succ() == old(self).succ()
            },
            old(self).slot() matches Some(id) ==> {
                &&& final(self).slot() is None
                &&& final(self).pred() == old(self).pred()
                &&& final(self).succ() == id
            },
            forall|first: usize, ids: Seq<usize>, k: int|
                #![trigger list.chain(first, ids), old(self).between(ids, k)]
                list.chain(first, ids) && old(self).between(ids, k) ==> final(self).on(ids, k - 1),
            forall|first: usize, ids: Seq<usize>, k: int|
                #![trigger list.chain(first, ids), old(self).on(ids, k)]
                list.chain(first, ids) && old(self).on(ids, k) ==> final(self).between(ids, k),
    {
        match self.idx {
            None => {
                let id = self.preds[0];
                if id == FAKE_NODE {
                    proof {
                        assert(false);
                    }
                }
                self.idx = Some(id);
                proof {
                    assert(list.nodes@[id as int].id == id);
                }
                list.nodes[id].put_preds(&mut self.preds);
            },
            Some(id) => {
                self.idx = None;
                proof {
                    assert(list.nodes@[id as int].id == id);
                }
                list.nodes[id].use_as_succs(&mut self.succs);
            },
        }
        proof {
            reveal(IntervalSkipLists::chain);
        }
    }

    /// Cuts the list at the cursor, which must stand between two slots: the part before it
    /// stays with `access`, and the handle of the rest is returned (see `split_between`).
    pub fn split_list<I>(&mut self, list: &mut IntervalSkipLists<I>, access: &mut SkipListAccess) -> (rest: SkipListAccess)
        requires
            old(list).wf(),
            old(self).slot() is None,
            old(self).pred() == FAKE_NODE || old(self).pred() < old(list).node_count(),
            old(self).succ() == FAKE_NODE || old(self).succ() < old(list).node_count(),
        ensures
            *final(self) == *old(self),
            final(list).wf(),
            final(list).free_ids() == old(list).free_ids(),
            final(list).node_count() == old(list).node_count(),
            forall|x: int|
                0 <= x < old(list).node_count() ==> #[trigger] final(list).succ_of(x) == if x == old(self).pred() {
                    FAKE_NODE
                } else {
                    old(list).succ_of(x)
                },
            forall|x: int|
                0 <= x < old(list).node_count() ==> #[trigger] final(list).pred_of(x) == if x == old(self).succ() {
                    FAKE_NODE
                } else {
                    old(list).pred_of(x)
                },
            forall|x: int|
                0 <= x < old(list).node_count() ==> #[trigger] final(list).interval_of(x) == old(list).interval_of(x),
            final(access).first() == if old(self).pred() == FAKE_NODE {
                FAKE_NODE
            } else {
                old(access).first()
            },
            rest.first() == old(self).succ(),
    {
        list.split_between(access, self.preds, self.succs)
    }

    /// Joins the list of `other` after the list of `access`, at whose right end the cursor must
    /// stand; the cursor then stands between the two parts.
    pub fn concat_list<I>(
        &mut self,
        list: &mut IntervalSkipLists<I>,
        access: &mut SkipListAccess,
        other: SkipListAccess,
    )
        requires
            old(list).wf(),
            old(self).slot() is None,
            old(self).succ() == FAKE_NODE,
            old(self).pred() == FAKE_NODE || old(self).pred() < old(list).node_count(),
            other.first() == FAKE_NODE || other.first() < old(list).node_count(),
        ensures
            final(list).wf(),
            final(self).slot() is None,
            final(self).pred() == old(self).pred(),
            final(self).succ() == other.first(),
            final(list).free_ids() == old(list).free_ids(),
            final(list).node_count() == old(list).node_count(),
            forall|x: int|
                0 <= x < old(list).node_count() ==> #[trigger] final(list).interval_of(x) == old(list).interval_of(x),
            forall|ids1: Seq<usize>, ids2: Seq<usize>|
                #![trigger old(list).chain(old(access).first(), ids1), old(list).chain(other.first(), ids2)]
                old(list).chain(old(access).first(), ids1) && old(list).chain(other.first(), ids2)
                    && old(self).between(ids1, ids1.len() as int) && (forall|a: int, b: int|
                    0 <= a < ids1.len() && 0 <= b < ids2.len() ==> ids1[a] != ids2[b]) ==> {
                    &&& final(list).chain(final(access).first(), ids1 + ids2)
                    &&& final(self).between(ids1 + ids2, ids1.len() as int)
                },
    {
        let ghost before = *list;
        let ghost before_access = *access;
        let ghost mid_nodes = list.nodes@;
        let ghost p0 = self.preds@[0];
        let ghost s0 = other.first_nodes@[0];
        let mut i: usize = 0;
        while i < SKIP_LIST_HEIGHT
            invariant
                i <= SKIP_LIST_HEIGHT,
                list.nodes@.len() == mid_nodes.len(),
                list.free_idxs@ == old(list).free_idxs@,
                mid_nodes == old(list).nodes@,
                mid_nodes.len() <= FAKE_NODE,
                p0 == self.preds@[0],
                s0 == other.first_nodes@[0],
                p0 == FAKE_NODE || p0 < mid_nodes.len(),
                s0 == FAKE_NODE || s0 < mid_nodes.len(),
                i == 0 ==> list.nodes@ == mid_nodes && *access == before_access,
                i == 1 ==> {
                    &&& forall|x: int|
                        0 <= x < mid_nodes.len() ==> {
                            &&& (#[trigger] list.nodes@[x]).id == mid_nodes[x].id
                            &&& list.nodes@[x].height == mid_nodes[x].height
                            &&& list.nodes@[x].interval == mid_nodes[x].interval
                            &&& list.nodes@[x].succs@[0] == if x == p0 {
                                s0
                            } else {
                                mid_nodes[x].succs@[0]
                            }
                            &&& list.nodes@[x].preds@[0] == if x == s0 {
                                p0
                            } else {
                                mid_nodes[x].preds@[0]
                            }
                        }
                    &&& access.first_nodes@[0] == if p0 == FAKE_NODE {
                        s0
                    } else {
                        before_access.first_nodes@[0]
                    }
                },
            decreases SKIP_LIST_HEIGHT - i,
        {
            let p = self.preds[i];
            let s = other.first_nodes[i];
            if s != FAKE_NODE {
                list.nodes[s].preds[i] = p;
            }
            if p != FAKE_NODE {
                list.nodes[p].succs[i] = s;
            } else {
                access.first_nodes[i] = s;
            }
            i += 1;
        }
        self.succs = other.first_nodes;
        proof {
            assert forall|k: int| 0 <= k < list.nodes@.len() implies (#[trigger] list.nodes@[k]).id
                == k && 1 <= list.nodes@[k].height <= SKIP_LIST_HEIGHT by {
                assert(old(list).nodes@[k].id == k);
            }
            assert forall|ids1: Seq<usize>, ids2: Seq<usize>|
                #![trigger old(list).chain(old(access).first(), ids1), old(list).chain(other.first(), ids2)]
                old(list).chain(old(access).first(), ids1) && old(list).chain(other.first(), ids2)
                    && old(self).between(ids1, ids1.len() as int) && (forall|a: int, b: int|
                    0 <= a < ids1.len() && 0 <= b < ids2.len() ==> ids1[a] != ids2[b]) implies {
                &&& list.chain(access.first(), ids1 + ids2)
                &&& self.between(ids1 + ids2, ids1.len() as int)
            } by {
                before.lemma_concat_chain(&*list, before_access.first(), access.first(), ids1, other.first(), ids2);
                let n = ids1 + ids2;
                let l = ids1.len() as int;
                if l > 0 {
                    assert(n[l - 1] == ids1[l - 1]);
                }
                if l < n.len() {
                    assert(n[l] == ids2[0]);
                    assert(other.first() == ids2[0]) by {
                        reveal(IntervalSkipLists::chain);
                    }
                } else {
                    assert(ids2.len() == 0);
                    assert(other.first() == FAKE_NODE) by {
                        reveal(IntervalSkipLists::chain);
                    }
                }
            }
        }
    }

    /// Whether the cursor stands before the first slot of its list.
    pub fn is_full_left(&self) -> (r: bool)
        ensures
            r == (self.slot() is None && self.pred() == FAKE_NODE),
    {
        self.idx.is_none() && self.preds[0] == FAKE_NODE
    }

    /// Whether the cursor stands after the last slot of its list.
    pub fn is_full_right(&self) -> (r: bool)
        ensures
            r == (self.slot() is None && self.succ() == FAKE_NODE),
    {
        self.idx.is_none() && self.succs[0] == FAKE_NODE
    }
}

/// Splitting a list at a cursor with `split_list`, then joining the two parts back with
/// `concat_list` from the right end of the first part, gives the list it was.
pub proof fn lemma_split_then_concat<I>(
    l0: IntervalSkipLists<I>,
    l1: IntervalSkipLists<I>,
    l2: IntervalSkipLists<I>,
    a0: SkipListAccess,
    a1: SkipListAccess,
    rest: SkipListAccess,
    a2: SkipListAccess,
    c: Cursor,
    end: Cursor,
    ids: Seq<usize>,
    k: int,
)
    requires
        l0.chain(a0.first(), ids),
        c.between(ids, k),
        l1.free_ids() == l0.free_ids(),
        l1.node_count() == l0.node_count(),
        forall|x: int|
            0 <= x < l0.node_count() ==> #[trigger] l1.succ_of(x) == if x == c.pred() {
                FAKE_NODE
            } else {
                l0.succ_of(x)
            },
        forall|x: int|
            0 <= x < l0.node_count() ==> #[trigger] l1.pred_of(x) == if x == c.succ() {
                FAKE_NODE
            } else {
                l0.pred_of(x)
            },
        a1.first() == if c.pred() == FAKE_NODE {
            FAKE_NODE
        } else {
            a0.first()
        },
        rest.first() == c.succ(),
        end.between(ids.take(k), k),
        forall|ids1: Seq<usize>, ids2: Seq<usize>|
            #![trigger l1.chain(a1.first(), ids1), l1.chain(rest.first(), ids2)]
            l1.chain(a1.first(), ids1) && l1.chain(rest.first(), ids2) && end.between(
                ids1,
                ids1.len() as int,
            ) && (forall|a: int, b: int|
                0 <= a < ids1.len() && 0 <= b < ids2.len() ==> ids1[a] != ids2[b]) ==> l2.chain(
                a2.first(),
                ids1 + ids2,
            ),
    ensures
        l2.chain(a2.first(), ids),
        l2.list_ids(a2) == ids,
{
    l0.lemma_split_chain(&l1, a0.first(), a1.first(), c.pred(), c.succ(), ids, k);
    let ids1 = ids.take(k);
    let ids2 = ids.skip(k);
    assert forall|a: int, b: int| 0 <= a < ids1.len() && 0 <= b < ids2.len() implies ids1[a] != ids2[b] by {
        reveal(IntervalSkipLists::chain);
        assert(ids1[a] == ids[a] && ids2[b] == ids[k + b]);
    }
    assert(ids1.len() == k);
    assert(ids1 + ids2 =~= ids);
    assert(l2.chain(a2.first(), ids1 + ids2));
    l2.lemma_chain_unique(a2.first(), ids, l2.list_ids(a2));
}

/// Pushing an interval at a cursor with `push_interval`, then removing it with
/// `remove_interval` where the cursor then stands, gives the list it was.
pub proof fn lemma_push_then_remove<I>(
    l1: IntervalSkipLists<I>,
    l2: IntervalSkipLists<I>,
    a1: SkipListAccess,
    a2: SkipListAccess,
    c: Cursor,
    ids: Seq<usize>,
    k: int,
    id: usize,
)
    requires
        0 <= k <= ids.len(),
        l1.chain(a1.first(), ids.insert(k, id)),
        c.on(ids.insert(k, id), k),
        forall|ids1: Seq<usize>, j: int|
            #![trigger l1.chain(a1.first(), ids1), c.on(ids1, j)]
            l1.chain(a1.first(), ids1) && c.on(ids1, j) ==> l2.chain(a2.first(), ids1.remove(j)),
    ensures
        l2.chain(a2.first(), ids),
        l2.list_ids(a2) == ids,
{
    assert(ids.insert(k, id).remove(k) =~= ids);
    assert(l2.chain(a2.first(), ids.insert(k, id).remove(k)));
    l2.lemma_chain_unique(a2.first(), ids, l2.list_ids(a2));
}

} // verus!
