use vstd::prelude::*;
use std::collections::HashMap;
use crate::graphs::traits::{Graph, IterableGraph};
use crate::graphs::structs::keys_of;

verus! {

broadcast use vstd::std_specs::hash::group_hash_axioms;

/// Following the links of `m` from `x`, a vertex without a link is reached after exactly `n`
/// steps.
pub open spec fn steps_to_root(m: Map<usize, usize>, x: usize, n: nat) -> bool
    decreases n,
{
    if n == 0 {
        !m.contains_key(x)
    } else {
        m.contains_key(x) && steps_to_root(m, m[x], (n - 1) as nat)
    }
}

/// The first `n` vertices met when following the links of `m` from `x`: its parent first.
pub open spec fn ancestors(m: Map<usize, usize>, x: usize, n: nat) -> Seq<usize>
    decreases n,
{
    if n == 0 {
        Seq::empty()
    } else {
        seq![m[x]] + ancestors(m, m[x], (n - 1) as nat)
    }
}

/// The chain of ancestors of `x`, from the root down to the parent of `x`, when it ends.
pub open spec fn path_from_root(m: Map<usize, usize>, x: usize) -> Seq<usize> {
    ancestors(m, x, choose|n: nat| steps_to_root(m, x, n)).reverse()
}

/// `v` reversed.
pub(crate) fn reversed(v: &Vec<usize>) -> (r: Vec<usize>)
    ensures
        r@ == v@.reverse(),
{
    let mut r: Vec<usize> = Vec::new();
    let mut i: usize = v.len();
    while i > 0
        invariant
            i <= v@.len(),
            r@.len() == v@.len() - i,
            forall|j: int| 0 <= j < r@.len() ==> #[trigger] r@[j] == v@[v@.len() - 1 - j],
        decreases i,
    {
        i -= 1;
        r.push(v[i]);
    }
    assert(r@ =~= v@.reverse());
    r
}

/// Follows the links of `m` from `x` up to a vertex without a link; `ancestors` in order.
fn climb(m: &HashMap<usize, usize>, x: usize) -> (path: Vec<usize>)
    requires
        exists|n: nat| steps_to_root(m@, x, n),
    ensures
        path@ == ancestors(m@, x, choose|n: nat| steps_to_root(m@, x, n)),
{
    let ghost n = choose|n: nat| steps_to_root(m@, x, n);
    let mut path: Vec<usize> = Vec::new();
    let mut cur = x;
    let ghost mut k: nat = n;
    loop
        invariant
            n == choose|n: nat| steps_to_root(m@, x, n),
            steps_to_root(m@, cur, k),
            path@ + ancestors(m@, cur, k) == ancestors(m@, x, n),
        decreases k,
    {
        match m.get(&cur) {
            Some(p) => {
                let p = *p;
                proof {
                    assert(k > 0);
                    assert(ancestors(m@, cur, k) == seq![p] + ancestors(m@, p, (k - 1) as nat));
                    assert(path@.push(p) + ancestors(m@, p, (k - 1) as nat) =~= path@ + ancestors(m@, cur, k));
                    k = (k - 1) as nat;
                }
                path.push(p);
                cur = p;
            },
            None => {
                proof {
                    assert(k == 0);
                    assert(path@ =~= path@ + ancestors(m@, cur, k));
                }
                return path;
            },
        }
    }
}

/// A forest in which each vertex knows its parent.
#[derive(Clone, Debug)]
pub struct ParentTree {
    parent: HashMap<usize, usize>,
}

impl ParentTree {
    /// The parent of each vertex that has one.
    pub closed spec fn parents(&self) -> Map<usize, usize> {
        self.parent@
    }

    /// A forest with no link.
    pub fn new() -> (t: Self)
        ensures
            t.parents() == Map::<usize, usize>::empty(),
    {
        ParentTree { parent: HashMap::new() }
    }

    /// Makes `parent` the parent of `id`.
    pub fn set_parent(&mut self, id: usize, parent: usize)
        ensures
            final(self).parents() == old(self).parents().insert(id, parent),
            final(self).parents().dom().finite(),
    {
        self.parent.insert(id, parent);
    }

    /// The parent of `id`, if it has one.
    pub fn get_parent(&self, id: usize) -> (r: Option<usize>)
        ensures
            r == if self.parents().contains_key(id) {
                Some(self.parents()[id])
            } else {
                None::<usize>
            },
    {
        match self.parent.get(&id) {
            Some(p) => Some(*p),
            None => None,
        }
    }

    /// The number of vertices that have a parent.
    pub fn nb_links(&self) -> (r: usize)
        ensures
            self.parents().dom().finite(),
            r == self.parents().len(),
    {
        self.parent.len()
    }

    /// The ancestors of `x`, from its root down to its parent. The chain of parents from `x`
    /// must end: on a cycle the walk would not return.
    pub fn path_to(&self, x: usize) -> (path: Vec<usize>)
        requires
            exists|n: nat| steps_to_root(self.parents(), x, n),
        ensures
            path@ == path_from_root(self.parents(), x),
    {
        let up = climb(&self.parent, x);
        reversed(&up)
    }
}

impl Graph for ParentTree {
    open spec fn graph_ok(&self) -> bool {
        true
    }

    open spec fn has_vertex(&self, vertex: usize) -> bool {
        true
    }

    open spec fn neighbors_ok(&self, vertex: usize, r: Seq<usize>) -> bool {
        r == if self.parents().contains_key(vertex) {
            seq![self.parents()[vertex]]
        } else {
            Seq::<usize>::empty()
        }
    }

    /// The parent of `vertex`, if it has one.
    fn neighbors(&self, vertex: usize) -> (r: Vec<usize>) {
        let mut r: Vec<usize> = Vec::new();
        match self.parent.get(&vertex) {
            Some(p) => r.push(*p),
            None => {},
        }
        assert(self.neighbors_ok(vertex, r@));
        r
    }
}

impl IterableGraph for ParentTree {
    open spec fn listed(&self, v: usize) -> bool {
        self.parents().contains_key(v)
    }

    /// The vertices that have a parent, in the order of the hash map.
    fn iter(&self) -> (r: Vec<usize>) {
        keys_of(&self.parent)
    }
}

/// Holds of every value but `x`.
pub open spec fn differs_from(x: usize) -> spec_fn(usize) -> bool {
    |e: usize| e != x
}

/// `v` without any occurrence of `x`, in order.
fn without(v: &Vec<usize>, x: usize) -> (r: Vec<usize>)
    ensures
        r@ == v@.filter(differs_from(x)),
        forall|e: usize| r@.contains(e) <==> v@.contains(e) && e != x,
        v@.no_duplicates() ==> r@.no_duplicates(),
{
    let mut r: Vec<usize> = Vec::new();
    let mut i: usize = 0;
    while i < v.len()
        invariant
            i <= v@.len(),
            r@ == v@.take(i as int).filter(differs_from(x)),
            forall|e: usize| r@.contains(e) <==> v@.take(i as int).contains(e) && e != x,
            v@.no_duplicates() ==> r@.no_duplicates(),
        decreases v@.len() - i,
    {
        proof {
            assert(v@.take(i + 1) =~= v@.take(i as int).push(v@[i as int]));
            v@.take(i as int).lemma_filter_push(v@[i as int], differs_from(x));
        }
        let ghost before = r@;
        let ghost t0 = v@.take(i as int);
        let ghost t1 = v@.take(i + 1);
        if v[i] != x {
            r.push(v[i]);
        }
        proof {
            assert forall|e: usize| r@.contains(e) <==> t1.contains(e) && e != x by {
                if t1.contains(e) && e != x {
                    let j = choose|j: int| 0 <= j < t1.len() && t1[j] == e;
                    if j < i {
                        assert(t0[j] == e);
                        assert(before.contains(e));
                        let k = choose|k: int| 0 <= k < before.len() && before[k] == e;
                        assert(r@[k] == e);
                    } else {
                        assert(r@[r@.len() - 1] == e);
                    }
                }
                if r@.contains(e) {
                    let k = choose|k: int| 0 <= k < r@.len() && r@[k] == e;
                    if k < before.len() {
                        assert(before[k] == e);
                        assert(before.contains(e));
                        let j = choose|j: int| 0 <= j < t0.len() && t0[j] == e;
                        assert(t1[j] == e);
                    } else {
                        assert(t1[i as int] == e);
                    }
                }
            }
            if v@.no_duplicates() && v@[i as int] != x {
                assert(!before.contains(v@[i as int])) by {
                    if before.contains(v@[i as int]) {
                        assert(t0.contains(v@[i as int]));
                        let j = choose|j: int| 0 <= j < t0.len() && t0[j] == v@[i as int];
                        assert(v@[j] == v@[i as int]);
                    }
                }
                assert(r@.no_duplicates()) by {
                    assert forall|a: int, b: int| 0 <= a < b < r@.len() implies r@[a] != r@[b] by {
                        if b == r@.len() - 1 {
                            assert(before.contains(r@[a]) || a >= before.len());
                        }
                    }
                }
            }
        }
        i += 1;
    }
    assert(v@.take(v@.len() as int) =~= v@);
    r
}

/// A forest in which each vertex knows its parent and its children.
#[derive(Clone, Debug)]
pub struct Tree {
    parent_children: HashMap<usize, (Option<usize>, Vec<usize>)>,
    nb_links: usize,
}

impl Tree {
    /// The vertices: those that have a parent or children, or had them.
    pub closed spec fn vertices(&self) -> Set<usize> {
        self.parent_children@.dom()
    }

    /// The parent of vertex `v`.
    pub closed spec fn parent_of(&self, v: usize) -> Option<usize> {
        self.parent_children@[v].0
    }

    /// The children of vertex `v`, in the order they were attached.
    pub closed spec fn children_of(&self, v: usize) -> Seq<usize> {
        self.parent_children@[v].1@
    }

    /// How many times a parent was set.
    pub closed spec fn links_made(&self) -> nat {
        self.nb_links as nat
    }

    /// The parent of each vertex that has one.
    pub open spec fn parent_map(&self) -> Map<usize, usize> {
        Map::new(
            |v: usize| self.vertices().contains(v) && self.parent_of(v) is Some,
            |v: usize| self.parent_of(v).unwrap(),
        )
    }

    /// Parents and children agree: `p` is the parent of `v` exactly when `v` is among the
    /// children of `p`, a parent is a vertex, and no child is listed twice.
    pub open spec fn consistent(&self) -> bool {
        &&& forall|v: usize, p: usize|
            #![trigger self.parent_of(v), self.children_of(p)]
            self.vertices().contains(v) && self.vertices().contains(p) ==> (self.parent_of(v)
                == Some(p) <==> self.children_of(p).contains(v))
        &&& forall|v: usize|
            #[trigger] self.vertices().contains(v) && self.parent_of(v) is Some
                ==> self.vertices().contains(self.parent_of(v).unwrap())
        &&& forall|v: usize| #[trigger] self.vertices().contains(v) ==> self.children_of(v).no_duplicates()
        &&& forall|v: usize, p: usize|
            #![trigger self.children_of(p).contains(v)]
            self.vertices().contains(p) && self.children_of(p).contains(v) ==> self.vertices().contains(v)
    }

    /// The entry of `v`, or that of a fresh vertex.
    pub open spec fn parent_or_none(&self, v: usize) -> Option<usize> {
        if self.vertices().contains(v) {
            self.parent_of(v)
        } else {
            None
        }
    }

    /// The children of `v`, or none for a fresh vertex.
    pub open spec fn children_or_none(&self, v: usize) -> Seq<usize> {
        if self.vertices().contains(v) {
            self.children_of(v)
        } else {
            Seq::empty()
        }
    }

    /// A forest with no vertex.
    pub fn new() -> (t: Self)
        ensures
            t.consistent(),
            t.vertices() == Set::<usize>::empty(),
            t.links_made() == 0,
    {
        Tree { parent_children: HashMap::new(), nb_links: 0 }
    }

    /// Takes the entry of `v` out of the map (a fresh one when there is none).
    fn take_entry(&mut self, v: usize) -> (e: (Option<usize>, Vec<usize>))
        ensures
            e.0 == old(self).parent_or_none(v),
            e.1@ == old(self).children_or_none(v),
            final(self).parent_children@ == old(self).parent_children@.remove(v),
            final(self).nb_links == old(self).nb_links,
    {
        match self.parent_children.remove(&v) {
            Some(e) => e,
            None => (None, Vec::new()),
        }
    }

    /// Makes `parent` the parent of `child`: `child` leaves the children of its former parent
    /// and is appended to those of `parent`; both become vertices.
    pub fn set_parent(&mut self, child: usize, parent: usize)
        requires
            old(self).consistent(),
            old(self).links_made() < usize::MAX,
        ensures
            final(self).consistent(),
            final(self).links_made() == old(self).links_made() + 1,
            final(self).vertices() == old(self).vertices().insert(child).insert(parent),
            final(self).vertices().finite(),
            final(self).parent_of(child) == Some(parent),
            forall|x: usize|
                #[trigger] final(self).vertices().contains(x) && x != child ==> final(self).parent_of(x)
                    == old(self).parent_or_none(x),
            forall|x: usize|
                #[trigger] final(self).vertices().contains(x) ==> final(self).children_of(x) == {
                    let c1 = if old(self).parent_or_none(child) == Some(x) {
                        old(self).children_or_none(x).filter(differs_from(child))
                    } else {
                        old(self).children_or_none(x)
                    };
                    if x == parent {
                        c1.push(child)
                    } else {
                        c1
                    }
                },
    {
        let ghost t0 = *self;
        let (old_parent, kids) = self.take_entry(child);
        self.parent_children.insert(child, (Some(parent), kids));
        let ghost t1 = *self;
        match old_parent {
            Some(p) => {
                assert(self.parent_children@.contains_key(p));
                let (pp, pkids) = self.take_entry(p);
                let pkids = without(&pkids, child);
                self.parent_children.insert(p, (pp, pkids));
            },
            None => {},
        }
        let ghost t2 = *self;
        let (qp, mut qkids) = self.take_entry(parent);
        qkids.push(child);
        self.parent_children.insert(parent, (qp, qkids));
        self.nb_links = self.nb_links + 1;
        proof {
            assert(self.vertices() =~= t0.vertices().insert(child).insert(parent));
            assert forall|x: usize| #[trigger] self.vertices().contains(x) && x != child implies self.parent_of(x)
                == t0.parent_or_none(x) by {}
            assert forall|x: usize| #[trigger] self.vertices().contains(x) implies self.children_of(x) == {
                let c1 = if t0.parent_or_none(child) == Some(x) {
                    t0.children_or_none(x).filter(differs_from(child))
                } else {
                    t0.children_or_none(x)
                };
                if x == parent {
                    c1.push(child)
                } else {
                    c1
                }
            } by {}
            self.lemma_set_parent_consistent(t0, child, parent);
        }
    }

    /// The parent of `id`, if it has one.
    pub fn get_parent(&self, id: usize) -> (r: Option<usize>)
        ensures
            r == self.parent_or_none(id),
    {
        match self.parent_children.get(&id) {
            Some(e) => e.0,
            None => None,
        }
    }

    /// The children of `id`, in the order they were attached; none for an unknown vertex.
    pub fn get_children(&self, id: usize) -> (r: &[usize])
        ensures
            r@ == self.children_or_none(id),
    {
        match self.parent_children.get(&id) {
            Some(e) => e.1.as_slice(),
            None => &[],
        }
    }

    /// The number of vertices.
    pub fn nb_links(&self) -> (r: usize)
        ensures
            self.vertices().finite(),
            r == self.vertices().len(),
    {
        self.parent_children.len()
    }

    /// The ancestors of `x`, from its root down to its parent. The chain of parents from `x`
    /// must end: on a cycle the walk would not return.
    pub fn path_to(&self, x: usize) -> (path: Vec<usize>)
        requires
            exists|n: nat| steps_to_root(self.parent_map(), x, n),
        ensures
            path@ == path_from_root(self.parent_map(), x),
    {
        let ghost m = self.parent_map();
        let ghost n = choose|n: nat| steps_to_root(m, x, n);
        let mut up: Vec<usize> = Vec::new();
        let mut cur = x;
        let ghost mut k: nat = n;
        loop
            invariant
                m == self.parent_map(),
                n == choose|n: nat| steps_to_root(m, x, n),
                steps_to_root(m, cur, k),
                up@ + ancestors(m, cur, k) == ancestors(m, x, n),
            decreases k,
        {
            match self.get_parent(cur) {
                Some(p) => {
                    proof {
                        assert(m.contains_key(cur));
                        assert(k > 0);
                        assert(ancestors(m, cur, k) == seq![p] + ancestors(m, p, (k - 1) as nat));
                        assert(up@.push(p) + ancestors(m, p, (k - 1) as nat) =~= up@ + ancestors(m, cur, k));
                        k = (k - 1) as nat;
                    }
                    up.push(p);
                    cur = p;
                },
                None => {
                    proof {
                        assert(!m.contains_key(cur));
                        assert(k == 0);
                        assert(up@ =~= up@ + ancestors(m, cur, k));
                    }
                    return reversed(&up);
                },
            }
        }
    }

    proof fn lemma_set_parent_consistent(&self, t0: Self, child: usize, parent: usize)
        requires
            t0.consistent(),
            self.vertices() == t0.vertices().insert(child).insert(parent),
            self.parent_of(child) == Some(parent),
            forall|x: usize|
                #[trigger] self.vertices().contains(x) && x != child ==> self.parent_of(x)
                    == t0.parent_or_none(x),
            forall|x: usize|
                #[trigger] self.vertices().contains(x) ==> self.children_of(x) == {
                    let c1 = if t0.parent_or_none(child) == Some(x) {
                        t0.children_or_none(x).filter(differs_from(child))
                    } else {
                        t0.children_or_none(x)
                    };
                    if x == parent {
                        c1.push(child)
                    } else {
                        c1
                    }
                },
        ensures
            self.consistent(),
    {
        assert forall|x: usize| #[trigger] t0.vertices().contains(x) implies !t0.children_of(x).filter(
            differs_from(child),
        ).contains(child) && (t0.children_of(x).no_duplicates() ==> t0.children_of(x).filter(
            differs_from(child),
        ).no_duplicates()) by {
            lemma_filter_without(t0.children_of(x), child);
        }
        assert forall|x: usize| #[trigger] self.vertices().contains(x) implies (forall|e: usize|
            #[trigger] self.children_of(x).contains(e) <==> (t0.children_or_none(x).contains(e) && !(
            e == child && t0.parent_or_none(child) == Some(x))) || (e == child && x == parent))
            && self.children_of(x).no_duplicates() by {
            let c0 = t0.children_or_none(x);
            lemma_filter_without(c0, child);
            let c1 = if t0.parent_or_none(child) == Some(x) {
                c0.filter(differs_from(child))
            } else {
                c0
            };
            if t0.vertices().contains(x) && t0.vertices().contains(child) {
                assert(t0.children_of(x).contains(child) ==> t0.parent_of(child) == Some(x));
            }
            if t0.vertices().contains(x) && t0.children_of(x).contains(child) {
                assert(t0.vertices().contains(child));
            }
            if t0.vertices().contains(x) {
                assert(t0.children_of(x).no_duplicates());
            }
            assert(c1.no_duplicates());
            assert(!c1.contains(child));
            assert forall|e: usize| c1.contains(e) <==> (c0.contains(e) && !(e == child
                && t0.parent_or_none(child) == Some(x))) by {}
            if x == parent {
                let c2 = c1.push(child);
                assert(self.children_of(x) == c2);
                assert forall|e: usize| #[trigger] c2.contains(e) <==> c1.contains(e) || e == child by {
                    if c1.contains(e) {
                        let i = choose|i: int| 0 <= i < c1.len() && c1[i] == e;
                        assert(c2[i] == e);
                    }
                    if c2.contains(e) && e != child {
                        let i = choose|i: int| 0 <= i < c2.len() && c2[i] == e;
                        assert(i < c1.len());
                        assert(c1[i] == e);
                    }
                    if e == child {
                        assert(c2[c1.len() as int] == e);
                    }
                }
                assert(c2.no_duplicates()) by {
                    assert forall|i: int, j: int| 0 <= i < j < c2.len() implies c2[i] != c2[j] by {
                        if j == c1.len() {
                            assert(c2[i] == c1[i]);
                        } else {
                            assert(c2[i] == c1[i] && c2[j] == c1[j]);
                        }
                    }
                }
            } else {
                assert(self.children_of(x) == c1);
            }
        }
        assert forall|v: usize, p: usize|
            #![trigger self.parent_of(v), self.children_of(p)]
            self.vertices().contains(v) && self.vertices().contains(p) implies (self.parent_of(v)
                == Some(p) <==> self.children_of(p).contains(v)) by {
            assert(self.children_of(p).contains(v) <==> (t0.children_or_none(p).contains(v) && !(
            v == child && t0.parent_or_none(child) == Some(p))) || (v == child && p == parent));
            if v != child && t0.vertices().contains(p) && t0.vertices().contains(v) {
                assert(t0.parent_of(v) == Some(p) <==> t0.children_of(p).contains(v));
            }
            if t0.vertices().contains(p) && t0.children_of(p).contains(v) {
                assert(t0.vertices().contains(v));
            }
            if v != child && t0.vertices().contains(v) && t0.parent_of(v) is Some {
                assert(t0.vertices().contains(t0.parent_of(v).unwrap()));
            }
            if v == child && t0.vertices().contains(p) && t0.vertices().contains(child) {
                assert(t0.parent_of(child) == Some(p) <==> t0.children_of(p).contains(child));
            }
        }
        assert forall|v: usize, p: usize|
            #![trigger self.children_of(p).contains(v)]
            self.vertices().contains(p) && self.children_of(p).contains(v) implies self.vertices().contains(v) by {
            if t0.vertices().contains(p) && t0.children_of(p).contains(v) {
                assert(t0.vertices().contains(v));
            }
        }
        assert forall|v: usize|
            #[trigger] self.vertices().contains(v) && self.parent_of(v) is Some implies
                self.vertices().contains(self.parent_of(v).unwrap()) by {
            if v != child {
                assert(t0.vertices().contains(v) && t0.parent_of(v) is Some);
            }
        }
    }
}

/// Removing every occurrence of `x` from `s` keeps the other items and no duplicate appears.
proof fn lemma_filter_without(s: Seq<usize>, x: usize)
    ensures
        forall|e: usize| #[trigger] s.filter(differs_from(x)).contains(e) <==> s.contains(e) && e != x,
        s.no_duplicates() ==> s.filter(differs_from(x)).no_duplicates(),
    decreases s.len(),
{
    reveal(Seq::filter);
    broadcast use vstd::seq_lib::group_seq_properties;
    let f = s.filter(differs_from(x));
    if s.len() > 0 {
        let rest = s.drop_last();
        lemma_filter_without(rest, x);
        assert(s =~= rest.push(s.last()));
        let fr = rest.filter(differs_from(x));
        assert forall|e: usize| #[trigger] f.contains(e) <==> s.contains(e) && e != x by {
            if s.contains(e) && e != x && e != s.last() {
                let i = choose|i: int| 0 <= i < s.len() && s[i] == e;
                assert(rest[i] == e);
            }
            if rest.contains(e) {
                let i = choose|i: int| 0 <= i < rest.len() && rest[i] == e;
                assert(s[i] == e);
            }
        }
        if s.no_duplicates() {
            assert(rest.no_duplicates());
            assert(!rest.contains(s.last())) by {
                if rest.contains(s.last()) {
                    let i = choose|i: int| 0 <= i < rest.len() && rest[i] == s.last();
                    assert(s[i] == s[s.len() - 1]);
                }
            }
            assert(!fr.contains(s.last()));
        }
    } else {
        assert(f =~= Seq::<usize>::empty());
    }
}

impl Graph for Tree {
    open spec fn graph_ok(&self) -> bool {
        true
    }

    open spec fn has_vertex(&self, vertex: usize) -> bool {
        true
    }

    open spec fn neighbors_ok(&self, vertex: usize, r: Seq<usize>) -> bool {
        r == match self.parent_or_none(vertex) {
            Some(p) => seq![p],
            None => Seq::<usize>::empty(),
        }
    }

    /// The parent of `vertex`, if it has one.
    fn neighbors(&self, vertex: usize) -> (r: Vec<usize>) {
        let mut r: Vec<usize> = Vec::new();
        match self.get_parent(vertex) {
            Some(p) => r.push(p),
            None => {},
        }
        assert(self.neighbors_ok(vertex, r@));
        r
    }
}

impl IterableGraph for Tree {
    open spec fn listed(&self, v: usize) -> bool {
        self.vertices().contains(v)
    }

    /// The vertices, in the order of the hash map.
    fn iter(&self) -> (r: Vec<usize>) {
        keys_of(&self.parent_children)
    }
}

} // verus!
