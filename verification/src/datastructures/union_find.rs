use vstd::prelude::*;

verus! {

/// The representative reached from `i` by following parent links. A link only counts when it
/// leads to a strictly higher node, which every link of a well-formed forest does.
pub open spec fn root_of(s: Seq<(usize, usize)>, i: int) -> int
    decreases usize::MAX - s[i].1,
{
    if 0 <= i < s.len() && s[i].0 != i && s[i].0 < s.len() && s[s[i].0 as int].1 > s[i].1 {
        root_of(s, s[i].0 as int)
    } else {
        i
    }
}

/// Every parent link stays in range, and a node that is not a root is lower than its parent.
pub open spec fn forest_ok(s: Seq<(usize, usize)>) -> bool {
    forall|i: int|
        0 <= i < s.len() ==> {
            &&& #[trigger] s[i].0 < s.len()
            &&& (s[i].0 == i || s[s[i].0 as int].1 > s[i].1)
        }
}

proof fn lemma_root_facts(s: Seq<(usize, usize)>, x: int)
    requires
        forest_ok(s),
        0 <= x < s.len(),
    ensures
        0 <= root_of(s, x) < s.len(),
        s[root_of(s, x)].0 == root_of(s, x),
        root_of(s, x) == x || s[root_of(s, x)].1 > s[x].1,
        root_of(s, root_of(s, x)) == root_of(s, x),
    decreases usize::MAX - s[x].1,
{
    let y = s[x].0 as int;
    if y != x {
        lemma_root_facts(s, y);
    }
}

/// In a well-formed forest every node's representative is a node.
proof fn lemma_classes_in_range(s: Seq<(usize, usize)>)
    requires
        forest_ok(s),
    ensures
        forall|x: int| 0 <= x < s.len() ==> 0 <= #[trigger] root_of(s, x) < s.len(),
{
    assert forall|x: int| 0 <= x < s.len() implies 0 <= #[trigger] root_of(s, x) < s.len() by {
        lemma_root_facts(s, x);
    }
}

/// Hanging the tree of root `child` under root `top`, whose height becomes `new_h`, sends every
/// node of that tree to `top` and leaves the other nodes where they were.
proof fn lemma_link(s: Seq<(usize, usize)>, child: int, top: int, new_h: usize)
    requires
        forest_ok(s),
        0 <= child < s.len(),
        0 <= top < s.len(),
        child != top,
        s[child].0 == child,
        s[top].0 == top,
        new_h >= s[top].1,
        new_h > s[child].1,
    ensures
        ({
            let s2 = s.update(child, (top as usize, s[child].1)).update(top, (top as usize, new_h));
            &&& forest_ok(s2)
            &&& forall|x: int|
                0 <= x < s.len() ==> #[trigger] root_of(s2, x) == if root_of(s, x) == child {
                    top
                } else {
                    root_of(s, x)
                }
        }),
{
    let s2 = s.update(child, (top as usize, s[child].1)).update(top, (top as usize, new_h));
    assert forall|i: int| 0 <= i < s2.len() implies {
        &&& #[trigger] s2[i].0 < s2.len()
        &&& (s2[i].0 == i || s2[s2[i].0 as int].1 > s2[i].1)
    } by {
        assert(s[i].0 < s.len());
    }
    assert forall|x: int| 0 <= x < s.len() implies #[trigger] root_of(s2, x) == if root_of(
        s,
        x,
    ) == child {
        top
    } else {
        root_of(s, x)
    } by {
        lemma_link_at(s, child, top, new_h, x);
    }
}

proof fn lemma_link_at(s: Seq<(usize, usize)>, child: int, top: int, new_h: usize, x: int)
    requires
        forest_ok(s),
        0 <= child < s.len(),
        0 <= top < s.len(),
        child != top,
        s[child].0 == child,
        s[top].0 == top,
        new_h >= s[top].1,
        new_h > s[child].1,
        0 <= x < s.len(),
    ensures
        ({
            let s2 = s.update(child, (top as usize, s[child].1)).update(top, (top as usize, new_h));
            root_of(s2, x) == if root_of(s, x) == child {
                top
            } else {
                root_of(s, x)
            }
        }),
    decreases usize::MAX - s[x].1,
{
    let s2 = s.update(child, (top as usize, s[child].1)).update(top, (top as usize, new_h));
    if x == child {
        assert(root_of(s2, top) == top);
    } else if x == top {
    } else {
        let y = s[x].0 as int;
        if y != x {
            lemma_link_at(s, child, top, new_h, y);
        }
    }
}

/// Raising the height of a root changes no representative.
proof fn lemma_raise(s: Seq<(usize, usize)>, r: int, new_h: usize)
    requires
        forest_ok(s),
        0 <= r < s.len(),
        s[r].0 == r,
        new_h >= s[r].1,
    ensures
        forest_ok(s.update(r, (r as usize, new_h))),
        forall|x: int|
            0 <= x < s.len() ==> #[trigger] root_of(s.update(r, (r as usize, new_h)), x)
                == root_of(s, x),
{
    let s2 = s.update(r, (r as usize, new_h));
    assert forall|i: int| 0 <= i < s2.len() implies {
        &&& #[trigger] s2[i].0 < s2.len()
        &&& (s2[i].0 == i || s2[s2[i].0 as int].1 > s2[i].1)
    } by {
        assert(s[i].0 < s.len());
    }
    assert forall|x: int| 0 <= x < s.len() implies #[trigger] root_of(s2, x) == root_of(s, x) by {
        lemma_raise_at(s, r, new_h, x);
    }
}

proof fn lemma_raise_at(s: Seq<(usize, usize)>, r: int, new_h: usize, x: int)
    requires
        forest_ok(s),
        0 <= r < s.len(),
        s[r].0 == r,
        new_h >= s[r].1,
        0 <= x < s.len(),
    ensures
        root_of(s.update(r, (r as usize, new_h)), x) == root_of(s, x),
    decreases usize::MAX - s[x].1,
{
    let y = s[x].0 as int;
    if x != r && y != x {
        lemma_raise_at(s, r, new_h, y);
    }
}

/// Pointing `i` straight at its representative changes no representative.
proof fn lemma_compress(s: Seq<(usize, usize)>, i: int)
    requires
        forest_ok(s),
        0 <= i < s.len(),
    ensures
        ({
            let s2 = s.update(i, (root_of(s, i) as usize, s[i].1));
            &&& forest_ok(s2)
            &&& forall|x: int| 0 <= x < s.len() ==> #[trigger] root_of(s2, x) == root_of(s, x)
        }),
{
    let r = root_of(s, i);
    lemma_root_facts(s, i);
    let s2 = s.update(i, (r as usize, s[i].1));
    assert forall|k: int| 0 <= k < s2.len() implies {
        &&& #[trigger] s2[k].0 < s2.len()
        &&& (s2[k].0 == k || s2[s2[k].0 as int].1 > s2[k].1)
    } by {
        assert(s[k].0 < s.len());
    }
    assert forall|x: int| 0 <= x < s.len() implies #[trigger] root_of(s2, x) == root_of(s, x) by {
        lemma_compress_at(s, i, x);
    }
}

proof fn lemma_compress_at(s: Seq<(usize, usize)>, i: int, x: int)
    requires
        forest_ok(s),
        0 <= i < s.len(),
        0 <= x < s.len(),
    ensures
        root_of(s.update(i, (root_of(s, i) as usize, s[i].1)), x) == root_of(s, x),
    decreases usize::MAX - s[x].1,
{
    let r = root_of(s, i);
    lemma_root_facts(s, i);
    let s2 = s.update(i, (r as usize, s[i].1));
    if x == i {
        if r != i {
            lemma_root_facts(s, r);
            assert(root_of(s2, r) == r);
        }
    } else {
        let y = s[x].0 as int;
        if y != x {
            lemma_compress_at(s, i, y);
        }
    }
}

fn find_in(ph: &mut Vec<(usize, usize)>, i: usize) -> (r: usize)
    requires
        forest_ok(old(ph)@),
        i < old(ph)@.len(),
    ensures
        forest_ok(final(ph)@),
        final(ph)@.len() == old(ph)@.len(),
        r == root_of(old(ph)@, i as int),
        forall|x: int| 0 <= x < old(ph)@.len() ==> #[trigger] root_of(final(ph)@, x) == root_of(old(ph)@, x),
        forall|x: int| 0 <= x < old(ph)@.len() ==> #[trigger] final(ph)@[x].1 == old(ph)@[x].1,
    decreases usize::MAX - old(ph)@[i as int].1,
{
    let j = ph[i].0;
    if i == j {
        return i;
    }
    let parent = find_in(ph, j);
    let ghost mid = ph@;
    let h = ph[i].1;
    proof {
        lemma_compress(mid, i as int);
        lemma_root_facts(mid, i as int);
    }
    ph.set(i, (parent, h));
    parent
}

/// A union-find structure over the elements `0..size`, with path compression and union by
/// height.
pub struct UnionFind {
    parent_height: Vec<(usize, usize)>,
}

impl UnionFind {
    #[verifier::type_invariant]
    spec fn well_formed(self) -> bool {
        forest_ok(self.parent_height@)
    }

    /// The number of elements.
    pub closed spec fn size(&self) -> nat {
        self.parent_height@.len()
    }

    /// The representative of the class of `i`.
    pub closed spec fn class_of(&self, i: int) -> int {
        root_of(self.parent_height@, i)
    }

    /// The height recorded for `i` (only that of a representative ever grows).
    pub closed spec fn height(&self, i: int) -> nat {
        self.parent_height@[i].1 as nat
    }

    /// `a` and `b` are in the same class.
    pub open spec fn same_class(&self, a: int, b: int) -> bool {
        self.class_of(a) == self.class_of(b)
    }

    /// `size` singleton classes.
    pub fn new(size: usize) -> (uf: Self)
        ensures
            uf.size() == size,
            forall|i: int| 0 <= i < size ==> #[trigger] uf.class_of(i) == i,
            forall|i: int| 0 <= i < size ==> #[trigger] uf.height(i) == 0,
    {
        let mut parent_height: Vec<(usize, usize)> = Vec::new();
        let mut i: usize = 0;
        while i < size
            invariant
                i <= size,
                parent_height@.len() == i,
                forall|k: int| 0 <= k < i ==> #[trigger] parent_height@[k] == (k as usize, 0usize),
            decreases size - i,
        {
            parent_height.push((i, 0));
            i = i + 1;
        }
        let uf = UnionFind { parent_height };
        proof {
            assert forall|k: int| 0 <= k < size implies #[trigger] uf.class_of(k) == k by {
                assert(uf.parent_height@[k].0 == k);
            }
        }
        uf
    }

    /// The representative of the class of `i`; the links on its way are shortened.
    pub fn find(&mut self, i: usize) -> (r: usize)
        requires
            i < old(self).size(),
        ensures
            r == old(self).class_of(i as int),
            r < old(self).size(),
            old(self).class_of(r as int) == r,
            final(self).size() == old(self).size(),
            forall|x: int| 0 <= x < final(self).size() ==> 0 <= #[trigger] final(self).class_of(x) < final(self).size(),
            forall|x: int| 0 <= x < old(self).size() ==> #[trigger] final(self).class_of(x) == old(self).class_of(x),
            forall|x: int| 0 <= x < old(self).size() ==> #[trigger] final(self).height(x) == old(self).height(x),
    {
        proof {
            use_type_invariant(&*self);
            lemma_root_facts(self.parent_height@, i as int);
        }
        let mut ph: Vec<(usize, usize)> = Vec::new();
        std::mem::swap(&mut ph, &mut self.parent_height);
        let r = find_in(&mut ph, i);
        self.parent_height = ph;
        proof {
            use_type_invariant(&*self);
            lemma_classes_in_range(self.parent_height@);
        }
        r
    }

    /// Merges the classes of `a` and `b`. The representative of the higher class becomes that
    /// of the merged class; on a tie, that of `b`, whose height then grows by one.
    pub fn union(&mut self, a: usize, b: usize)
        requires
            a < old(self).size(),
            b < old(self).size(),
            old(self).height(old(self).class_of(a as int)) < usize::MAX || old(self).height(
                old(self).class_of(a as int),
            ) > old(self).height(old(self).class_of(b as int)),
        ensures
            final(self).size() == old(self).size(),
            final(self).same_class(a as int, b as int),
            forall|x: int, y: int|
                0 <= x < old(self).size() && 0 <= y < old(self).size() ==> (#[trigger] final(self).same_class(x, y)
                    <==> (old(self).same_class(x, y) || (old(self).same_class(x, a as int) && old(self).same_class(
                    y,
                    b as int,
                )) || (old(self).same_class(x, b as int) && old(self).same_class(y, a as int)))),
            forall|x: int| 0 <= x < final(self).size() ==> 0 <= #[trigger] final(self).class_of(x) < final(self).size(),
            ({
                let p = old(self).class_of(a as int);
                let q = old(self).class_of(b as int);
                let top = if old(self).height(p) > old(self).height(q) { p } else { q };
                &&& forall|x: int|
                    0 <= x < old(self).size() ==> #[trigger] final(self).class_of(x) == if old(
                        self,
                    ).class_of(x) == p || old(self).class_of(x) == q {
                        top
                    } else {
                        old(self).class_of(x)
                    }
                &&& forall|x: int|
                    0 <= x < old(self).size() ==> #[trigger] final(self).height(x) == if x == q
                        && top == q {
                        if old(self).height(q) > old(self).height(p) + 1 {
                            old(self).height(q)
                        } else {
                            old(self).height(p) + 1
                        }
                    } else {
                        old(self).height(x)
                    }
            }),
    {
        proof {
            use_type_invariant(&*self);
        }
        let mut ph: Vec<(usize, usize)> = Vec::new();
        std::mem::swap(&mut ph, &mut self.parent_height);
        let ghost s0 = ph@;
        let p = find_in(&mut ph, a);
        let q = find_in(&mut ph, b);
        let ghost s = ph@;
        proof {
            lemma_root_facts(s0, a as int);
            lemma_root_facts(s0, b as int);
            lemma_root_facts(s, a as int);
            lemma_root_facts(s, b as int);
        }
        if ph[p].1 > ph[q].1 {
            let hq = ph[q].1;
            proof {
                let hp = s[p as int].1;
                lemma_link(s, q as int, p as int, hp);
                assert(s.update(q as int, (p, hq)) =~= s.update(q as int, (p, hq)).update(
                    p as int,
                    (p, hp),
                ));
            }
            ph.set(q, (p, hq));
        } else {
            let hp = ph[p].1;
            let hq = ph[q].1;
            let nh = if hq > hp + 1 { hq } else { hp + 1 };
            ph.set(p, (q, hp));
            ph.set(q, (q, nh));
            proof {
                if p == q {
                    assert(s.update(p as int, (q, hp)).update(q as int, (q, nh)) =~= s.update(
                        q as int,
                        (q, nh),
                    ));
                    lemma_raise(s, q as int, nh);
                } else {
                    lemma_link(s, p as int, q as int, nh);
                }
            }
        }
        self.parent_height = ph;
        proof {
            use_type_invariant(&*self);
            lemma_classes_in_range(self.parent_height@);
        }
    }

    /// Whether `a` and `b` are in the same class.
    pub fn are_in_same_class(&mut self, a: usize, b: usize) -> (r: bool)
        requires
            a < old(self).size(),
            b < old(self).size(),
        ensures
            r == old(self).same_class(a as int, b as int),
            final(self).size() == old(self).size(),
            forall|x: int| 0 <= x < old(self).size() ==> #[trigger] final(self).class_of(x) == old(self).class_of(x),
            forall|x: int| 0 <= x < old(self).size() ==> #[trigger] final(self).height(x) == old(self).height(x),
            forall|x: int| 0 <= x < final(self).size() ==> 0 <= #[trigger] final(self).class_of(x) < final(self).size(),
    {
        let r = self.find(a) == self.find(b);
        proof {
            use_type_invariant(&*self);
            lemma_classes_in_range(self.parent_height@);
        }
        r
    }

    /// Whether `a` and `b` are in the same class, as `are_in_same_class` tells.
    pub fn connexe(&mut self, a: usize, b: usize) -> (r: bool)
        requires
            a < old(self).size(),
            b < old(self).size(),
        ensures
            r == old(self).same_class(a as int, b as int),
            final(self).size() == old(self).size(),
            forall|x: int| 0 <= x < old(self).size() ==> #[trigger] final(self).class_of(x) == old(self).class_of(x),
            forall|x: int| 0 <= x < old(self).size() ==> #[trigger] final(self).height(x) == old(self).height(x),
            forall|x: int| 0 <= x < final(self).size() ==> 0 <= #[trigger] final(self).class_of(x) < final(self).size(),
    {
        self.are_in_same_class(a, b)
    }

    /// Joins the classes of `a` and `b`, as `union` does.
    pub fn merge(&mut self, a: usize, b: usize)
        requires
            a < old(self).size(),
            b < old(self).size(),
            old(self).height(old(self).class_of(a as int)) < usize::MAX || old(self).height(
                old(self).class_of(a as int),
            ) > old(self).height(old(self).class_of(b as int)),
        ensures
            final(self).size() == old(self).size(),
            final(self).same_class(a as int, b as int),
            forall|x: int, y: int|
                0 <= x < old(self).size() && 0 <= y < old(self).size() ==> (#[trigger] final(self).same_class(x, y)
                    <==> (old(self).same_class(x, y) || (old(self).same_class(x, a as int) && old(self).same_class(
                    y,
                    b as int,
                )) || (old(self).same_class(x, b as int) && old(self).same_class(y, a as int)))),
            forall|x: int| 0 <= x < final(self).size() ==> 0 <= #[trigger] final(self).class_of(x) < final(self).size(),
            ({
                let p = old(self).class_of(a as int);
                let q = old(self).class_of(b as int);
                let top = if old(self).height(p) > old(self).height(q) { p } else { q };
                &&& forall|x: int|
                    0 <= x < old(self).size() ==> #[trigger] final(self).class_of(x) == if old(
                        self,
                    ).class_of(x) == p || old(self).class_of(x) == q {
                        top
                    } else {
                        old(self).class_of(x)
                    }
                &&& forall|x: int|
                    0 <= x < old(self).size() ==> #[trigger] final(self).height(x) == if x == q
                        && top == q {
                        if old(self).height(q) > old(self).height(p) + 1 {
                            old(self).height(q)
                        } else {
                            old(self).height(p) + 1
                        }
                    } else {
                        old(self).height(x)
                    }
            }),
    {
        self.union(a, b)
    }
}

} // verus!
