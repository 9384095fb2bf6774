use vstd::prelude::*;
use vstd::arithmetic::div_mod::{lemma_fundamental_div_mod, lemma_fundamental_div_mod_converse};
use crate::datastructures::union_find::UnionFind;

verus! {

/// Cell `c` of a square grid `w` cells wide has a neighbour on side `d` (0 top, 1 right,
/// 2 bottom, 3 left).
pub open spec fn has_nbr(w: int, c: int, d: int) -> bool {
    if d == 0 {
        c / w >= 1
    } else if d == 1 {
        c % w + 1 < w
    } else if d == 2 {
        c / w + 1 < w
    } else {
        c % w >= 1
    }
}

/// The neighbour of cell `c` on side `d`.
pub open spec fn nbr(w: int, c: int, d: int) -> int {
    if d == 0 {
        c - w
    } else if d == 1 {
        c + 1
    } else if d == 2 {
        c + w
    } else {
        c - 1
    }
}

/// The side facing side `d`.
pub open spec fn opp(d: int) -> int {
    (d + 2) % 4
}

/// Side `d` of cell `c` is open, and so is the facing side of its neighbour.
pub open spec fn sym_ok(w: int, open: Seq<Seq<bool>>) -> bool {
    forall|c: int, d: int|
        0 <= c < w * w && 0 <= d < 4 && #[trigger] open[c][d] ==> {
            &&& has_nbr(w, c, d)
            &&& open[nbr(w, c, d)][opp(d)]
        }
}

/// A draw `(c, d)` is taken when cell `c` has a neighbour on side `d`, that side is not open yet,
/// and the two cells are in different groups.
pub open spec fn draw_taken(w: int, open: Seq<Seq<bool>>, groups: Seq<int>, c: int, d: int) -> bool {
    &&& has_nbr(w, c, d)
    &&& !open[c][d]
    &&& groups[c] != groups[nbr(w, c, d)]
}

/// The open sides and the group of each cell after the first `k` draws: every cell alone and
/// every side closed at first; a taken draw opens the side from both cells and joins the group
/// of the neighbour to that of the cell.
pub open spec fn merge_state(w: int, draws: Seq<(usize, usize)>, k: int) -> (Seq<Seq<bool>>, Seq<int>)
    decreases k,
{
    if k <= 0 {
        (
            Seq::new((w * w) as nat, |c: int| seq![false, false, false, false]),
            Seq::new((w * w) as nat, |c: int| c),
        )
    } else {
        let (open, groups) = merge_state(w, draws, k - 1);
        let c = draws[k - 1].0 as int;
        let d = draws[k - 1].1 as int;
        if draw_taken(w, open, groups, c, d) {
            let m = nbr(w, c, d);
            (
                open.update(c, open[c].update(d, true)).update(m, open[m].update(opp(d), true)),
                Seq::new(groups.len(), |x: int| if groups[x] == groups[m] { groups[c] } else { groups[x] }),
            )
        } else {
            (open, groups)
        }
    }
}

/// The neighbours of cell `c` in a grid `w` cells wide, cells numbered row by row: the cell above
/// (side 0) is `c - w` when `c` is not in the top row, the one on the right (side 1) is `c + 1`
/// when `c` is not at the end of its row, the one below (side 2) is `c + w` when `c` is not in the
/// bottom row, the one on the left (side 3) is `c - 1` when `c` is not at the start of its row;
/// facing sides are top and bottom, left and right.
pub proof fn lemma_neighbours(w: int, c: int)
    requires
        w > 0,
        0 <= c < w * w,
    ensures
        has_nbr(w, c, 0) <==> c >= w,
        has_nbr(w, c, 1) <==> c % w != w - 1,
        has_nbr(w, c, 2) <==> c + w < w * w,
        has_nbr(w, c, 3) <==> c % w != 0,
        nbr(w, c, 0) == c - w,
        nbr(w, c, 1) == c + 1,
        nbr(w, c, 2) == c + w,
        nbr(w, c, 3) == c - 1,
        opp(0) == 2 && opp(1) == 3 && opp(2) == 0 && opp(3) == 1,
{
    lemma_fundamental_div_mod(c, w);
    let q = c / w;
    let r = c % w;
    assert(0 <= r < w);
    assert(c >= w <==> q >= 1) by (nonlinear_arith)
        requires
            c == w * q + r,
            0 <= r < w,
            c >= 0,
    ;
    assert(c + w < w * w <==> q + 1 < w) by (nonlinear_arith)
        requires
            c == w * q + r,
            0 <= r < w,
            c >= 0,
    ;
}

/// The cells, their sides and their groups stay as many as at first.
proof fn lemma_merge_shape(w: int, draws: Seq<(usize, usize)>, k: int)
    requires
        w > 0,
        forall|j: int| 0 <= j < draws.len() ==> #[trigger] draws[j].0 < w * w && draws[j].1 < 4,
        0 <= k <= draws.len(),
    ensures
        merge_state(w, draws, k).0.len() == w * w,
        merge_state(w, draws, k).1.len() == w * w,
        forall|x: int| 0 <= x < w * w ==> #[trigger] merge_state(w, draws, k).0[x].len() == 4,
    decreases k,
{
    if k > 0 {
        lemma_merge_shape(w, draws, k - 1);
        let (o, g) = merge_state(w, draws, k - 1);
        let c = draws[k - 1].0 as int;
        let d = draws[k - 1].1 as int;
        if draw_taken(w, o, g, c, d) {
            lemma_nbr(w, c, d);
        }
    }
}

/// Before any draw, every side is closed and each cell is a group of its own.
pub proof fn lemma_merge_start(w: int, draws: Seq<(usize, usize)>)
    requires
        w >= 0,
    ensures
        merge_state(w, draws, 0).0.len() == w * w,
        forall|x: int, y: int| 0 <= x < w * w && 0 <= y < 4 ==> !#[trigger] merge_state(w, draws, 0).0[x][y],
        forall|x: int, y: int|
            0 <= x < w * w && 0 <= y < w * w ==> (#[trigger] merge_state(w, draws, 0).1[x] == #[trigger] merge_state(
                w,
                draws,
                0,
            ).1[y] <==> x == y),
{
}

/// Draw `k`, `(c, d)`: when `c` has a neighbour `m` on side `d`, side `d` of `c` is still closed
/// and `c` and `m` are in different groups, it opens side `d` of `c` and the facing side of `m`,
/// leaves every other side as it was, and joins the groups of `c` and `m` into one, the others
/// staying apart; otherwise it changes nothing.
pub proof fn lemma_merge_draw(w: int, draws: Seq<(usize, usize)>, k: int)
    requires
        w > 0,
        forall|j: int| 0 <= j < draws.len() ==> #[trigger] draws[j].0 < w * w && draws[j].1 < 4,
        0 <= k < draws.len(),
    ensures
        ({
            let o = merge_state(w, draws, k).0;
            let g = merge_state(w, draws, k).1;
            let o2 = merge_state(w, draws, k + 1).0;
            let g2 = merge_state(w, draws, k + 1).1;
            let c = draws[k].0 as int;
            let d = draws[k].1 as int;
            let m = nbr(w, c, d);
            if has_nbr(w, c, d) && !o[c][d] && g[c] != g[m] {
                &&& 0 <= m < w * w
                &&& o2[c][d]
                &&& o2[m][opp(d)]
                &&& forall|x: int, y: int|
                    0 <= x < w * w && 0 <= y < 4 && !(x == c && y == d) && !(x == m && y == opp(d))
                        ==> #[trigger] o2[x][y] == o[x][y]
                &&& forall|x: int, y: int|
                    0 <= x < w * w && 0 <= y < w * w ==> (#[trigger] g2[x] == #[trigger] g2[y] <==> (g[x] == g[y] || (
                    g[x] == g[c] && g[y] == g[m]) || (g[x] == g[m] && g[y] == g[c])))
            } else {
                o2 == o && g2 == g
            }
        }),
{
    lemma_merge_shape(w, draws, k);
    let c = draws[k].0 as int;
    let d = draws[k].1 as int;
    assert(0 <= d < 4);
    if has_nbr(w, c, d) {
        lemma_nbr(w, c, d);
    }
}

/// In a grid `w` cells wide, a neighbour lies in the grid, and its neighbour on the facing side
/// is the cell.
proof fn lemma_nbr(w: int, c: int, d: int)
    requires
        w > 0,
        0 <= c < w * w,
        0 <= d < 4,
        has_nbr(w, c, d),
    ensures
        0 <= nbr(w, c, d) < w * w,
        has_nbr(w, nbr(w, c, d), opp(d)),
        nbr(w, nbr(w, c, d), opp(d)) == c,
{
    lemma_fundamental_div_mod(c, w);
    let q = c / w;
    let r = c % w;
    assert(0 <= r < w);
    assert(q < w) by (nonlinear_arith)
        requires
            c == w * q + r,
            c < w * w,
            0 <= r,
            w > 0,
    ;
    assert(q >= 0) by (nonlinear_arith)
        requires
            c == w * q + r,
            c >= 0,
            r < w,
            w > 0,
    ;
    let m = nbr(w, c, d);
    if d == 0 {
        assert(m == (q - 1) * w + r) by (nonlinear_arith)
            requires
                c == w * q + r,
                m == c - w,
        ;
        lemma_fundamental_div_mod_converse(m, w, q - 1, r);
        assert(m >= 0) by (nonlinear_arith)
            requires
                m == (q - 1) * w + r,
                q >= 1,
                r >= 0,
                w > 0,
        ;
    } else if d == 1 {
        assert(m == q * w + (r + 1)) by (nonlinear_arith)
            requires
                c == w * q + r,
                m == c + 1,
        ;
        lemma_fundamental_div_mod_converse(m, w, q, r + 1);
        assert(q * w <= (w - 1) * w) by (nonlinear_arith)
            requires
                q <= w - 1,
                w > 0,
        ;
        assert((w - 1) * w == w * w - w) by (nonlinear_arith);
    } else if d == 2 {
        assert(m == (q + 1) * w + r) by (nonlinear_arith)
            requires
                c == w * q + r,
                m == c + w,
        ;
        lemma_fundamental_div_mod_converse(m, w, q + 1, r);
        assert((q + 1) * w <= (w - 1) * w) by (nonlinear_arith)
            requires
                q + 1 <= w - 1,
                w > 0,
        ;
        assert((w - 1) * w == w * w - w) by (nonlinear_arith);
    } else {
        assert(m == q * w + (r - 1)) by (nonlinear_arith)
            requires
                c == w * q + r,
                m == c - 1,
        ;
        lemma_fundamental_div_mod_converse(m, w, q, r - 1);
        assert(m >= 0) by (nonlinear_arith)
            requires
                m == q * w + (r - 1),
                r >= 1,
                q >= 0,
                w > 0,
        ;
    }
}

/// Number of open sides of one cell.
pub open spec fn side_count(s: Seq<bool>) -> int {
    (if s[0] { 1int } else { 0 }) + (if s[1] { 1int } else { 0 }) + (if s[2] { 1int } else { 0 }) + (if s[3] {
        1int
    } else {
        0
    })
}

/// Number of open sides of the first `k` cells.
pub open spec fn open_count(open: Seq<Seq<bool>>, k: int) -> int
    decreases k,
{
    if k <= 0 {
        0
    } else {
        open_count(open, k - 1) + side_count(open[k - 1])
    }
}

/// Number of distinct groups.
pub open spec fn group_count(groups: Seq<int>) -> int {
    groups.to_set().len() as int
}

proof fn lemma_open_count_update(open: Seq<Seq<bool>>, c: int, d: int, k: int)
    requires
        0 <= c < open.len(),
        0 <= d < 4,
        open[c].len() == 4,
        !open[c][d],
        0 <= k <= open.len(),
    ensures
        open_count(open.update(c, open[c].update(d, true)), k) == open_count(open, k) + (if c < k { 1int } else { 0 }),
    decreases k,
{
    if k > 0 {
        lemma_open_count_update(open, c, d, k - 1);
    }
}

proof fn lemma_open_count_closed(open: Seq<Seq<bool>>, k: int)
    requires
        0 <= k <= open.len(),
        forall|c: int| 0 <= c < k ==> #[trigger] open[c] == seq![false, false, false, false],
    ensures
        open_count(open, k) == 0,
    decreases k,
{
    if k > 0 {
        lemma_open_count_closed(open, k - 1);
        assert(open[k - 1] == seq![false, false, false, false]);
    }
}

proof fn lemma_group_count_join(g: Seq<int>, c: int, m: int)
    requires
        0 <= c < g.len(),
        0 <= m < g.len(),
        g[c] != g[m],
    ensures
        group_count(Seq::new(g.len(), |z: int| if g[z] == g[m] { g[c] } else { g[z] })) == group_count(g) - 1,
{
    let g2 = Seq::new(g.len(), |z: int| if g[z] == g[m] { g[c] } else { g[z] });
    assert forall|v: int| #[trigger] g2.to_set().contains(v) <==> g.to_set().remove(g[m]).contains(v) by {
        if g2.to_set().contains(v) {
            let z = choose|z: int| 0 <= z < g2.len() && g2[z] == v;
            if g[z] == g[m] {
                assert(g[c] == v);
                assert(g.contains(v));
            } else {
                assert(g[z] == v);
                assert(g.contains(v));
            }
        }
        if g.to_set().remove(g[m]).contains(v) {
            assert(g.contains(v));
            let z = choose|z: int| 0 <= z < g.len() && g[z] == v;
            assert(g2[z] == v);
            assert(g2.contains(v));
        }
    }
    assert(g2.to_set() =~= g.to_set().remove(g[m]));
    vstd::seq_lib::seq_to_set_is_finite(g);
    assert(g.contains(g[m]));
}

proof fn lemma_group_count_alone(n: int)
    requires
        n >= 0,
    ensures
        group_count(Seq::new(n as nat, |c: int| c)) == n,
{
    let g = Seq::new(n as nat, |c: int| c);
    assert forall|v: int| #[trigger] g.to_set().contains(v) <==> vstd::set_lib::set_int_range(0, n).contains(v) by {
        if 0 <= v < n {
            assert(g[v] == v);
            assert(g.contains(v));
        }
    }
    assert(g.to_set() =~= vstd::set_lib::set_int_range(0, n));
    vstd::set_lib::lemma_int_range(0, n);
}

/// A taken draw opens two more sides and leaves one group fewer.
proof fn lemma_merge_step_count(w: int, o: Seq<Seq<bool>>, g: Seq<int>, c: int, d: int)
    requires
        w > 0,
        o.len() == w * w,
        g.len() == w * w,
        forall|x: int| 0 <= x < w * w ==> #[trigger] o[x].len() == 4,
        sym_ok(w, o),
        0 <= c < w * w,
        0 <= d < 4,
        draw_taken(w, o, g, c, d),
    ensures
        ({
            let m = nbr(w, c, d);
            let o2 = o.update(c, o[c].update(d, true)).update(m, o[m].update(opp(d), true));
            let g2 = Seq::new(g.len(), |x: int| if g[x] == g[m] { g[c] } else { g[x] });
            &&& open_count(o2, w * w) == open_count(o, w * w) + 2
            &&& group_count(g2) == group_count(g) - 1
        }),
{
    let m = nbr(w, c, d);
    lemma_nbr(w, c, d);
    let o1 = o.update(c, o[c].update(d, true));
    lemma_open_count_update(o, c, d, w * w);
    assert(m != c);
    assert(o1[m] == o[m]);
    assert(opp(opp(d)) == d);
    if o[m][opp(d)] {
        assert(o[nbr(w, m, opp(d))][opp(opp(d))]);
    }
    lemma_open_count_update(o1, m, opp(d), w * w);
    lemma_group_count_join(g, c, m);
}

/// Opens sides between cells of a square grid `width` cells wide, one draw `(cell, side)` after
/// another, as `merge_state` says: a draw is taken only between cells of different groups, so
/// the open sides never close a loop: each pair of facing open sides leaves one group fewer, and
/// the open sides number twice the cells less the groups.
#[verifier::rlimit(60)]
pub fn merge_square_cells(width: usize, draws: &Vec<(usize, usize)>) -> (open: Vec<[bool; 4]>)
    requires
        width * width <= usize::MAX,
        forall|k: int| 0 <= k < draws@.len() ==> #[trigger] draws@[k].0 < width * width && draws@[k].1 < 4,
    ensures
        open@.len() == width * width,
        forall|c: int, d: int|
            0 <= c < width * width && 0 <= d < 4 ==> #[trigger] open@[c][d] == merge_state(
                width as int,
                draws@,
                draws@.len() as int,
            ).0[c][d],
        sym_ok(width as int, merge_state(width as int, draws@, draws@.len() as int).0),
        open_count(merge_state(width as int, draws@, draws@.len() as int).0, width * width) == 2 * (width * width
            - group_count(merge_state(width as int, draws@, draws@.len() as int).1)),
{
    let n = width * width;
    let ghost w = width as int;
    let mut open: Vec<[bool; 4]> = Vec::new();
    let mut i: usize = 0;
    while i < n
        invariant
            n == width * width,
            i <= n,
            open@.len() == i,
            forall|c: int, d: int| 0 <= c < i && 0 <= d < 4 ==> !#[trigger] open@[c][d],
        decreases n - i,
    {
        open.push([false; 4]);
        i += 1;
    }
    let mut groups = UnionFind::new(n);
    proof {
        let st0 = merge_state(w, draws@, 0);
        lemma_open_count_closed(st0.0, n as int);
        lemma_group_count_alone(n as int);
    }
    let mut k: usize = 0;
    while k < draws.len()
        invariant
            n == width * width,
            w == width,
            forall|j: int| 0 <= j < draws@.len() ==> #[trigger] draws@[j].0 < width * width && draws@[j].1 < 4,
            k <= draws@.len(),
            open@.len() == n,
            groups.size() == n,
            merge_state(w, draws@, k as int).0.len() == n,
            merge_state(w, draws@, k as int).1.len() == n,
            forall|c: int| 0 <= c < n ==> #[trigger] merge_state(w, draws@, k as int).0[c].len() == 4,
            forall|c: int, d: int|
                0 <= c < n && 0 <= d < 4 ==> #[trigger] open@[c][d] == merge_state(w, draws@, k as int).0[c][d],
            forall|a: int, b: int|
                0 <= a < n && 0 <= b < n ==> (#[trigger] groups.same_class(a, b) <==> merge_state(
                    w,
                    draws@,
                    k as int,
                ).1[a] == merge_state(w, draws@, k as int).1[b]),
            forall|a: int| 0 <= a < n ==> #[trigger] groups.height(groups.class_of(a)) <= k,
            forall|a: int| 0 <= a < n ==> 0 <= #[trigger] groups.class_of(a) < n,
            sym_ok(w, merge_state(w, draws@, k as int).0),
            open_count(merge_state(w, draws@, k as int).0, n as int) == 2 * (n - group_count(
                merge_state(w, draws@, k as int).1,
            )),
        decreases draws@.len() - k,
    {
        let ghost st = merge_state(w, draws@, k as int);
        let ghost gs = groups;
        let (c, d) = draws[k];
        proof {
            if has_nbr(w, c as int, d as int) {
                lemma_nbr(w, c as int, d as int);
            }
        }
        let x = c % width;
        let y = c / width;
        let m: Option<usize> = if d == 0 {
            if y >= 1 {
                Some(c - width)
            } else {
                None
            }
        } else if d == 1 {
            if x + 1 < width {
                Some(c + 1)
            } else {
                None
            }
        } else if d == 2 {
            if y + 1 < width {
                Some(c + width)
            } else {
                None
            }
        } else {
            if x >= 1 {
                Some(c - 1)
            } else {
                None
            }
        };
        proof {
            assert(merge_state(w, draws@, k + 1) == ({
                let (o, g) = st;
                if draw_taken(w, o, g, c as int, d as int) {
                    let mm = nbr(w, c as int, d as int);
                    (
                        o.update(c as int, o[c as int].update(d as int, true)).update(mm, o[mm].update(opp(d as int), true)),
                        Seq::new(g.len(), |z: int| if g[z] == g[mm] { g[c as int] } else { g[z] }),
                    )
                } else {
                    (o, g)
                }
            }));
        }
        match m {
            None => {
                proof {
                    assert(!has_nbr(w, c as int, d as int));
                }
            },
            Some(m) => {
                proof {
                    lemma_nbr(w, c as int, d as int);
                    assert(m == nbr(w, c as int, d as int));
                }
                let side_open = open[c][d];
                if !side_open {
                    let same = groups.connexe(c, m);
                    proof {
                        assert forall|a: int| 0 <= a < n implies #[trigger] groups.class_of(a) == gs.class_of(a)
                            && groups.height(groups.class_of(a)) == gs.height(gs.class_of(a)) by {
                            assert(0 <= gs.class_of(a) < n);
                        }
                        assert forall|a: int, b: int|
                            0 <= a < n && 0 <= b < n implies (#[trigger] groups.same_class(a, b) <==> st.1[a] == st.1[b]) by {
                            assert(gs.same_class(a, b) <==> st.1[a] == st.1[b]);
                        }
                    }
                    if !same {
                        let ghost g0 = groups;
                        groups.merge(c, m);
                        let od = (d + 2) % 4;
                        let mut cell = open[c];
                        cell[d] = true;
                        open.set(c, cell);
                        let mut other = open[m];
                        other[od] = true;
                        open.set(m, other);
                        proof {
                            let o = st.0;
                            let g = st.1;
                            let o2 = merge_state(w, draws@, k + 1).0;
                            let g2 = merge_state(w, draws@, k + 1).1;
                            assert(draw_taken(w, o, g, c as int, d as int));
                            assert(w > 0) by (nonlinear_arith)
                                requires
                                    c < w * w,
                                    w >= 0,
                            ;
                            lemma_merge_step_count(w, o, g, c as int, d as int);
                            assert forall|a: int, b: int|
                                0 <= a < n && 0 <= b < n implies (#[trigger] groups.same_class(a, b) <==> g2[a] == g2[b]) by {
                                assert(g0.class_of(a) == gs.class_of(a) && g0.class_of(b) == gs.class_of(b));
                                assert(g0.class_of(c as int) == gs.class_of(c as int));
                                assert(g0.class_of(m as int) == gs.class_of(m as int));
                                assert(gs.same_class(a, b) <==> g[a] == g[b]);
                                assert(gs.same_class(a, c as int) <==> g[a] == g[c as int]);
                                assert(gs.same_class(a, m as int) <==> g[a] == g[m as int]);
                                assert(gs.same_class(b, c as int) <==> g[b] == g[c as int]);
                                assert(gs.same_class(b, m as int) <==> g[b] == g[m as int]);
                                assert(g0.same_class(a, b) <==> g[a] == g[b]);
                                assert(g0.same_class(a, c as int) <==> g[a] == g[c as int]);
                                assert(g0.same_class(a, m as int) <==> g[a] == g[m as int]);
                                assert(g0.same_class(b, c as int) <==> g[b] == g[c as int]);
                                assert(g0.same_class(b, m as int) <==> g[b] == g[m as int]);
                            }
                            assert forall|a: int| 0 <= a < n implies #[trigger] groups.height(groups.class_of(a)) <= k + 1 by {
                                assert(g0.height(g0.class_of(a)) <= k);
                                assert(g0.height(g0.class_of(c as int)) <= k);
                                assert(g0.height(g0.class_of(m as int)) <= k);
                            }
                            assert forall|cc: int, dd: int|
                                0 <= cc < n && 0 <= dd < 4 implies #[trigger] open@[cc][dd] == o2[cc][dd] by {}
                            assert forall|cc: int, dd: int|
                                0 <= cc < w * w && 0 <= dd < 4 && #[trigger] o2[cc][dd] implies {
                                &&& has_nbr(w, cc, dd)
                                &&& o2[nbr(w, cc, dd)][opp(dd)]
                            } by {
                                let mm = m as int;
                                let ci = c as int;
                                let di = d as int;
                                assert(o[ci].len() == 4 && o[mm].len() == 4);
                                assert(opp(opp(di)) == di);
                                if o[cc][dd] {
                                    assert(has_nbr(w, cc, dd) && o[nbr(w, cc, dd)][opp(dd)]);
                                    lemma_nbr(w, cc, dd);
                                    assert(o[nbr(w, cc, dd)].len() == 4);
                                } else if cc == ci && dd == di {
                                } else {
                                    assert(cc == mm && dd == opp(di));
                                }
                            }
                        }
                    }
                }
            },
        }
        k += 1;
    }
    open
}

/// A number below `n`, drawn at random.
///
/// Calls `rand::random_range` on `0..n`, which draws from the thread-local generator and panics
/// on an empty range, which `requires` excludes. Which number comes is left free.
#[verifier::external_body]
fn random_below(n: usize) -> (r: usize)
    requires
        0 < n,
    ensures
        r < n,
{
    rand::random_range(0..n)
}

/// `count` merge draws for a grid `width` cells wide, each a random cell and then a random side.
pub fn random_merge_draws(width: usize, count: usize) -> (draws: Vec<(usize, usize)>)
    requires
        width * width <= usize::MAX,
        count > 0 ==> width > 0,
    ensures
        draws@.len() == count,
        forall|k: int| 0 <= k < draws@.len() ==> #[trigger] draws@[k].0 < width * width && draws@[k].1 < 4,
{
    let n = width * width;
    let mut draws: Vec<(usize, usize)> = Vec::new();
    let mut k: usize = 0;
    while k < count
        invariant
            n == width * width,
            count > 0 ==> width > 0,
            k <= count,
            draws@.len() == k,
            forall|j: int| 0 <= j < draws@.len() ==> #[trigger] draws@[j].0 < n && draws@[j].1 < 4,
        decreases count - k,
    {
        assert(n > 0) by (nonlinear_arith)
            requires
                n == width * width,
                width > 0,
        ;
        let cell = random_below(n);
        let side = random_below(4);
        draws.push((cell, side));
        k += 1;
    }
    draws
}

/// `open` holds, side by side, the open sides that merging the draws `draws` gives.
pub open spec fn merged_from(width: int, draws: Seq<(usize, usize)>, open: Seq<[bool; 4]>) -> bool {
    &&& forall|k: int| 0 <= k < draws.len() ==> #[trigger] draws[k].0 < width * width && draws[k].1 < 4
    &&& open.len() == width * width
    &&& forall|c: int, d: int|
        0 <= c < width * width && 0 <= d < 4 ==> #[trigger] open[c][d] == merge_state(
            width,
            draws,
            draws.len() as int,
        ).0[c][d]
}

/// The open sides of a random square map `width` cells wide: `nmerges` random draws, merged as
/// `merge_square_cells` does.
pub fn random_square_merges(width: usize, nmerges: usize) -> (open: Vec<[bool; 4]>)
    requires
        width * width <= usize::MAX,
        nmerges > 0 ==> width > 0,
    ensures
        exists|draws: Seq<(usize, usize)>| draws.len() == nmerges && #[trigger] merged_from(width as int, draws, open@),
{
    let draws = random_merge_draws(width, nmerges);
    let open = merge_square_cells(width, &draws);
    assert(merged_from(width as int, draws@, open@));
    open
}

/// The open sides of each cell, as sequences.
pub open spec fn open_sides(open: Seq<[bool; 4]>) -> Seq<Seq<bool>> {
    open.map_values(|a: [bool; 4]| a@)
}

/// `s` is a corner of a cell of a grid `w` cells wide: a cell and one of its four corners
/// (0 top left, 1 top right, 2 bottom right, 3 bottom left).
pub open spec fn is_corner(w: int, s: (usize, usize)) -> bool {
    s.0 < w * w && s.1 < 4
}

/// The order in which corners are tried as starts: cell by cell, then corner by corner.
pub open spec fn corner_key(s: (usize, usize)) -> int {
    s.0 * 4 + s.1
}

/// One step of an outline from corner `d` of cell `c`: through an open side `d`, to the
/// neighbour, turning left; along a closed side, to the next corner of the same cell, turning
/// right.
pub open spec fn walk_step(w: int, o: Seq<Seq<bool>>, s: (usize, usize)) -> (usize, usize) {
    if o[s.0 as int][s.1 as int] {
        (nbr(w, s.0 as int, s.1 as int) as usize, ((s.1 + 3) % 4) as usize)
    } else {
        (s.0, ((s.1 + 1) % 4) as usize)
    }
}

/// The step that leads to `s`.
pub open spec fn walk_back(w: int, o: Seq<Seq<bool>>, s: (usize, usize)) -> (usize, usize) {
    let d = (s.1 + 3) % 4;
    if o[s.0 as int][d] {
        (nbr(w, s.0 as int, d) as usize, ((s.1 + 1) % 4) as usize)
    } else {
        (s.0, d as usize)
    }
}

/// A step from corner `d` of cell `c` and the way back to it undo each other, given what the
/// open sides `d` and `d - 1` of `c` lead to.
proof fn lemma_walk_inverse_at(w: int, o: Seq<Seq<bool>>, c: int, d: int)
    requires
        w > 0,
        w * w <= usize::MAX,
        0 <= c < w * w,
        0 <= d < 4,
        o.len() == w * w,
        forall|x: int| 0 <= x < w * w ==> #[trigger] o[x].len() == 4,
        o[c][d] ==> has_nbr(w, c, d) && o[nbr(w, c, d)][opp(d)],
        o[c][(d + 3) % 4] ==> has_nbr(w, c, (d + 3) % 4) && o[nbr(w, c, (d + 3) % 4)][opp((d + 3) % 4)],
    ensures
        is_corner(w, walk_step(w, o, (c as usize, d as usize))),
        is_corner(w, walk_back(w, o, (c as usize, d as usize))),
        walk_back(w, o, walk_step(w, o, (c as usize, d as usize))) == (c as usize, d as usize),
        walk_step(w, o, walk_back(w, o, (c as usize, d as usize))) == (c as usize, d as usize),
{
    let s = (c as usize, d as usize);
    let t = walk_step(w, o, s);
    if o[c][d] {
        lemma_nbr(w, c, d);
        let m = nbr(w, c, d);
        assert(t.0 as int == m && t.1 as int == (d + 3) % 4);
        assert((t.1 + 3) % 4 == opp(d));
        assert((t.1 + 1) % 4 == d);
        assert(walk_back(w, o, t) == (nbr(w, m, opp(d)) as usize, ((t.1 + 1) % 4) as usize));
    } else {
        assert(t.0 as int == c && t.1 as int == (d + 1) % 4);
        assert((t.1 + 3) % 4 == d);
    }
    let e = (d + 3) % 4;
    let b = walk_back(w, o, s);
    if o[c][e] {
        lemma_nbr(w, c, e);
        let m = nbr(w, c, e);
        assert(b.0 as int == m && b.1 as int == (d + 1) % 4);
        assert(opp(e) == (d + 1) % 4);
        assert((b.1 + 3) % 4 == d);
        assert(walk_step(w, o, b) == (nbr(w, m, opp(e)) as usize, ((b.1 + 3) % 4) as usize));
    } else {
        assert(b.0 as int == c && b.1 as int == e);
        assert((e + 1) % 4 == d);
    }
}

/// With the open sides open from both cells, a step and its way back undo each other.
proof fn lemma_walk_inverse(w: int, o: Seq<Seq<bool>>, s: (usize, usize))
    requires
        w > 0,
        w * w <= usize::MAX,
        o.len() == w * w,
        forall|c: int| 0 <= c < w * w ==> #[trigger] o[c].len() == 4,
        sym_ok(w, o),
        is_corner(w, s),
    ensures
        is_corner(w, walk_step(w, o, s)),
        is_corner(w, walk_back(w, o, s)),
        walk_back(w, o, walk_step(w, o, s)) == s,
        walk_step(w, o, walk_back(w, o, s)) == s,
{
    let c = s.0 as int;
    let d = s.1 as int;
    let e = (d + 3) % 4;
    if o[c][d] {
        assert(has_nbr(w, c, d) && o[nbr(w, c, d)][opp(d)]);
    }
    if o[c][e] {
        assert(has_nbr(w, c, e) && o[nbr(w, c, e)][opp(e)]);
    }
    lemma_walk_inverse_at(w, o, c, d);
    assert(s == (c as usize, d as usize));
}

/// Number of corners of the first `k` cells not yet walked.
spec fn unwalked(seen: Seq<[bool; 4]>, k: int) -> int
    decreases k,
{
    if k <= 0 {
        0
    } else {
        unwalked(seen, k - 1) + (if seen[k - 1][0] { 0int } else { 1 }) + (if seen[k - 1][1] {
            0int
        } else {
            1
        }) + (if seen[k - 1][2] { 0int } else { 1 }) + (if seen[k - 1][3] { 0int } else { 1 })
    }
}

proof fn lemma_unwalked_nonneg(seen: Seq<[bool; 4]>, k: int)
    ensures
        unwalked(seen, k) >= 0,
    decreases k,
{
    if k > 0 {
        lemma_unwalked_nonneg(seen, k - 1);
    }
}

proof fn lemma_unwalked(seen: Seq<[bool; 4]>, c: int, d: int, a: [bool; 4], k: int)
    requires
        0 <= c < seen.len(),
        0 <= d < 4,
        !seen[c][d],
        a@ == seen[c]@.update(d, true),
        0 <= k <= seen.len(),
    ensures
        unwalked(seen.update(c, a), k) == unwalked(seen, k) - (if c < k { 1int } else { 0 }),
    decreases k,
{
    if k > 0 {
        lemma_unwalked(seen, c, d, a, k - 1);
        if k - 1 == c {
            assert(a[d] && forall|e: int| 0 <= e < 4 && e != d ==> a[e] == seen[c][e]);
        }
    }
}

/// The outlines found so far, as sequences.
pub open spec fn outline_seqs(r: Seq<Vec<(usize, usize)>>) -> Seq<Seq<(usize, usize)>> {
    r.map_values(|v: Vec<(usize, usize)>| v@)
}

/// Every walked corner is a corner of the grid.
#[verifier::opaque]
spec fn ol_corners(w: int, loc: Map<(usize, usize), (int, int)>) -> bool {
    forall|s: (usize, usize)| #[trigger] loc.contains_key(s) ==> is_corner(w, s)
}

/// `loc` gives the place of each walked corner in the outlines `r`.
#[verifier::opaque]
spec fn ol_places(r: Seq<Seq<(usize, usize)>>, loc: Map<(usize, usize), (int, int)>) -> bool {
    forall|s: (usize, usize)|
        #[trigger] loc.contains_key(s) ==> {
            &&& 0 <= loc[s].0 < r.len()
            &&& 0 <= loc[s].1 < r[loc[s].0].len()
            &&& r[loc[s].0][loc[s].1] == s
        }
}

/// Each corner on the outlines `r` is walked, at its place.
#[verifier::opaque]
spec fn ol_walked(r: Seq<Seq<(usize, usize)>>, loc: Map<(usize, usize), (int, int)>) -> bool {
    forall|j: int, i: int|
        0 <= j < r.len() && 0 <= i < r[j].len() ==> loc.contains_key(#[trigger] r[j][i]) && loc[r[j][i]] == (j, i)
}

/// Walked corners are closed under the way back.
#[verifier::opaque]
spec fn ol_back(w: int, o: Seq<Seq<bool>>, loc: Map<(usize, usize), (int, int)>) -> bool {
    forall|s: (usize, usize)| #[trigger] loc.contains_key(s) ==> loc.contains_key(walk_back(w, o, s))
}

/// The outlines `r` are closed walks.
#[verifier::opaque]
spec fn ol_closed(w: int, o: Seq<Seq<bool>>, r: Seq<Seq<(usize, usize)>>) -> bool {
    forall|j: int|
        0 <= j < r.len() ==> {
            &&& #[trigger] r[j].len() >= 1
            &&& forall|i: int| 0 <= i < r[j].len() - 1 ==> #[trigger] r[j][i + 1] == walk_step(w, o, r[j][i])
            &&& walk_step(w, o, r[j].last()) == r[j][0]
        }
}

/// Each outline starts at the first corner not on an earlier one.
#[verifier::opaque]
spec fn ol_starts(w: int, r: Seq<Seq<(usize, usize)>>, loc: Map<(usize, usize), (int, int)>) -> bool {
    forall|j: int, s: (usize, usize)|
        0 <= j < r.len() && is_corner(w, s) && #[trigger] corner_key(s) < corner_key(#[trigger] r[j][0])
            ==> loc.contains_key(s) && loc[s].0 < j
}

/// `loc` gives, for each walked corner, its place in the outlines `r`, which are closed walks;
/// walked corners are closed under the way back, and the start of each outline is the first
/// corner not on the outlines before it.
spec fn outlines_ok(w: int, o: Seq<Seq<bool>>, r: Seq<Seq<(usize, usize)>>, loc: Map<(usize, usize), (int, int)>) -> bool {
    &&& ol_corners(w, loc)
    &&& ol_places(r, loc)
    &&& ol_walked(r, loc)
    &&& ol_back(w, o, loc)
    &&& ol_closed(w, o, r)
    &&& ol_starts(w, r, loc)
}

/// A walk from `s0` in progress: `loc` extends `loc0` with the corners of `outline`, which
/// starts at `s0` and follows `walk_step`.
#[verifier::opaque]
spec fn walk_ok(
    w: int,
    o: Seq<Seq<bool>>,
    r: Seq<Seq<(usize, usize)>>,
    loc0: Map<(usize, usize), (int, int)>,
    loc: Map<(usize, usize), (int, int)>,
    outline: Seq<(usize, usize)>,
    s0: (usize, usize),
) -> bool {
    &&& outlines_ok(w, o, r, loc0)
    &&& is_corner(w, s0)
    &&& !loc0.contains_key(s0)
    &&& forall|s: (usize, usize)|
        is_corner(w, s) && #[trigger] corner_key(s) < corner_key(s0) ==> loc0.contains_key(s)
    &&& forall|s: (usize, usize)| #[trigger] loc0.contains_key(s) ==> loc.contains_key(s) && loc[s] == loc0[s]
    &&& forall|s: (usize, usize)|
        #[trigger] loc.contains_key(s) ==> loc0.contains_key(s) || (loc[s].0 == r.len() && 0 <= loc[s].1
            < outline.len() && outline[loc[s].1] == s)
    &&& forall|i: int|
        0 <= i < outline.len() ==> loc.contains_key(#[trigger] outline[i]) && loc[outline[i]] == (r.len() as int, i)
    &&& outline.len() > 0 ==> outline[0] == s0
    &&& forall|i: int| 0 <= i < outline.len() - 1 ==> #[trigger] outline[i + 1] == walk_step(w, o, outline[i])
    &&& forall|i: int| 0 <= i < outline.len() ==> is_corner(w, #[trigger] outline[i])
}

/// The facts that the walk needs of the grid.
spec fn grid_ok(w: int, o: Seq<Seq<bool>>) -> bool {
    &&& w > 0
    &&& w * w <= usize::MAX
    &&& o.len() == w * w
    &&& forall|c: int| 0 <= c < w * w ==> #[trigger] o[c].len() == 4
    &&& sym_ok(w, o)
}

/// Starting a walk at the first corner not walked yet.
proof fn lemma_walk_start(
    w: int,
    o: Seq<Seq<bool>>,
    r: Seq<Seq<(usize, usize)>>,
    loc: Map<(usize, usize), (int, int)>,
    s0: (usize, usize),
)
    requires
        outlines_ok(w, o, r, loc),
        is_corner(w, s0),
        !loc.contains_key(s0),
        forall|s: (usize, usize)| is_corner(w, s) && #[trigger] corner_key(s) < corner_key(s0) ==> loc.contains_key(s),
    ensures
        walk_ok(w, o, r, loc, loc, Seq::empty(), s0),
{
    reveal(walk_ok);
}

/// Walking one more corner `cur`, the next one of the walk, not walked yet.
proof fn lemma_walk_extend(
    w: int,
    o: Seq<Seq<bool>>,
    r: Seq<Seq<(usize, usize)>>,
    loc0: Map<(usize, usize), (int, int)>,
    loc: Map<(usize, usize), (int, int)>,
    outline: Seq<(usize, usize)>,
    s0: (usize, usize),
    cur: (usize, usize),
)
    requires
        grid_ok(w, o),
        walk_ok(w, o, r, loc0, loc, outline, s0),
        !loc.contains_key(cur),
        outline.len() == 0 ==> cur == s0,
        outline.len() > 0 ==> cur == walk_step(w, o, outline.last()),
    ensures
        walk_ok(w, o, r, loc0, loc.insert(cur, (r.len() as int, outline.len() as int)), outline.push(cur), s0),
        is_corner(w, cur),
        is_corner(w, walk_step(w, o, cur)),
{
    reveal(walk_ok);
    if outline.len() > 0 {
        lemma_walk_inverse(w, o, outline.last());
    }
    lemma_walk_inverse(w, o, cur);
    let l2 = loc.insert(cur, (r.len() as int, outline.len() as int));
    let o2 = outline.push(cur);
    assert forall|i: int| 0 <= i < o2.len() implies l2.contains_key(#[trigger] o2[i]) && l2[o2[i]] == (r.len() as int, i) by {
        if i < outline.len() {
            assert(o2[i] == outline[i]);
            assert(outline[i] != cur);
        }
    }
    assert forall|i: int| 0 <= i < o2.len() - 1 implies #[trigger] o2[i + 1] == walk_step(w, o, o2[i]) by {
        if i + 1 < outline.len() {
            assert(o2[i + 1] == outline[i + 1]);
        }
    }
}

/// The step after the last walked corner is either the start or a corner not walked yet.
proof fn lemma_walk_next(
    w: int,
    o: Seq<Seq<bool>>,
    r: Seq<Seq<(usize, usize)>>,
    loc0: Map<(usize, usize), (int, int)>,
    loc: Map<(usize, usize), (int, int)>,
    outline: Seq<(usize, usize)>,
    s0: (usize, usize),
)
    requires
        grid_ok(w, o),
        walk_ok(w, o, r, loc0, loc, outline, s0),
        outline.len() > 0,
        walk_step(w, o, outline.last()) != s0,
    ensures
        !loc.contains_key(walk_step(w, o, outline.last())),
{
    reveal(walk_ok);
    reveal(ol_back);
    reveal(ol_places);
    let prev = outline.last();
    let cur = walk_step(w, o, prev);
    lemma_walk_inverse(w, o, prev);
    if loc.contains_key(cur) {
        assert(walk_back(w, o, cur) == prev);
        if loc0.contains_key(cur) {
            assert(loc0.contains_key(prev));
            assert(loc[prev] == (r.len() as int, outline.len() - 1));
        } else {
            let i = loc[cur].1;
            assert(outline[i] == cur);
            if i == 0 {
                assert(cur == s0);
            } else {
                let k = i - 1;
                assert(outline[k + 1] == walk_step(w, o, outline[k]));
                lemma_walk_inverse(w, o, outline[k]);
                assert(loc[outline[k]] == (r.len() as int, k));
            }
        }
    }
}

/// A walk that comes back to its start closes an outline.
proof fn lemma_walk_close(
    w: int,
    o: Seq<Seq<bool>>,
    r: Seq<Seq<(usize, usize)>>,
    loc0: Map<(usize, usize), (int, int)>,
    loc: Map<(usize, usize), (int, int)>,
    outline: Seq<(usize, usize)>,
    s0: (usize, usize),
)
    requires
        grid_ok(w, o),
        walk_ok(w, o, r, loc0, loc, outline, s0),
        outline.len() > 0,
        walk_step(w, o, outline.last()) == s0,
    ensures
        outlines_ok(w, o, r.push(outline), loc),
        forall|s: (usize, usize)| #[trigger] loc0.contains_key(s) ==> loc.contains_key(s),
        loc.contains_key(s0),
{
    lemma_close_corners(w, o, r, loc0, loc, outline, s0);
    lemma_close_places(w, o, r, loc0, loc, outline, s0);
    lemma_close_back(w, o, r, loc0, loc, outline, s0);
    lemma_close_walks(w, o, r, loc0, loc, outline, s0);
    reveal(walk_ok);
    assert(loc.contains_key(outline[0]));
}

proof fn lemma_close_corners(
    w: int,
    o: Seq<Seq<bool>>,
    r: Seq<Seq<(usize, usize)>>,
    loc0: Map<(usize, usize), (int, int)>,
    loc: Map<(usize, usize), (int, int)>,
    outline: Seq<(usize, usize)>,
    s0: (usize, usize),
)
    requires
        walk_ok(w, o, r, loc0, loc, outline, s0),
        outline.len() > 0,
    ensures
        ol_corners(w, loc),
        ol_starts(w, r.push(outline), loc),
{
    reveal(walk_ok);
    reveal(ol_corners);
    reveal(ol_starts);
    reveal(ol_places);
    let r2 = r.push(outline);
    let jr = r.len() as int;
    assert forall|s: (usize, usize)| #[trigger] loc.contains_key(s) implies is_corner(w, s) by {
        if !loc0.contains_key(s) {
            assert(is_corner(w, outline[loc[s].1]));
        }
    }
    assert forall|j: int, s: (usize, usize)|
        0 <= j < r2.len() && is_corner(w, s) && #[trigger] corner_key(s) < corner_key(#[trigger] r2[j][0])
            implies loc.contains_key(s) && loc[s].0 < j by {
        if j < jr {
            assert(r2[j] == r[j]);
            assert(corner_key(s) < corner_key(r[j][0]));
            assert(loc0.contains_key(s) && loc0[s].0 < j);
        } else {
            assert(r2[j] == outline);
            assert(outline[0] == s0);
            assert(loc0.contains_key(s));
            assert(loc0[s].0 < r.len());
        }
    }
}

proof fn lemma_close_places(
    w: int,
    o: Seq<Seq<bool>>,
    r: Seq<Seq<(usize, usize)>>,
    loc0: Map<(usize, usize), (int, int)>,
    loc: Map<(usize, usize), (int, int)>,
    outline: Seq<(usize, usize)>,
    s0: (usize, usize),
)
    requires
        walk_ok(w, o, r, loc0, loc, outline, s0),
    ensures
        ol_places(r.push(outline), loc),
        ol_walked(r.push(outline), loc),
{
    reveal(walk_ok);
    reveal(ol_places);
    reveal(ol_walked);
    let r2 = r.push(outline);
    let jr = r.len() as int;
    assert forall|j: int, i: int|
        0 <= j < r2.len() && 0 <= i < r2[j].len() implies loc.contains_key(#[trigger] r2[j][i]) && loc[r2[j][i]] == (j, i) by {
        if j < jr {
            assert(r2[j] == r[j]);
            assert(loc0.contains_key(r[j][i]));
        }
    }
    assert forall|s: (usize, usize)| #[trigger] loc.contains_key(s) implies {
        &&& 0 <= loc[s].0 < r2.len()
        &&& 0 <= loc[s].1 < r2[loc[s].0].len()
        &&& r2[loc[s].0][loc[s].1] == s
    } by {
        if loc0.contains_key(s) {
            assert(r2[loc0[s].0] == r[loc0[s].0]);
        }
    }
}

proof fn lemma_close_back(
    w: int,
    o: Seq<Seq<bool>>,
    r: Seq<Seq<(usize, usize)>>,
    loc0: Map<(usize, usize), (int, int)>,
    loc: Map<(usize, usize), (int, int)>,
    outline: Seq<(usize, usize)>,
    s0: (usize, usize),
)
    requires
        grid_ok(w, o),
        walk_ok(w, o, r, loc0, loc, outline, s0),
        outline.len() > 0,
        walk_step(w, o, outline.last()) == s0,
    ensures
        ol_back(w, o, loc),
{
    reveal(walk_ok);
    reveal(ol_back);
    assert forall|s: (usize, usize)| #[trigger] loc.contains_key(s) implies loc.contains_key(walk_back(w, o, s)) by {
        if loc0.contains_key(s) {
            assert(loc0.contains_key(walk_back(w, o, s)));
        } else {
            let i = loc[s].1;
            if i == 0 {
                lemma_walk_inverse(w, o, outline.last());
                assert(loc.contains_key(outline[outline.len() - 1]));
            } else {
                let k = i - 1;
                assert(outline[k + 1] == walk_step(w, o, outline[k]));
                lemma_walk_inverse(w, o, outline[k]);
                assert(loc.contains_key(outline[k]));
            }
        }
    }
}

proof fn lemma_close_walks(
    w: int,
    o: Seq<Seq<bool>>,
    r: Seq<Seq<(usize, usize)>>,
    loc0: Map<(usize, usize), (int, int)>,
    loc: Map<(usize, usize), (int, int)>,
    outline: Seq<(usize, usize)>,
    s0: (usize, usize),
)
    requires
        walk_ok(w, o, r, loc0, loc, outline, s0),
        outline.len() > 0,
        walk_step(w, o, outline.last()) == s0,
    ensures
        ol_closed(w, o, r.push(outline)),
{
    reveal(walk_ok);
    reveal(ol_closed);
    let r2 = r.push(outline);
    let jr = r.len() as int;
    assert forall|j: int| 0 <= j < r2.len() implies {
        &&& #[trigger] r2[j].len() >= 1
        &&& forall|i: int| 0 <= i < r2[j].len() - 1 ==> #[trigger] r2[j][i + 1] == walk_step(w, o, r2[j][i])
        &&& walk_step(w, o, r2[j].last()) == r2[j][0]
    } by {
        if j < jr {
            assert(r2[j] == r[j]);
        }
    }
}

/// `r` are closed walks of `walk_step` through the corners of a grid `w` cells wide, each corner
/// on exactly one of them, each starting at the first corner (cell by cell, then corner by
/// corner) not on an earlier one.
pub open spec fn outlines_exact(w: int, o: Seq<Seq<bool>>, r: Seq<Seq<(usize, usize)>>) -> bool {
    &&& forall|j: int|
        0 <= j < r.len() ==> {
            &&& #[trigger] r[j].len() >= 1
            &&& forall|i: int| 0 <= i < r[j].len() ==> is_corner(w, #[trigger] r[j][i])
            &&& forall|i: int| 0 <= i < r[j].len() - 1 ==> #[trigger] r[j][i + 1] == walk_step(w, o, r[j][i])
            &&& walk_step(w, o, r[j].last()) == r[j][0]
        }
    &&& forall|s: (usize, usize)|
        is_corner(w, s) ==> exists|j: int, i: int| 0 <= j < r.len() && 0 <= i < r[j].len() && #[trigger] r[j][i] == s
    &&& forall|j1: int, i1: int, j2: int, i2: int|
        0 <= j1 < r.len() && 0 <= i1 < r[j1].len() && 0 <= j2 < r.len() && 0 <= i2 < r[j2].len() && (j1 != j2
            || i1 != i2) ==> #[trigger] r[j1][i1] != #[trigger] r[j2][i2]
    &&& forall|j: int, s: (usize, usize)|
        0 <= j < r.len() && is_corner(w, s) && #[trigger] corner_key(s) < corner_key(#[trigger] r[j][0]) ==> exists|
            j2: int,
            i: int,
        | 0 <= j2 < j && 0 <= i < r[j2].len() && #[trigger] r[j2][i] == s
}

/// Once every corner is walked, the outlines are exactly as `outlines_exact` says.
proof fn lemma_outlines_exact(w: int, o: Seq<Seq<bool>>, r: Seq<Seq<(usize, usize)>>, loc: Map<(usize, usize), (int, int)>)
    requires
        outlines_ok(w, o, r, loc),
        forall|x: usize, y: usize| is_corner(w, (x, y)) ==> #[trigger] loc.contains_key((x, y)),
    ensures
        outlines_exact(w, o, r),
{
    reveal(ol_corners);
    reveal(ol_places);
    reveal(ol_walked);
    reveal(ol_starts);
    reveal(ol_closed);
    assert forall|s: (usize, usize)| is_corner(w, s) implies exists|j: int, i: int|
        0 <= j < r.len() && 0 <= i < r[j].len() && #[trigger] r[j][i] == s by {
        assert(loc.contains_key((s.0, s.1)));
        let (j, i) = loc[s];
        assert(r[j][i] == s);
    }
    assert forall|j1: int, i1: int, j2: int, i2: int|
        0 <= j1 < r.len() && 0 <= i1 < r[j1].len() && 0 <= j2 < r.len() && 0 <= i2 < r[j2].len() && (j1 != j2
            || i1 != i2) implies #[trigger] r[j1][i1] != #[trigger] r[j2][i2] by {
        assert(loc[r[j1][i1]] == (j1, i1));
        assert(loc[r[j2][i2]] == (j2, i2));
    }
    assert forall|j: int, s: (usize, usize)|
        0 <= j < r.len() && is_corner(w, s) && #[trigger] corner_key(s) < corner_key(#[trigger] r[j][0]) implies exists|
        j2: int,
        i: int,
    | 0 <= j2 < j && 0 <= i < r[j2].len() && #[trigger] r[j2][i] == s by {
        let (j2, i) = loc[s];
        assert(r[j2][i] == s);
    }
    assert forall|j: int, i: int| 0 <= j < r.len() && 0 <= i < r[j].len() implies is_corner(w, #[trigger] r[j][i]) by {
        assert(loc.contains_key(r[j][i]));
    }
}

/// The outlines of the groups of cells whose open sides `open` gives: each outline starts at
/// the first corner, cell by cell then corner by corner, not on an earlier outline, and follows
/// `walk_step` until it comes back to its start. Every corner lies on exactly one outline.
pub fn square_map_outlines(width: usize, open: &Vec<[bool; 4]>) -> (r: Vec<Vec<(usize, usize)>>)
    requires
        width * width <= usize::MAX,
        open@.len() == width * width,
        sym_ok(width as int, open_sides(open@)),
    ensures
        outlines_exact(width as int, open_sides(open@), outline_seqs(r@)),
{
    let n = width * width;
    let ghost w = width as int;
    let ghost o = open_sides(open@);
    let mut seen: Vec<[bool; 4]> = Vec::new();
    let mut k: usize = 0;
    while k < n
        invariant
            n == width * width,
            k <= n,
            seen@.len() == k,
            forall|x: int, y: int| 0 <= x < k && 0 <= y < 4 ==> !#[trigger] seen@[x][y],
        decreases n - k,
    {
        seen.push([false; 4]);
        k += 1;
    }
    let mut r: Vec<Vec<(usize, usize)>> = Vec::new();
    let ghost mut loc: Map<(usize, usize), (int, int)> = Map::empty();
    if width == 0 {
        proof {
            let rr = outline_seqs(r@);
            assert forall|s: (usize, usize)| is_corner(w, s) implies exists|j: int, i: int|
                0 <= j < rr.len() && 0 <= i < rr[j].len() && #[trigger] rr[j][i] == s by {
                assert(w * w == 0);
            }
        }
        return r;
    }
    proof {
        assert(w * w > 0) by (nonlinear_arith)
            requires
                w > 0,
        ;
        assert forall|c: int| 0 <= c < w * w implies #[trigger] o[c].len() == 4 by {}
        assert(grid_ok(w, o));
        reveal(ol_corners);
        reveal(ol_places);
        reveal(ol_walked);
        reveal(ol_back);
        reveal(ol_closed);
        reveal(ol_starts);
        assert(outlines_ok(w, o, outline_seqs(r@), loc));
    }
    let mut c: usize = 0;
    while c < n
        invariant
            n == width * width,
            w == width,
            o == open_sides(open@),
            open@.len() == n,
            grid_ok(w, o),
            c <= n,
            seen@.len() == n,
            forall|x: usize, y: usize|
                x < n && y < 4 ==> (#[trigger] seen@[x as int][y as int] <==> loc.contains_key((x, y))),
            forall|x: usize, y: usize| x < c && y < 4 ==> #[trigger] loc.contains_key((x, y)),
            outlines_ok(w, o, outline_seqs(r@), loc),
        decreases n - c,
    {
        let mut d: usize = 0;
        while d < 4
            invariant
                n == width * width,
                w == width,
                o == open_sides(open@),
                open@.len() == n,
                grid_ok(w, o),
                c < n,
                d <= 4,
                seen@.len() == n,
                forall|x: usize, y: usize|
                    x < n && y < 4 ==> (#[trigger] seen@[x as int][y as int] <==> loc.contains_key((x, y))),
                forall|x: usize, y: usize| (x < c && y < 4) || (x == c && y < d) ==> #[trigger] loc.contains_key((x, y)),
                outlines_ok(w, o, outline_seqs(r@), loc),
            decreases 4 - d,
        {
            if !seen[c][d] {
                let ghost s0: (usize, usize) = (c, d);
                let ghost loc0 = loc;
                let ghost rs = outline_seqs(r@);
                proof {
                    assert forall|s: (usize, usize)| is_corner(w, s) && #[trigger] corner_key(s) < corner_key(s0) implies loc.contains_key(s) by {
                        if s.0 < c {
                            assert(loc.contains_key((s.0, s.1)));
                        } else {
                            assert(s.0 == c && s.1 < d);
                            assert(loc.contains_key((s.0, s.1)));
                        }
                    }
                    lemma_walk_start(w, o, rs, loc, s0);
                    lemma_unwalked_nonneg(seen@, n as int);
                }
                let mut outline: Vec<(usize, usize)> = Vec::new();
                let mut cc: usize = c;
                let mut dd: usize = d;
                loop
                    invariant_except_break
                        !loc.contains_key((cc, dd)),
                        outline@.len() == 0 ==> (cc, dd) == s0,
                        outline@.len() > 0 ==> (cc, dd) == walk_step(w, o, outline@.last()),
                    invariant
                        n == width * width,
                        w == width,
                        o == open_sides(open@),
                        open@.len() == n,
                        grid_ok(w, o),
                        cc < n,
                        dd < 4,
                        rs == outline_seqs(r@),
                        s0 == (c, d),
                        seen@.len() == n,
                        forall|x: usize, y: usize|
                            x < n && y < 4 ==> (#[trigger] seen@[x as int][y as int] <==> loc.contains_key((x, y))),
                        walk_ok(w, o, rs, loc0, loc, outline@, s0),
                        unwalked(seen@, n as int) >= 0,
                    ensures
                        outline@.len() >= 1,
                        walk_step(w, o, outline@.last()) == s0,
                    decreases unwalked(seen@, n as int),
                {
                    let ghost before = seen@;
                    let ghost w0 = outline@;
                    proof {
                        lemma_walk_extend(w, o, rs, loc0, loc, outline@, s0, (cc, dd));
                    }
                    let mut cell = seen[cc];
                    cell[dd] = true;
                    proof {
                        assert(!before[cc as int][dd as int]);
                        lemma_unwalked(before, cc as int, dd as int, cell, n as int);
                    }
                    seen.set(cc, cell);
                    outline.push((cc, dd));
                    proof {
                        loc = loc.insert((cc, dd), (rs.len() as int, w0.len() as int));
                        lemma_unwalked_nonneg(seen@, n as int);
                        assert forall|x: usize, y: usize|
                            x < n && y < 4 implies (#[trigger] seen@[x as int][y as int] <==> loc.contains_key((x, y))) by {
                            if x == cc && y == dd {
                            } else {
                                assert(seen@[x as int][y as int] == before[x as int][y as int]);
                            }
                        }
                    }
                    let ghost prev: (usize, usize) = (cc, dd);
                    if open[cc][dd] {
                        proof {
                            assert(o[cc as int][dd as int]);
                            lemma_nbr(w, cc as int, dd as int);
                        }
                        let m: usize = if dd == 0 {
                            cc - width
                        } else if dd == 1 {
                            cc + 1
                        } else if dd == 2 {
                            cc + width
                        } else {
                            cc - 1
                        };
                        cc = m;
                        dd = (dd + 3) % 4;
                    } else {
                        dd = (dd + 1) % 4;
                    }
                    proof {
                        assert(o[prev.0 as int][prev.1 as int] == open@[prev.0 as int][prev.1 as int]);
                        assert((cc, dd) == walk_step(w, o, prev));
                        assert(outline@.last() == prev);
                    }
                    if cc == c && dd == d {
                        break;
                    }
                    proof {
                        lemma_walk_next(w, o, rs, loc0, loc, outline@, s0);
                    }
                }
                let ghost wl = outline@;
                proof {
                    lemma_walk_close(w, o, rs, loc0, loc, wl, s0);
                }
                r.push(outline);
                proof {
                    assert(outline_seqs(r@) =~= rs.push(wl));
                    assert forall|x: usize, y: usize|
                        (x < c && y < 4) || (x == c && y < d + 1) implies #[trigger] loc.contains_key((x, y)) by {
                        if x == c && y == d {
                            assert((x, y) == s0);
                        } else {
                            assert(loc0.contains_key((x, y)));
                        }
                    }
                }
            }
            d += 1;
        }
        c += 1;
    }
    proof {
        lemma_outlines_exact(w, o, outline_seqs(r@), loc);
    }
    r
}

} // verus!
