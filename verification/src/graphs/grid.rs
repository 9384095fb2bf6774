use vstd::prelude::*;
use vstd::arithmetic::div_mod::{
    lemma_div_denominator, lemma_fundamental_div_mod, lemma_mod_pos_bound, lemma_multiply_divide_lt,
    lemma_div_pos_is_pos, lemma_mod_breakdown, lemma_small_mod, lemma_mod_multiples_vanish,
};
use crate::geometry::vecs::{VecN, dot_prefix};
use crate::graphs::traits::{Graph, IterableGraph};

verus! {

/// `s[0] * ... * s[i - 1]`: the place value of coordinate `i` in a grid of sizes `s`.
pub open spec fn place(s: Seq<usize>, i: int) -> int
    decreases i,
{
    if i <= 0 {
        1
    } else {
        place(s, i - 1) * s[i - 1]
    }
}

/// `s[a] * ... * s[b - 1]`.
pub open spec fn span(s: Seq<usize>, a: int, b: int) -> int
    decreases b - a,
{
    if b <= a {
        1
    } else {
        span(s, a, b - 1) * s[b - 1]
    }
}

/// `c[0] * place(s, 0) + ... + c[n - 1] * place(s, n - 1)`: the index of the point `c`.
pub open spec fn weighted(c: Seq<usize>, s: Seq<usize>, n: int) -> int
    decreases n,
{
    if n <= 0 {
        0
    } else {
        weighted(c, s, n - 1) + c[n - 1] * place(s, n - 1)
    }
}

/// Coordinate `i` of the vertex `v`.
pub open spec fn coord_of(s: Seq<usize>, v: int, i: int) -> int {
    (v / place(s, i)) % (s[i] as int)
}

proof fn lemma_place_split(s: Seq<usize>, a: int, b: int)
    requires
        0 <= a <= b,
    ensures
        place(s, b) == place(s, a) * span(s, a, b),
    decreases b - a,
{
    if b > a {
        lemma_place_split(s, a, b - 1);
        let x = place(s, a);
        let y = span(s, a, b - 1);
        let z = s[b - 1] as int;
        assert(x * y * z == x * (y * z)) by (nonlinear_arith);
    }
}

proof fn lemma_place_nonneg(s: Seq<usize>, i: int)
    ensures
        place(s, i) >= 0,
    decreases i,
{
    if i > 0 {
        lemma_place_nonneg(s, i - 1);
        let x = place(s, i - 1);
        let y = s[i - 1] as int;
        assert(x * y >= 0) by (nonlinear_arith)
            requires
                x >= 0,
                y >= 0,
        ;
    }
}

proof fn lemma_span_pos(s: Seq<usize>, a: int, b: int)
    requires
        0 <= a,
        b <= s.len(),
        forall|j: int| a <= j < b ==> #[trigger] s[j] > 0,
    ensures
        span(s, a, b) >= 1,
    decreases b - a,
{
    if b > a {
        lemma_span_pos(s, a, b - 1);
        let x = span(s, a, b - 1);
        let y = s[b - 1] as int;
        assert(x * y >= 1) by (nonlinear_arith)
            requires
                x >= 1,
                y >= 1,
        ;
    }
}

/// A grid with at least one vertex has no size zero, and every place value is positive and no
/// larger than the number of vertices.
proof fn lemma_sizes_pos(s: Seq<usize>, n: int)
    requires
        0 <= n <= s.len(),
        place(s, n) > 0,
    ensures
        forall|j: int| 0 <= j < n ==> #[trigger] s[j] > 0,
        forall|i: int| 0 <= i <= n ==> 0 < #[trigger] place(s, i) <= place(s, n),
    decreases n,
{
    if n > 0 {
        lemma_place_nonneg(s, n - 1);
        let x = place(s, n - 1);
        let y = s[n - 1] as int;
        assert(x > 0 && y > 0 && x <= x * y) by (nonlinear_arith)
            requires
                x >= 0,
                y >= 0,
                x * y > 0,
        ;
        lemma_sizes_pos(s, n - 1);
    }
}

/// Stepping up along coordinate `i` from a vertex whose coordinate `i` is not the last one
/// stays inside the grid.
proof fn lemma_step_up(s: Seq<usize>, n: int, v: int, i: int)
    requires
        0 <= i < n <= s.len(),
        0 <= v < place(s, n),
        coord_of(s, v, i) + 1 < s[i],
    ensures
        v + place(s, i) < place(s, n),
{
    lemma_sizes_pos(s, n);
    let p = place(s, i);
    let sz = s[i] as int;
    let p1 = place(s, i + 1);
    assert(p1 == p * sz);
    lemma_place_split(s, i + 1, n);
    let t = span(s, i + 1, n);
    assert(place(s, n) == p1 * t);
    lemma_fundamental_div_mod(v, p);
    lemma_mod_pos_bound(v, p);
    lemma_div_pos_is_pos(v, p);
    let q = v / p;
    let r = v % p;
    lemma_fundamental_div_mod(q, sz);
    lemma_mod_pos_bound(q, sz);
    let qq = q / sz;
    let c = q % sz;
    lemma_div_denominator(v, p, sz);
    assert(v / (p * sz) == qq);
    lemma_multiply_divide_lt(v, p1, t);
    assert(qq < t);
    assert(v + p < p1 * t) by (nonlinear_arith)
        requires
            v == p * q + r,
            q == sz * qq + c,
            0 <= r < p,
            c + 1 < sz,
            qq + 1 <= t,
            p1 == p * sz,
            p > 0,
            sz > 0,
    ;
}

/// Stepping down along coordinate `i` from a vertex whose coordinate `i` is not zero stays
/// above zero.
proof fn lemma_step_down(s: Seq<usize>, n: int, v: int, i: int)
    requires
        0 <= i < n <= s.len(),
        0 <= v < place(s, n),
        coord_of(s, v, i) != 0,
    ensures
        v >= place(s, i),
{
    lemma_sizes_pos(s, n);
    let p = place(s, i);
    let sz = s[i] as int;
    lemma_fundamental_div_mod(v, p);
    lemma_mod_pos_bound(v, p);
    lemma_div_pos_is_pos(v, p);
    let q = v / p;
    let r = v % p;
    lemma_fundamental_div_mod(q, sz);
    lemma_mod_pos_bound(q, sz);
    lemma_div_pos_is_pos(q, sz);
    assert(q >= 1);
    assert(v >= p) by (nonlinear_arith)
        requires
            v == p * q + r,
            q >= 1,
            r >= 0,
            p > 0,
    ;
}

/// The place values of `sizes`, and the number of vertices of the grid.
fn calculate_offsets<const N: usize>(sizes: [usize; N]) -> (r: ([usize; N], usize))
    requires
        forall|i: int| 0 <= i <= N ==> #[trigger] place(sizes@, i) <= usize::MAX,
    ensures
        forall|i: int| 0 <= i < N ==> #[trigger] r.0@[i] == place(sizes@, i),
        r.1 == place(sizes@, N as int),
{
    let mut offsets = [0; N];
    let mut size: usize = 1;
    let mut i: usize = 0;
    while i < N
        invariant
            i <= N,
            size == place(sizes@, i as int),
            forall|j: int| 0 <= j < i ==> #[trigger] offsets@[j] == place(sizes@, j),
            forall|j: int| 0 <= j <= N ==> #[trigger] place(sizes@, j) <= usize::MAX,
        decreases N - i,
    {
        offsets[i] = size;
        assert(place(sizes@, i + 1) <= usize::MAX);
        size = size * sizes[i];
        i += 1;
    }
    (offsets, size)
}

/// A grid graph in `N` dimensions: vertex `v` has coordinate `(v / place(i)) % sizes[i]` along
/// axis `i`, and is linked to the vertices one step away along each axis.
#[derive(Clone, Copy, Debug, PartialEq, Eq)]
pub struct Grid<const N: usize> {
    pub sizes: [usize; N],
    pub offsets: [usize; N],
    pub size: usize,
}

impl<const N: usize> Grid<N> {
    /// The sizes of the grid along each axis.
    pub open spec fn dims(&self) -> Seq<usize> {
        self.sizes@
    }

    /// The number of vertices.
    pub open spec fn vertex_count(&self) -> usize {
        self.size
    }

    /// The stored place values are those of `sizes`, and `size` is their product.
    pub closed spec fn wf(&self) -> bool {
        &&& forall|i: int| 0 <= i < N ==> #[trigger] self.offsets@[i] == place(self.sizes@, i)
        &&& self.size == place(self.sizes@, N as int)
    }

    /// The grid of the given sizes.
    pub fn new(sizes: [usize; N]) -> (g: Self)
        requires
            forall|i: int| 0 <= i <= N ==> #[trigger] place(sizes@, i) <= usize::MAX,
        ensures
            g.wf(),
            g.dims() == sizes@,
            g.vertex_count() == place(sizes@, N as int),
            g.sizes == sizes,
            g.size == place(sizes@, N as int),
    {
        let (offsets, size) = calculate_offsets(sizes);
        Grid { sizes, offsets, size }
    }

    /// Coordinate `i` of the vertex `index`.
    pub fn ith_coord(&self, index: usize, i: usize) -> (r: usize)
        requires
            self.wf(),
            i < N,
            place(self.dims(), i as int) > 0,
            self.dims()[i as int] > 0,
        ensures
            r == coord_of(self.dims(), index as int, i as int),
    {
        (index / self.offsets[i]) % self.sizes[i]
    }

    /// The coordinates of the vertex `index`.
    pub fn coords(&self, index: usize) -> (c: VecN<N, usize>)
        requires
            self.wf(),
            self.vertex_count() > 0,
        ensures
            forall|i: int| 0 <= i < N ==> #[trigger] c.0@[i] == coord_of(self.dims(), index as int, i),
    {
        proof {
            lemma_sizes_pos(self.dims(), N as int);
        }
        let g = *self;
        let f = |i: usize| -> (r: usize)
            requires
                i < N,
            ensures
                r == coord_of(g.dims(), index as int, i as int),
            { g.ith_coord(index, i) };
        VecN::from_fn(f)
    }

    /// The vertices of the box `start <= p <= end` (coordinatewise), the first axis varying
    /// fastest. Every coordinate of `start` must be at most that of `end` (else the walk does not
    /// end), and the last vertex must have an index that fits in `usize`.
    pub fn iter_cube(&self, start: VecN<N, usize>, end: VecN<N, usize>) -> (r: Vec<usize>)
        requires
            self.wf(),
            forall|i: int| 0 <= i < N ==> start.0@[i] <= #[trigger] end.0@[i],
            weighted(end.0@, self.dims(), N as int) <= usize::MAX,
        ensures
            same_ints(r@, cube_indices(start.0@, end.0@, self.dims(), N as int)),
    {
        let ghost lo = start.0@;
        let ghost hi = end.0@;
        let ghost s = self.dims();
        let mut cur: Vec<usize> = Vec::new();
        cur.push(0);
        let mut d: usize = 0;
        while d < N
            invariant
                self.wf(),
                lo == start.0@,
                hi == end.0@,
                s == self.dims(),
                forall|i: int| 0 <= i < N ==> lo[i] <= #[trigger] hi[i],
                weighted(hi, s, N as int) <= usize::MAX,
                d <= N,
                same_ints(cur@, cube_indices(lo, hi, s, d as int)),
            decreases N - d,
        {
            let ghost base = cube_indices(lo, hi, s, d as int);
            proof {
                lemma_cube_bounds(lo, hi, s, d as int);
                lemma_weighted_grows(hi, s, d as int + 1, N as int);
                lemma_place_nonneg(s, d as int);
            }
            let lo_d = start.0[d];
            let hi_d = end.0[d];
            let step = self.offsets[d];
            let ghost f = |x: int| x + (lo_d as int + (hi_d - lo_d)) * step;
            let mut next: Vec<usize> = Vec::new();
            let mut c = lo_d;
            loop
                invariant_except_break
                    same_ints(next@, shifted_copies(base, lo_d as int, step as int, c - lo_d)),
                invariant
                    self.wf(),
                    d < N,
                    lo == start.0@,
                    hi == end.0@,
                    s == self.dims(),
                    lo_d == lo[d as int],
                    hi_d == hi[d as int],
                    step == place(s, d as int),
                    step >= 0,
                    lo_d <= c <= hi_d,
                    weighted(hi, s, d as int + 1) <= usize::MAX,
                    weighted(hi, s, d as int + 1) == weighted(hi, s, d as int) + hi_d * step,
                    same_ints(cur@, base),
                    forall|k: int| 0 <= k < base.len() ==> 0 <= #[trigger] base[k] <= weighted(hi, s, d as int),
                ensures
                    same_ints(next@, shifted_copies(base, lo_d as int, step as int, hi_d - lo_d + 1)),
                decreases hi_d - c,
            {
                let ghost done = shifted_copies(base, lo_d as int, step as int, c - lo_d);
                let ghost g = |x: int| x + c * step;
                proof {
                    assert(c * step <= hi_d * step) by (nonlinear_arith)
                        requires
                            c <= hi_d,
                            step >= 0,
                    ;
                }
                let mut i: usize = 0;
                while i < cur.len()
                    invariant
                        lo_d <= c <= hi_d,
                        forall|x: int| #[trigger] g(x) == x + c * step,
                        c * step <= hi_d * step,
                        hi_d == hi[d as int],
                        step == place(s, d as int),
                        weighted(hi, s, d as int + 1) <= usize::MAX,
                        weighted(hi, s, d as int + 1) == weighted(hi, s, d as int) + hi_d * step,
                        same_ints(cur@, base),
                        forall|k: int| 0 <= k < base.len() ==> 0 <= #[trigger] base[k] <= weighted(hi, s, d as int),
                        i <= cur@.len(),
                        same_ints(next@, done + base.take(i as int).map_values(g)),
                    decreases cur@.len() - i,
                {
                    assert(base[i as int] == cur@[i as int]);
                    let v = cur[i] + c * step;
                    proof {
                        assert(g(base[i as int]) == v as int);
                        assert(base.take(i as int + 1) =~= base.take(i as int).push(base[i as int]));
                        assert(base.take(i as int + 1).map_values(g) =~= base.take(i as int).map_values(
                            g,
                        ).push(g(base[i as int])));
                        assert((done + base.take(i as int + 1).map_values(g)) =~= (done + base.take(
                            i as int,
                        ).map_values(g)).push(v as int));
                    }
                    next.push(v);
                    i += 1;
                }
                proof {
                    assert(base.take(cur@.len() as int) =~= base);
                    let k = c - lo_d + 1;
                    assert(lo_d + k - 1 == c);
                    assert(base.map_values(|x: int| x + (lo_d + k - 1) * step) =~= base.map_values(g));
                    assert(shifted_copies(base, lo_d as int, step as int, c - lo_d + 1) == done
                        + base.map_values(g));
                }
                if c == hi_d {
                    break;
                }
                c += 1;
            }
            cur = next;
            d += 1;
        }
        cur
    }

    /// The coordinates of a vertex lead back to it: `index(coords(v)) == v`.
    pub proof fn lemma_index_of_coords(&self, v: usize, c: VecN<N, usize>)
        requires
            self.wf(),
            v < self.vertex_count(),
            forall|i: int| 0 <= i < N ==> #[trigger] c.0@[i] == coord_of(self.dims(), v as int, i),
        ensures
            weighted(c.0@, self.dims(), N as int) == v,
    {
        lemma_sizes_pos(self.dims(), N as int);
        lemma_weighted_coords(self.dims(), c.0@, v as int, N as int);
        lemma_small_mod(v as nat, place(self.dims(), N as int) as nat);
    }

    /// A point inside the grid is the coordinates of its index: `coords(index(c)) == c`.
    pub proof fn lemma_coords_of_index(&self, c: VecN<N, usize>)
        requires
            self.wf(),
            forall|i: int| 0 <= i < N ==> #[trigger] c.0@[i] < self.dims()[i],
        ensures
            weighted(c.0@, self.dims(), N as int) < self.vertex_count(),
            forall|i: int|
                0 <= i < N ==> coord_of(self.dims(), weighted(c.0@, self.dims(), N as int), i)
                    == #[trigger] c.0@[i],
    {
        lemma_coords_of_weighted(self.dims(), c.0@, N as int);
    }

    /// The neighbours of a vertex one step down or up along axis `i` have the same coordinates
    /// but along that axis, where they have one less or one more.
    pub proof fn lemma_neighbor_coords(&self, v: usize, i: int)
        requires
            self.wf(),
            v < self.vertex_count(),
            0 <= i < N,
        ensures
            coord_of(self.dims(), v as int, i) != 0 ==> {
                &&& v >= place(self.dims(), i)
                &&& forall|j: int|
                    0 <= j < N ==> #[trigger] coord_of(self.dims(), v - place(self.dims(), i), j)
                        == coord_of(self.dims(), v as int, j) - if j == i {
                        1int
                    } else {
                        0int
                    }
            },
            coord_of(self.dims(), v as int, i) + 1 != self.dims()[i] ==> {
                &&& v + place(self.dims(), i) < self.vertex_count()
                &&& forall|j: int|
                    0 <= j < N ==> #[trigger] coord_of(self.dims(), v + place(self.dims(), i), j)
                        == coord_of(self.dims(), v as int, j) + if j == i {
                        1int
                    } else {
                        0int
                    }
            },
    {
        let s = self.dims();
        let n = N as int;
        lemma_sizes_pos(s, n);
        let c = Seq::new(N as nat, |j: int| coord_of(s, v as int, j) as usize);
        assert forall|j: int| 0 <= j < n implies 0 <= #[trigger] coord_of(s, v as int, j) < s[j] by {
            lemma_div_pos_is_pos(v as int, place(s, j));
            lemma_mod_pos_bound((v as int) / place(s, j), s[j] as int);
        }
        assert forall|j: int| 0 <= j < n implies #[trigger] c[j] == coord_of(s, v as int, j) by {}
        lemma_weighted_coords(s, c, v as int, n);
        lemma_small_mod(v as nat, place(s, n) as nat);
        let ci = coord_of(s, v as int, i);
        if ci != 0 {
            let c2 = c.update(i, (ci - 1) as usize);
            lemma_weighted_shift(c, s, n, i, (ci - 1) as usize);
            assert(((ci - 1) as usize - c[i]) * place(s, i) == -place(s, i)) by (nonlinear_arith)
                requires
                    (ci - 1) as usize == c[i] - 1,
            ;
            assert(weighted(c2, s, n) == v - place(s, i));
            assert forall|j: int| 0 <= j < n implies #[trigger] c2[j] < s[j] by {}
            lemma_coords_of_weighted(s, c2, n);
            assert forall|j: int| 0 <= j < N implies #[trigger] coord_of(s, v - place(s, i), j)
                == coord_of(s, v as int, j) - if j == i {
                1int
            } else {
                0int
            } by {
                assert(coord_of(s, weighted(c2, s, n), j) == c2[j]);
            }
        }
        if ci + 1 != s[i] {
            let c2 = c.update(i, (ci + 1) as usize);
            lemma_weighted_shift(c, s, n, i, (ci + 1) as usize);
            assert forall|j: int| 0 <= j < n implies #[trigger] c2[j] < s[j] by {}
            lemma_coords_of_weighted(s, c2, n);
            assert forall|j: int| 0 <= j < N implies #[trigger] coord_of(s, v + place(s, i), j)
                == coord_of(s, v as int, j) + if j == i {
                1int
            } else {
                0int
            } by {
                assert(coord_of(s, weighted(c2, s, n), j) == c2[j]);
            }
        }
    }

    /// The vertex with coordinates `coords`.
    pub fn index(&self, coords: VecN<N, usize>) -> (r: usize)
        requires
            self.wf(),
            weighted(coords.0@, self.dims(), N as int) <= usize::MAX,
        ensures
            r == weighted(coords.0@, self.dims(), N as int),
    {
        proof {
            lemma_dot_is_weighted(coords.0@, self.offsets@, self.dims(), N as int);
        }
        coords.dot(VecN(self.offsets))
    }
}

/// `k` copies of `base`, the `j`-th shifted by `(lo + j) * step`, one after the other.
pub open spec fn shifted_copies(base: Seq<int>, lo: int, step: int, k: int) -> Seq<int>
    decreases k,
{
    if k <= 0 {
        Seq::empty()
    } else {
        shifted_copies(base, lo, step, k - 1) + base.map_values(|x: int| x + (lo + k - 1) * step)
    }
}

/// The indices of the points `p` with `lo[i] <= p[i] <= hi[i]` along the first `n` axes (and
/// coordinate zero along the others), the first axis varying fastest.
pub open spec fn cube_indices(lo: Seq<usize>, hi: Seq<usize>, s: Seq<usize>, n: int) -> Seq<int>
    decreases n,
{
    if n <= 0 {
        seq![0]
    } else {
        shifted_copies(
            cube_indices(lo, hi, s, n - 1),
            lo[n - 1] as int,
            place(s, n - 1),
            hi[n - 1] - lo[n - 1] + 1,
        )
    }
}

/// `v` holds the integers of `w`, in order.
pub open spec fn same_ints(v: Seq<usize>, w: Seq<int>) -> bool {
    &&& v.len() == w.len()
    &&& forall|k: int| 0 <= k < v.len() ==> v[k] == #[trigger] w[k]
}

proof fn lemma_shifted_bounds(base: Seq<int>, lo: int, step: int, k: int, bmax: int, top: int)
    requires
        forall|i: int| 0 <= i < base.len() ==> 0 <= #[trigger] base[i] <= bmax,
        step >= 0,
        lo >= 0,
        lo + k - 1 <= top,
    ensures
        forall|i: int|
            0 <= i < shifted_copies(base, lo, step, k).len() ==> 0 <= #[trigger] shifted_copies(
                base,
                lo,
                step,
                k,
            )[i] <= bmax + top * step,
    decreases k,
{
    if k > 0 {
        lemma_shifted_bounds(base, lo, step, k - 1, bmax, top);
        let a = shifted_copies(base, lo, step, k - 1);
        let b = base.map_values(|x: int| x + (lo + k - 1) * step);
        let m = lo + k - 1;
        assert(0 <= m * step <= top * step) by (nonlinear_arith)
            requires
                0 <= m <= top,
                step >= 0,
        ;
        assert forall|i: int| 0 <= i < (a + b).len() implies 0 <= #[trigger] (a + b)[i] <= bmax + top
            * step by {
            if i >= a.len() {
                assert(b[i - a.len()] == base[i - a.len()] + m * step);
            }
        }
    }
}

proof fn lemma_cube_bounds(lo: Seq<usize>, hi: Seq<usize>, s: Seq<usize>, n: int)
    requires
        0 <= n <= lo.len(),
        n <= hi.len(),
        forall|i: int| 0 <= i < n ==> lo[i] <= #[trigger] hi[i],
    ensures
        forall|k: int|
            0 <= k < cube_indices(lo, hi, s, n).len() ==> 0 <= #[trigger] cube_indices(lo, hi, s, n)[k]
                <= weighted(hi, s, n),
    decreases n,
{
    if n > 0 {
        lemma_cube_bounds(lo, hi, s, n - 1);
        lemma_place_nonneg(s, n - 1);
        lemma_shifted_bounds(
            cube_indices(lo, hi, s, n - 1),
            lo[n - 1] as int,
            place(s, n - 1),
            hi[n - 1] - lo[n - 1] + 1,
            weighted(hi, s, n - 1),
            hi[n - 1] as int,
        );
    }
}

proof fn lemma_weighted_grows(c: Seq<usize>, s: Seq<usize>, a: int, b: int)
    requires
        0 <= a <= b,
    ensures
        weighted(c, s, a) <= weighted(c, s, b),
    decreases b - a,
{
    if b > a {
        lemma_weighted_grows(c, s, a, b - 1);
        lemma_place_nonneg(s, b - 1);
        let x = c[b - 1] as int;
        let y = place(s, b - 1);
        assert(x * y >= 0) by (nonlinear_arith)
            requires
                x >= 0,
                y >= 0,
        ;
    }
}

/// Along the first `n` axes, the coordinates of `v` weigh back to `v % place(s, n)`.
proof fn lemma_weighted_coords(s: Seq<usize>, c: Seq<usize>, v: int, n: int)
    requires
        0 <= n <= s.len(),
        n <= c.len(),
        0 <= v,
        forall|j: int| 0 <= j < n ==> #[trigger] s[j] > 0,
        forall|j: int| 0 <= j < n ==> #[trigger] c[j] == coord_of(s, v, j),
    ensures
        place(s, n) > 0,
        weighted(c, s, n) == v % place(s, n),
    decreases n,
{
    if n == 0 {
        assert(v % 1 == 0) by (nonlinear_arith);
    } else {
        lemma_weighted_coords(s, c, v, n - 1);
        let p = place(s, n - 1);
        let z = s[n - 1] as int;
        lemma_mod_breakdown(v, p, z);
        assert(place(s, n) == p * z);
        assert(c[n - 1] * p == p * ((v / p) % z)) by (nonlinear_arith)
            requires
                c[n - 1] == (v / p) % z,
        ;
    }
}

/// A point inside the grid along the first `n` axes weighs less than `place(s, n)`.
proof fn lemma_weighted_below(c: Seq<usize>, s: Seq<usize>, n: int)
    requires
        0 <= n <= s.len(),
        n <= c.len(),
        forall|j: int| 0 <= j < n ==> #[trigger] c[j] < s[j],
    ensures
        0 <= weighted(c, s, n) < place(s, n),
    decreases n,
{
    if n > 0 {
        lemma_weighted_below(c, s, n - 1);
        let w = weighted(c, s, n - 1);
        let p = place(s, n - 1);
        let x = c[n - 1] as int;
        let z = s[n - 1] as int;
        assert(0 <= w + x * p < p * z) by (nonlinear_arith)
            requires
                0 <= w < p,
                0 <= x < z,
        ;
    }
}

/// The weight along the first `n` axes leaves the weight along the first `k` as remainder.
proof fn lemma_weighted_mod(c: Seq<usize>, s: Seq<usize>, k: int, n: int)
    requires
        0 <= k <= n <= s.len(),
        n <= c.len(),
        forall|j: int| 0 <= j < n ==> #[trigger] c[j] < s[j],
    ensures
        place(s, k) > 0,
        weighted(c, s, n) % place(s, k) == weighted(c, s, k),
    decreases n - k,
{
    lemma_weighted_below(c, s, k);
    if n == k {
        lemma_small_mod(weighted(c, s, k) as nat, place(s, k) as nat);
    } else {
        lemma_weighted_mod(c, s, k, n - 1);
        lemma_weighted_below(c, s, n - 1);
        lemma_place_split(s, k, n - 1);
        lemma_place_nonneg(s, n - 1);
        let pk = place(s, k);
        let sp = span(s, k, n - 1);
        let x = c[n - 1] as int;
        let w = weighted(c, s, n - 1);
        assert(x * place(s, n - 1) == pk * (x * sp)) by (nonlinear_arith)
            requires
                place(s, n - 1) == pk * sp,
        ;
        lemma_mod_multiples_vanish(x * sp, w, pk);
        assert(weighted(c, s, n) == pk * (x * sp) + w);
    }
}

/// The weight of a point inside the grid along the first `n` axes gives back its coordinates.
proof fn lemma_coords_of_weighted(s: Seq<usize>, c: Seq<usize>, n: int)
    requires
        0 <= n <= s.len(),
        n <= c.len(),
        forall|j: int| 0 <= j < n ==> #[trigger] c[j] < s[j],
    ensures
        0 <= weighted(c, s, n) < place(s, n),
        forall|i: int| 0 <= i < n ==> coord_of(s, weighted(c, s, n), i) == #[trigger] c[i],
{
    let w = weighted(c, s, n);
    lemma_weighted_below(c, s, n);
    assert forall|i: int| 0 <= i < n implies coord_of(s, w, i) == #[trigger] c[i] by {
        lemma_weighted_mod(c, s, i, n);
        lemma_weighted_mod(c, s, i + 1, n);
        lemma_weighted_below(c, s, i);
        let p = place(s, i);
        let z = s[i] as int;
        lemma_mod_breakdown(w, p, z);
        assert(place(s, i + 1) == p * z);
        let q = (w / p) % z;
        let x = c[i] as int;
        assert(p * q + weighted(c, s, i) == weighted(c, s, i) + x * p);
        assert(q == x) by (nonlinear_arith)
            requires
                p * q == x * p,
                p > 0,
        ;
    }
}

/// Changing coordinate `i` to `x` moves the weight by `(x - c[i]) * place(s, i)`.
proof fn lemma_weighted_shift(c: Seq<usize>, s: Seq<usize>, n: int, i: int, x: usize)
    requires
        0 <= i < n <= c.len(),
    ensures
        weighted(c.update(i, x), s, n) == weighted(c, s, n) + (x - c[i]) * place(s, i),
    decreases n,
{
    let c2 = c.update(i, x);
    if n - 1 == i {
        assert forall|j: int| 0 <= j < i implies c2[j] == c[j] by {}
        lemma_weighted_same_prefix(c, c2, s, i);
        let p = place(s, i);
        assert(x * p == c[i] * p + (x - c[i]) * p) by (nonlinear_arith);
    } else {
        lemma_weighted_shift(c, s, n - 1, i, x);
    }
}

/// `weighted` along the first `n` axes reads only the first `n` coordinates.
proof fn lemma_weighted_same_prefix(c1: Seq<usize>, c2: Seq<usize>, s: Seq<usize>, n: int)
    requires
        forall|j: int| 0 <= j < n ==> c1[j] == c2[j],
    ensures
        weighted(c1, s, n) == weighted(c2, s, n),
    decreases n,
{
    if n > 0 {
        lemma_weighted_same_prefix(c1, c2, s, n - 1);
    }
}

/// The neighbours of `v` one step down, axis by axis, among the first `i` axes.
pub open spec fn steps_down(s: Seq<usize>, v: int, i: int) -> Seq<usize>
    decreases i,
{
    if i <= 0 {
        Seq::empty()
    } else {
        steps_down(s, v, i - 1) + if coord_of(s, v, i - 1) != 0 {
            seq![(v - place(s, i - 1)) as usize]
        } else {
            Seq::empty()
        }
    }
}

/// The neighbours of `v` one step up, axis by axis, among the first `i` axes.
pub open spec fn steps_up(s: Seq<usize>, v: int, i: int) -> Seq<usize>
    decreases i,
{
    if i <= 0 {
        Seq::empty()
    } else {
        steps_up(s, v, i - 1) + if coord_of(s, v, i - 1) + 1 != s[i - 1] {
            seq![(v + place(s, i - 1)) as usize]
        } else {
            Seq::empty()
        }
    }
}

impl<const N: usize> Graph for Grid<N> {
    open spec fn graph_ok(&self) -> bool {
        self.wf()
    }

    open spec fn has_vertex(&self, vertex: usize) -> bool {
        vertex < self.vertex_count()
    }

    open spec fn neighbors_ok(&self, vertex: usize, r: Seq<usize>) -> bool {
        r == steps_down(self.dims(), vertex as int, N as int) + steps_up(
            self.dims(),
            vertex as int,
            N as int,
        )
    }

    /// The vertices one step down along each axis, then those one step up.
    fn neighbors(&self, vertex: usize) -> (r: Vec<usize>) {
        proof {
            lemma_sizes_pos(self.dims(), N as int);
        }
        let mut r: Vec<usize> = Vec::new();
        let mut i: usize = 0;
        while i < N
            invariant
                self.wf(),
                vertex < self.vertex_count(),
                forall|j: int| 0 <= j < N ==> #[trigger] self.dims()[j] > 0,
                forall|j: int| 0 <= j <= N ==> 0 < #[trigger] place(self.dims(), j) <= place(self.dims(), N as int),
                i <= N,
                r@ == steps_down(self.dims(), vertex as int, i as int),
            decreases N - i,
        {
            if self.ith_coord(vertex, i) != 0 {
                proof {
                    lemma_step_down(self.dims(), N as int, vertex as int, i as int);
                }
                r.push(vertex - self.offsets[i]);
            }
            i += 1;
        }
        let mut i: usize = 0;
        while i < N
            invariant
                self.wf(),
                vertex < self.vertex_count(),
                forall|j: int| 0 <= j < N ==> #[trigger] self.dims()[j] > 0,
                forall|j: int| 0 <= j <= N ==> 0 < #[trigger] place(self.dims(), j) <= place(self.dims(), N as int),
                i <= N,
                r@ == steps_down(self.dims(), vertex as int, N as int) + steps_up(
                    self.dims(),
                    vertex as int,
                    i as int,
                ),
            decreases N - i,
        {
            let c = self.ith_coord(vertex, i);
            if c + 1 != self.sizes[i] {
                proof {
                    lemma_mod_pos_bound((vertex as int) / place(self.dims(), i as int), self.dims()[i as int] as int);
                    lemma_div_pos_is_pos(vertex as int, place(self.dims(), i as int));
                    lemma_step_up(self.dims(), N as int, vertex as int, i as int);
                }
                r.push(vertex + self.offsets[i]);
            }
            i += 1;
        }
        r
    }
}

impl<const N: usize> IterableGraph for Grid<N> {
    open spec fn listed(&self, v: usize) -> bool {
        self.has_vertex(v)
    }

    /// The vertices `0..size` in increasing order.
    fn iter(&self) -> (r: Vec<usize>)
        ensures
            r@.len() == self.vertex_count(),
            forall|i: int| 0 <= i < r@.len() ==> #[trigger] r@[i] == i,
    {
        let mut r: Vec<usize> = Vec::new();
        let mut i: usize = 0;
        while i < self.size
            invariant
                i <= self.size,
                r@.len() == i,
                forall|j: int| 0 <= j < i ==> #[trigger] r@[j] == j,
            decreases self.size - i,
        {
            r.push(i);
            i += 1;
        }
        proof {
            assert forall|v: usize| r@.contains(v) <==> self.has_vertex(v) by {
                if v < self.size {
                    assert(r@[v as int] == v);
                }
            }
        }
        r
    }
}

proof fn lemma_dot_is_weighted(c: Seq<usize>, o: Seq<usize>, s: Seq<usize>, n: int)
    requires
        0 <= n <= o.len(),
        forall|i: int| 0 <= i < n ==> #[trigger] o[i] == place(s, i),
    ensures
        dot_prefix(c, o, n) == weighted(c, s, n),
    decreases n,
{
    if n > 0 {
        lemma_dot_is_weighted(c, o, s, n - 1);
        assert(o[n - 1] == place(s, n - 1));
    }
}

} // verus!
