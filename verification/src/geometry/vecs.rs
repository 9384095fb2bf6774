use vstd::prelude::*;

verus! {

/// An array of `N` values built by calling `f` on each index in turn.
///
/// Calls `std::array::from_fn`, which calls `f` once for each index from `0` to `N - 1` and
/// stores its answer at that index; the contract claims exactly that.
#[verifier::external_body]
fn array_from_fn<T, const N: usize, F: Fn(usize) -> T>(f: F) -> (r: [T; N])
    requires
        forall|i: usize| i < N ==> #[trigger] f.requires((i,)),
    ensures
        forall|i: int| 0 <= i < N ==> f.ensures((i as usize,), #[trigger] r@[i]),
{
    std::array::from_fn(f)
}

/// The array whose entry `i` is `f(a[i])`.
///
/// Calls `<[T; N]>::map`, which applies `f` to each entry in order; the contract claims that
/// each answer lands at the index of its argument.
#[verifier::external_body]
fn array_map<T, U, const N: usize, F: Fn(T) -> U>(a: [T; N], f: F) -> (r: [U; N])
    requires
        forall|i: int| 0 <= i < N ==> #[trigger] f.requires((a@[i],)),
    ensures
        forall|i: int| 0 <= i < N ==> f.ensures((a@[i],), #[trigger] r@[i]),
{
    a.map(f)
}

/// `a[0] * b[0] + ... + a[n - 1] * b[n - 1]`.
pub open spec fn dot_prefix(a: Seq<usize>, b: Seq<usize>, n: int) -> int
    decreases n,
{
    if n <= 0 {
        0
    } else {
        dot_prefix(a, b, n - 1) + a[n - 1] * b[n - 1]
    }
}

proof fn lemma_dot_prefix_grows(a: Seq<usize>, b: Seq<usize>, m: int, n: int)
    requires
        0 <= m <= n,
    ensures
        0 <= dot_prefix(a, b, m) <= dot_prefix(a, b, n),
    decreases n,
{
    if n > m {
        lemma_dot_prefix_grows(a, b, m, n - 1);
        assert(a[n - 1] * b[n - 1] >= 0) by (nonlinear_arith)
            requires
                a[n - 1] >= 0,
                b[n - 1] >= 0,
        ;
    } else if m > 0 {
        lemma_dot_prefix_grows(a, b, m - 1, m - 1);
        assert(a[m - 1] * b[m - 1] >= 0) by (nonlinear_arith)
            requires
                a[m - 1] >= 0,
                b[m - 1] >= 0,
        ;
    }
}

/// The pair of the entries at index `i` of `a` and `b`.
pub open spec fn pair_at<T, U>(a: Seq<T>, b: Seq<U>, i: usize) -> (T, U) {
    (a[i as int], b[i as int])
}

/// A point or vector with `N` components.
#[derive(Clone, Copy, PartialEq, Debug)]
pub struct VecN<const N: usize, T>(pub [T; N]);

impl<const N: usize, T: Copy> VecN<N, T> {
    /// The vector whose component `i` is `f(i)`.
    pub fn from_fn<F: Fn(usize) -> T>(f: F) -> (v: Self)
        requires
            forall|i: usize| i < N ==> #[trigger] f.requires((i,)),
        ensures
            forall|i: int| 0 <= i < N ==> f.ensures((i as usize,), #[trigger] v.0@[i]),
    {
        VecN(array_from_fn(f))
    }

    /// The vector with every component equal to `value`.
    pub fn splat(value: T) -> (v: Self)
        ensures
            forall|i: int| 0 <= i < N ==> #[trigger] v.0@[i] == value,
    {
        VecN([value; N])
    }
}

impl<const N: usize, T: Copy> VecN<N, T> {
    /// The vector whose component `i` is `f` applied to component `i` of `self`.
    pub fn map_component<U, F: Fn(T) -> U>(self, f: F) -> (v: VecN<N, U>)
        requires
            forall|i: int| 0 <= i < N ==> #[trigger] f.requires((self.0@[i],)),
        ensures
            forall|i: int| 0 <= i < N ==> f.ensures((self.0@[i],), #[trigger] v.0@[i]),
    {
        VecN(array_map(self.0, f))
    }

    /// The vector of the pairs of components of `self` and `other`.
    pub fn zip<U: Copy>(self, other: VecN<N, U>) -> (v: VecN<N, (T, U)>)
        ensures
            forall|i: int| 0 <= i < N ==> #[trigger] v.0@[i] == (self.0@[i], other.0@[i]),
    {
        let a = self.0;
        let b = other.0;
        let pick = |i: usize| -> (p: (T, U))
            requires
                i < N,
            ensures
                p == pair_at(a@, b@, i),
            { (a[i], b[i]) };
        let r = array_from_fn(pick);
        VecN(r)
    }
}

impl<const N: usize> VecN<N, usize> {
    /// The dot product of `self` and `other`.
    pub fn dot(self, other: Self) -> (r: usize)
        requires
            dot_prefix(self.0@, other.0@, N as int) <= usize::MAX,
        ensures
            r == dot_prefix(self.0@, other.0@, N as int),
    {
        let mut acc: usize = 0;
        let mut i: usize = 0;
        while i < N
            invariant
                i <= N,
                acc == dot_prefix(self.0@, other.0@, i as int),
                dot_prefix(self.0@, other.0@, N as int) <= usize::MAX,
            decreases N - i,
        {
            proof {
                lemma_dot_prefix_grows(self.0@, other.0@, i + 1, N as int);
                lemma_dot_prefix_grows(self.0@, other.0@, i as int, i as int);
            }
            acc = acc + self.0[i] * other.0[i];
            i += 1;
        }
        acc
    }
}

impl VecN<2, i64> {
    /// The vector turned a quarter turn counterclockwise: `(-y, x)`.
    pub fn rotate_left(self) -> (v: Self)
        requires
            self.0@[1] != i64::MIN,
        ensures
            v.0@[0] == -self.0@[1],
            v.0@[1] == self.0@[0],
    {
        let x = self.0[0];
        let y = self.0[1];
        VecN([-y, x])
    }

    /// The vector turned a quarter turn clockwise: `(y, -x)`.
    pub fn rotate_right(self) -> (v: Self)
        requires
            self.0@[0] != i64::MIN,
        ensures
            v.0@[0] == self.0@[1],
            v.0@[1] == -self.0@[0],
    {
        let x = self.0[0];
        let y = self.0[1];
        VecN([y, -x])
    }
}

impl<const N: usize> VecN<N, i64> {
    /// The index of the first largest component.
    pub fn max_component_index(self) -> (r: usize)
        requires
            N > 0,
        ensures
            r < N,
            forall|j: int| 0 <= j < N ==> #[trigger] self.0@[j] <= self.0@[r as int],
            forall|j: int| 0 <= j < r ==> #[trigger] self.0@[j] < self.0@[r as int],
    {
        let mut mx_i: usize = 0;
        let mut i: usize = 1;
        while i < N
            invariant
                1 <= i <= N,
                mx_i < i,
                forall|j: int| 0 <= j < i ==> #[trigger] self.0@[j] <= self.0@[mx_i as int],
                forall|j: int| 0 <= j < mx_i ==> #[trigger] self.0@[j] < self.0@[mx_i as int],
            decreases N - i,
        {
            if self.0[i] > self.0[mx_i] {
                mx_i = i;
            }
            i += 1;
        }
        mx_i
    }
}

} // verus!
