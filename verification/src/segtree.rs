//! A range-aggregate structure over a fixed set of positions: point update and
//! associative range query in logarithmic time, on an implicit binary tree.

use vstd::prelude::*;

verus! {

/// An associative binary operator with a two-sided identity element.
///
/// The operator is given as a type so that the tree can be monomorphized over
/// it; implementors must prove associativity and the identity laws, and supply
/// executable versions of the operator and its identity.
pub trait BinOp<T>: Sized {
    /// The mathematical operator.
    spec fn op(a: T, b: T) -> T;

    /// The mathematical identity element.
    spec fn id() -> T;

    /// The operator is associative.
    proof fn lemma_associative(a: T, b: T, c: T)
        ensures
            Self::op(Self::op(a, b), c) == Self::op(a, Self::op(b, c)),
    ;

    /// The identity element is neutral on both sides.
    proof fn lemma_identity(a: T)
        ensures
            Self::op(Self::id(), a) == a,
            Self::op(a, Self::id()) == a,
    ;

    /// Executable operator.
    fn exec_op(a: &T, b: &T) -> (r: T)
        ensures
            r == Self::op(*a, *b),
    ;

    /// Executable identity element.
    fn exec_id() -> (r: T)
        ensures
            r == Self::id(),
    ;
}

/// The left-to-right fold of `op` over `s[lo..hi]`, starting from the
/// identity; the empty range folds to the identity.
pub open spec fn fold_range<T, Op: BinOp<T>>(s: Seq<T>, lo: int, hi: int) -> T
    decreases hi - lo,
{
    if lo >= hi {
        Op::id()
    } else {
        Op::op(s[lo], fold_range::<T, Op>(s, lo + 1, hi))
    }
}

/// A fold splits at any midpoint: fold over `[lo, hi)` is the fold over
/// `[lo, mid)` combined with the fold over `[mid, hi)`.
pub proof fn lemma_fold_concat<T, Op: BinOp<T>>(s: Seq<T>, lo: int, mid: int, hi: int)
    requires
        0 <= lo <= mid <= hi <= s.len(),
    ensures
        fold_range::<T, Op>(s, lo, hi) == Op::op(
            fold_range::<T, Op>(s, lo, mid),
            fold_range::<T, Op>(s, mid, hi),
        ),
    decreases mid - lo,
{
    if lo == mid {
        assert(fold_range::<T, Op>(s, lo, mid) == Op::id());
        Op::lemma_identity(fold_range::<T, Op>(s, mid, hi));
    } else {
        lemma_fold_concat::<T, Op>(s, lo + 1, mid, hi);
        Op::lemma_associative(
            s[lo],
            fold_range::<T, Op>(s, lo + 1, mid),
            fold_range::<T, Op>(s, mid, hi),
        );
        assert(fold_range::<T, Op>(s, lo, hi) == Op::op(
            s[lo],
            fold_range::<T, Op>(s, lo + 1, hi),
        ));
        assert(fold_range::<T, Op>(s, lo, mid) == Op::op(
            s[lo],
            fold_range::<T, Op>(s, lo + 1, mid),
        ));
    }
}

/// Folds only read the elements in range: two sequences that agree on
/// `[lo, hi)` fold to the same value there.
pub proof fn lemma_fold_congruence<T, Op: BinOp<T>>(s1: Seq<T>, s2: Seq<T>, lo: int, hi: int)
    requires
        0 <= lo,
        hi <= s1.len(),
        hi <= s2.len(),
        forall|i: int| lo <= i < hi ==> s1[i] == s2[i],
    ensures
        fold_range::<T, Op>(s1, lo, hi) == fold_range::<T, Op>(s2, lo, hi),
    decreases hi - lo,
{
    if lo < hi {
        lemma_fold_congruence::<T, Op>(s1, s2, lo + 1, hi);
    }
}

/// A run of identity elements folds to the identity.
pub proof fn lemma_fold_identity_run<T, Op: BinOp<T>>(s: Seq<T>, lo: int, hi: int)
    requires
        0 <= lo,
        hi <= s.len(),
        forall|i: int| lo <= i < hi ==> s[i] == Op::id(),
    ensures
        fold_range::<T, Op>(s, lo, hi) == Op::id(),
    decreases hi - lo,
{
    if lo < hi {
        lemma_fold_identity_run::<T, Op>(s, lo + 1, hi);
        Op::lemma_identity(Op::id());
    }
}

/// `w` is a power of two.
pub open spec fn is_pow2(w: nat) -> bool
    decreases w,
{
    if w == 0 {
        false
    } else if w == 1 {
        true
    } else {
        w % 2 == 0 && is_pow2(w / 2)
    }
}

/// `m` is a strict ancestor of node `q` in the implicit tree, that is, one of
/// `q / 2`, `q / 4`, and so on down to the root.
pub open spec fn is_ancestor(q: int, m: int) -> bool
    decreases q,
{
    if q <= 0 {
        false
    } else {
        m == q / 2 || is_ancestor(q / 2, m)
    }
}

proof fn lemma_ancestor_le_half(q: int, m: int)
    requires
        is_ancestor(q, m),
    ensures
        m <= q / 2,
    decreases q,
{
    if q > 0 && m != q / 2 {
        lemma_ancestor_le_half(q / 2, m);
    }
}

proof fn lemma_ancestor_parent(q: int, k: int)
    requires
        is_ancestor(q, k),
        k >= 1,
    ensures
        is_ancestor(q, k / 2),
    decreases q,
{
    if q > 0 {
        if k == q / 2 {
            assert(is_ancestor(q / 2, k / 2));
        } else {
            lemma_ancestor_parent(q / 2, k);
        }
    }
}

/// Among the ancestors of `q`, those at or below a chain node `k` other than
/// `k` itself lie at or below `k / 2`.
proof fn lemma_ancestor_below(q: int, k: int, m: int)
    requires
        k == q || is_ancestor(q, k),
        is_ancestor(q, m),
        m <= k,
        m != k,
    ensures
        m <= k / 2,
    decreases q,
{
    if q > 0 {
        if k == q {
            lemma_ancestor_le_half(q, m);
        } else {
            if m == q / 2 {
                lemma_ancestor_le_half(q, k);
                assert(false);
            } else {
                lemma_ancestor_below(q / 2, k, m);
            }
        }
    }
}

/// A range-aggregate tree: a dense array of `2 * size` slots whose upper half
/// holds the per-position values (padded with identities up to the next power
/// of two) and whose lower half caches the operator applied to each pair of
/// children.
pub struct SegmentTree<T, Op: BinOp<T>> {
    n: usize,
    size: usize,
    data: Vec<T>,
    op: core::marker::PhantomData<Op>,
}

impl<T: Copy, Op: BinOp<T>> SegmentTree<T, Op> {
    /// All `size` leaf slots, padding included.
    closed spec fn leaves(&self) -> Seq<T> {
        self.data@.subrange(self.size as int, 2 * self.size as int)
    }

    /// The current value of each of the `n` positions.
    pub closed spec fn values(&self) -> Seq<T> {
        self.data@.subrange(self.size as int, self.size + self.n)
    }

    /// Structural invariant: power-of-two leaf count, identity padding, and
    /// every internal node caching the operator applied to its children.
    pub closed spec fn wf(&self) -> bool {
        &&& 1 <= self.size
        &&& self.n <= self.size
        &&& 2 * self.size <= usize::MAX
        &&& self.data@.len() == 2 * self.size
        &&& is_pow2(self.size as nat)
        &&& (forall|k: int|
            1 <= k < self.size ==> self.data@[k] == Op::op(
                #[trigger] self.data@[2 * k],
                self.data@[2 * k + 1],
            ))
        &&& (forall|i: int|
            self.size + self.n <= i < 2 * self.size ==> #[trigger] self.data@[i] == Op::id())
    }

    /// A node `j` that spans `w` leaves holds the fold of exactly those leaves.
    proof fn lemma_node_fold(&self, j: int, w: nat)
        requires
            self.wf(),
            1 <= j,
            is_pow2(w),
            self.size <= j * w,
            (j + 1) * w <= 2 * self.size,
        ensures
            self.data@[j] == fold_range::<T, Op>(
                self.leaves(),
                j * w - self.size,
                (j + 1) * w - self.size,
            ),
        decreases w,
    {
        if w == 1 {
            assert(j * w == j && (j + 1) * w == j + 1) by (nonlinear_arith)
                requires
                    w == 1,
            ;
            assert(self.size <= j < 2 * self.size);
            let lo = j - self.size;
            assert(fold_range::<T, Op>(self.leaves(), lo + 1, lo + 1) == Op::id());
            assert(fold_range::<T, Op>(self.leaves(), lo, lo + 1) == Op::op(
                self.leaves()[lo],
                Op::id(),
            ));
            Op::lemma_identity(self.leaves()[lo]);
            assert(self.leaves()[lo] == self.data@[j]);
        } else {
            let w2 = (w / 2) as nat;
            assert(w % 2 == 0 && is_pow2(w2));
            assert(w == 2 * w2);
            assert((2 * j) * w2 == j * w && (2 * j + 1) * w2 == j * w + w2 && (2 * j + 2) * w2 == (
            j + 1) * w && (j + 1) * w == j * w + w) by (nonlinear_arith)
                requires
                    w == 2 * w2,
            ;
            self.lemma_node_fold(2 * j, w2);
            self.lemma_node_fold(2 * j + 1, w2);
            assert(j < self.size) by (nonlinear_arith)
                requires
                    (j + 1) * w <= 2 * self.size,
                    w >= 2,
                    j >= 1,
                    self.size >= 1,
            ;
            lemma_fold_concat::<T, Op>(
                self.leaves(),
                j * w - self.size,
                j * w + w2 - self.size,
                (j + 1) * w - self.size,
            );
        }
    }

    /// Builds a tree over the given initial values.
    pub fn from(values: &[T]) -> (r: Self)
        requires
            4 * values@.len() <= usize::MAX,
        ensures
            r.wf(),
            r.values() == values@,
    {
        let n = values.len();
        let mut size: usize = 1;
        while size < n
            invariant
                1 <= size,
                is_pow2(size as nat),
                size == 1 || size < 2 * n,
                4 * n <= usize::MAX,
            decreases 2 * n - size,
        {
            size = size * 2;
        }
        assert(n <= size && 2 * size <= usize::MAX);
        let id = Op::exec_id();
        let mut data: Vec<T> = Vec::new();
        let mut i: usize = 0;
        while i < size
            invariant
                data@.len() == i,
                i <= size,
                2 * size <= usize::MAX,
                forall|k: int| 0 <= k < i ==> data@[k] == Op::id(),
                id == Op::id(),
            decreases size - i,
        {
            data.push(id);
            i = i + 1;
        }
        let mut i: usize = 0;
        while i < n
            invariant
                data@.len() == size + i,
                i <= n,
                n <= size,
                2 * size <= usize::MAX,
                n == values@.len(),
                forall|k: int| 0 <= k < size ==> data@[k] == Op::id(),
                forall|k: int| size <= k < size + i ==> data@[k] == values@[k - size],
                id == Op::id(),
            decreases n - i,
        {
            data.push(values[i]);
            i = i + 1;
        }
        let mut i: usize = size + n;
        while i < 2 * size
            invariant
                data@.len() == i,
                size + n <= i,
                i <= 2 * size,
                n <= size,
                2 * size <= usize::MAX,
                n == values@.len(),
                forall|k: int| 0 <= k < size ==> data@[k] == Op::id(),
                forall|k: int| size <= k < size + n ==> data@[k] == values@[k - size],
                forall|k: int| size + n <= k < i ==> #[trigger] data@[k] == Op::id(),
                id == Op::id(),
            decreases 2 * size - i,
        {
            data.push(id);
            i = i + 1;
        }
        let mut k: usize = size - 1;
        while k >= 1
            invariant
                data@.len() == 2 * size,
                k <= size - 1,
                n <= size,
                1 <= size,
                2 * size <= usize::MAX,
                n == values@.len(),
                forall|j: int| size <= j < size + n ==> data@[j] == values@[j - size],
                forall|j: int| size + n <= j < 2 * size ==> #[trigger] data@[j] == Op::id(),
                forall|j: int|
                    k < j < size ==> data@[j] == Op::op(
                        #[trigger] data@[2 * j],
                        data@[2 * j + 1],
                    ),
            decreases k,
        {
            let v = Op::exec_op(&data[2 * k], &data[2 * k + 1]);
            data.set(k, v);
            k = k - 1;
        }
        let r = SegmentTree { n, size, data, op: core::marker::PhantomData };
        assert(r.values() =~= values@);
        r
    }

    /// Builds a tree of `n` positions, each holding the identity.
    pub fn new(n: usize) -> (r: Self)
        requires
            4 * n <= usize::MAX,
        ensures
            r.wf(),
            r.values() =~= Seq::new(n as nat, |i: int| Op::id()),
    {
        let id = Op::exec_id();
        let mut init: Vec<T> = Vec::new();
        let mut i: usize = 0;
        while i < n
            invariant
                init@.len() == i,
                i <= n,
                forall|k: int| 0 <= k < i ==> init@[k] == Op::id(),
                id == Op::id(),
            decreases n - i,
        {
            init.push(id);
            i = i + 1;
        }
        let r = Self::from(init.as_slice());
        assert(r.values() =~= Seq::new(n as nat, |i: int| Op::id()));
        r
    }

    /// Reads the current value at a position.
    pub fn get(&self, p: usize) -> (r: T)
        requires
            self.wf(),
            p < self.values().len(),
        ensures
            r == self.values()[p as int],
    {
        self.data[p + self.size]
    }

    /// Writes a value at a position and recomputes the ancestor chain of its
    /// leaf, restoring the internal-node invariant.
    pub fn set(&mut self, p: usize, x: T)
        requires
            old(self).wf(),
            p < old(self).values().len(),
        ensures
            final(self).wf(),
            final(self).values() == old(self).values().update(p as int, x),
    {
        let q = p + self.size;
        self.data.set(q, x);
        let ghost qi = q as int;
        let mut k = q / 2;
        while k >= 1
            invariant
                1 <= self.size,
                self.n <= self.size,
                2 * self.size <= usize::MAX,
                self.data@.len() == 2 * self.size,
                is_pow2(self.size as nat),
                qi == p + self.size,
                p < self.n,
                k == qi || is_ancestor(qi, k as int),
                k < self.size,
                self.size == old(self).size,
                self.n == old(self).n,
                forall|i: int|
                    self.size <= i < 2 * self.size && i != qi ==> self.data@[i] == old(
                        self,
                    ).data@[i],
                self.data@[qi] == x,
                forall|j: int|
                    1 <= j < self.size && !(is_ancestor(qi, j) && j <= k) ==> self.data@[j]
                        == Op::op(#[trigger] self.data@[2 * j], self.data@[2 * j + 1]),
            decreases k,
        {
            let v = Op::exec_op(&self.data[2 * k], &self.data[2 * k + 1]);
            self.data.set(k, v);
            proof {
                let ki = k as int;
                lemma_ancestor_parent(qi, ki);
                assert forall|j: int|
                    1 <= j < self.size && !(is_ancestor(qi, j) && j <= ki / 2) implies self.data@[j]
                    == Op::op(#[trigger] self.data@[2 * j], self.data@[2 * j + 1]) by {
                    if j != ki && is_ancestor(qi, j) && j <= ki {
                        lemma_ancestor_below(qi, ki, j);
                    }
                }
            }
            k = k / 2;
        }
        assert(self.values() =~= old(self).values().update(p as int, x));
    }

    /// Folds the operator over the half-open range `[start, end)` of
    /// positions, in left-to-right order; an empty range yields the identity.
    pub fn prod(&self, start: usize, end: usize) -> (r: T)
        requires
            self.wf(),
            start <= end,
            end <= self.values().len(),
        ensures
            r == fold_range::<T, Op>(self.values(), start as int, end as int),
    {
        let ghost lv = self.leaves();
        let ghost a0 = start as int;
        let ghost b0 = end as int;
        let mut sml = Op::exec_id();
        let mut smr = Op::exec_id();
        let mut l = start + self.size;
        let mut r = end + self.size;
        let ghost mut w: nat = 1;
        proof {
            Op::lemma_identity(Op::id());
            assert(fold_range::<T, Op>(lv, a0, a0) == Op::id());
            assert(fold_range::<T, Op>(lv, b0, b0) == Op::id());
        }
        while l < r
            invariant
                self.wf(),
                is_pow2(w),
                l <= r,
                0 <= a0 <= b0 <= self.n,
                self.size <= l * w,
                r * w <= 2 * self.size,
                a0 + self.size <= l * w,
                r * w <= b0 + self.size,
                sml == fold_range::<T, Op>(lv, a0, l * w - self.size),
                smr == fold_range::<T, Op>(lv, r * w - self.size, b0),
                lv == self.leaves(),
            decreases r - l,
        {
            proof {
                assert(l * w + w == (l + 1) * w && (l + 1) * w <= r * w && l * w <= r * w && l
                    <= l * w && r <= r * w) by (nonlinear_arith)
                    requires
                        l < r,
                        w >= 1,
                        l >= 0,
                ;
            }
            if l % 2 == 1 {
                proof {
                    self.lemma_node_fold(l as int, w);
                    lemma_fold_concat::<T, Op>(lv, a0, l * w - self.size, (l + 1) * w - self.size);
                }
                sml = Op::exec_op(&sml, &self.data[l]);
                l = l + 1;
            }
            if r % 2 == 1 {
                proof {
                    assert((r - 1) * w == r * w - w && l * w <= (r - 1) * w) by (nonlinear_arith)
                        requires
                            l <= r - 1,
                            w >= 1,
                            l >= 0,
                    ;
                }
                r = r - 1;
                proof {
                    self.lemma_node_fold(r as int, w);
                    lemma_fold_concat::<T, Op>(lv, r * w - self.size, (r + 1) * w - self.size, b0);
                }
                smr = Op::exec_op(&self.data[r], &smr);
            }
            proof {
                assert(l % 2 == 0 && r % 2 == 0 && l <= r);
                assert((l / 2) * (2 * w) == l * w && (r / 2) * (2 * w) == r * w) by (
                nonlinear_arith)
                    requires
                        l % 2 == 0,
                        r % 2 == 0,
                        w >= 0,
                ;
                w = 2 * w;
            }
            l = l / 2;
            r = r / 2;
        }
        proof {
            lemma_fold_concat::<T, Op>(lv, a0, l * w - self.size, b0);
            lemma_fold_congruence::<T, Op>(self.values(), lv, a0, b0);
        }
        Op::exec_op(&sml, &smr)
    }

    /// The fold over all positions, read from the cached root.
    pub fn all_prod(&self) -> (r: T)
        requires
            self.wf(),
        ensures
            r == fold_range::<T, Op>(self.values(), 0, self.values().len() as int),
    {
        proof {
            assert(1 * (self.size as nat) == self.size && 2 * (self.size as nat) == 2 * self.size);
            self.lemma_node_fold(1, self.size as nat);
            lemma_fold_concat::<T, Op>(self.leaves(), 0, self.n as int, self.size as int);
            lemma_fold_identity_run::<T, Op>(self.leaves(), self.n as int, self.size as int);
            Op::lemma_identity(fold_range::<T, Op>(self.leaves(), 0, self.n as int));
            lemma_fold_congruence::<T, Op>(self.values(), self.leaves(), 0, self.n as int);
        }
        self.data[1]
    }
}

/// Maximum of two values, with the least value as identity.
pub struct MaxI32;

/// Minimum of two values, with the greatest value as identity.
pub struct MinI32;

impl BinOp<i32> for MaxI32 {
    open spec fn op(a: i32, b: i32) -> i32 {
        if a >= b {
            a
        } else {
            b
        }
    }

    open spec fn id() -> i32 {
        i32::MIN
    }

    proof fn lemma_associative(a: i32, b: i32, c: i32) {
    }

    proof fn lemma_identity(a: i32) {
    }

    fn exec_op(a: &i32, b: &i32) -> (r: i32) {
        if *a >= *b {
            *a
        } else {
            *b
        }
    }

    fn exec_id() -> (r: i32) {
        i32::MIN
    }
}

impl BinOp<i32> for MinI32 {
    open spec fn op(a: i32, b: i32) -> i32 {
        if a <= b {
            a
        } else {
            b
        }
    }

    open spec fn id() -> i32 {
        i32::MAX
    }

    proof fn lemma_associative(a: i32, b: i32, c: i32) {
    }

    proof fn lemma_identity(a: i32) {
    }

    fn exec_op(a: &i32, b: &i32) -> (r: i32) {
        if *a <= *b {
            *a
        } else {
            *b
        }
    }

    fn exec_id() -> (r: i32) {
        i32::MAX
    }
}

} // verus!
