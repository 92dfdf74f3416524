//! Elementwise operations: equality, elementwise addition and subtraction
//! (new-array and in-place, with wrapping 64-bit arithmetic), `map`,
//! broadcasting assignment, axis reductions (sum, mean), the diagonal, and
//! matrix multiplication.

use vstd::prelude::*;
use crate::dim::{
    product, in_bounds, count_limit, unflatten, flatten, lemma_product_nonneg, lemma_product_pos,
    lemma_axis_le_product, lemma_unflatten, lemma_flatten,
};
use crate::array::{Array, ArrayError, to_int, counts_ok, element_count};

verus! {

/// Truncated signed division, exactly as the machine's 64-bit division
/// rounds (towards zero). Only used with a nonzero divisor.
pub open spec fn tdiv(x: int, d: int) -> int {
    if x == 0 {
        0
    } else if x > 0 && d > 0 {
        x / d
    } else if x < 0 && d < 0 {
        (x * -1) / (d * -1)
    } else if x < 0 {
        ((x * -1) / d) * -1
    } else {
        (x / (d * -1)) * -1
    }
}

/// The sum (wrapping 64-bit) of the first `m` elements along `axis`, read
/// at the (rank-reduced) index `idx`.
pub open spec fn axis_sum(a: Array, axis: int, idx: Seq<int>, m: int) -> i64
    decreases m,
{
    if m <= 0 {
        0
    } else {
        axis_sum(a, axis, idx, m - 1).wrapping_add(a.at(idx.insert(axis, m - 1)))
    }
}

/// The dot product (wrapping 64-bit) of row `i` of `a` with column `j` of
/// `b`, over the first `m` terms.
pub open spec fn dotprod(a: Array, b: Array, i: int, j: int, m: int) -> i64
    decreases m,
{
    if m <= 0 {
        0
    } else {
        dotprod(a, b, i, j, m - 1).wrapping_add(
            a.at(seq![i, m - 1]).wrapping_mul(b.at(seq![m - 1, j])),
        )
    }
}

impl Array {
    /// Elementwise equality: true exactly when the shapes are identical and
    /// every corresponding element is equal. Arrays of different shape are
    /// never equal; no error is raised.
    pub fn eq(&self, other: &Array) -> (r: bool)
        requires
            self.wf(),
            other.wf(),
        ensures
            r == self.eq_array(other),
    {
        if !vecs_equal_usize(&self.shape, &other.shape) {
            return false;
        }
        let va = self.to_vec_logical();
        let vb = other.to_vec_logical();
        let r = vecs_equal_i64(&va, &vb);
        proof {
            if r {
                assert(self.logical() =~= other.logical());
            }
        }
        r
    }

    /// Elementwise sum into a new array of the same shape (wrapping 64-bit
    /// addition). Fails exactly when the shapes differ.
    pub fn add(&self, other: &Array) -> (r: Result<Array, ArrayError>)
        requires
            self.wf(),
            other.wf(),
        ensures
            match r {
                Ok(c) => {
                    &&& self.shape@ == other.shape@
                    &&& c.wf()
                    &&& c.shape@ == self.shape@
                    &&& c.logical() == Seq::new(
                        self.logical().len(),
                        |k: int| self.logical()[k].wrapping_add(other.logical()[k]),
                    )
                },
                Err(e) => {
                    ||| (e == ArrayError::ShapeMismatch && self.shape@ != other.shape@)
                    ||| (e == ArrayError::TooLarge && !counts_ok(self.shape@))
                },
            },
    {
        if !vecs_equal_usize(&self.shape, &other.shape) {
            return Err(ArrayError::ShapeMismatch);
        }
        proof {
            assert(self.shape@ =~= other.shape@);
            lemma_product_nonneg(self.shape@);
        }
        let va = self.to_vec_logical();
        let vb = other.to_vec_logical();
        let n = va.len();
        let mut vc: Vec<i64> = Vec::new();
        let mut k: usize = 0;
        while k < n
            invariant
                0 <= k <= n,
                n == va@.len(),
                vb@.len() == n,
                vc@.len() == k,
                forall|j: int|
                    0 <= j < k ==> #[trigger] vc@[j] == va@[j].wrapping_add(vb@[j]),
            decreases n - k,
        {
            vc.push(va[k].wrapping_add(vb[k]));
            k = k + 1;
        }
        let c = match Array::from_vec_dim(self.shape.clone(), vc) {
            Ok(c) => c,
            Err(_) => {
                return Err(ArrayError::TooLarge);
            },
        };
        proof {
            assert(c.logical() =~= Seq::new(
                self.logical().len(),
                |k: int| self.logical()[k].wrapping_add(other.logical()[k]),
            ));
        }
        Ok(c)
    }

    /// Elementwise difference into a new array of the same shape (wrapping
    /// 64-bit subtraction). Fails exactly when the shapes differ.
    pub fn sub(&self, other: &Array) -> (r: Result<Array, ArrayError>)
        requires
            self.wf(),
            other.wf(),
        ensures
            match r {
                Ok(c) => {
                    &&& self.shape@ == other.shape@
                    &&& c.wf()
                    &&& c.shape@ == self.shape@
                    &&& c.logical() == Seq::new(
                        self.logical().len(),
                        |k: int| self.logical()[k].wrapping_sub(other.logical()[k]),
                    )
                },
                Err(e) => {
                    ||| (e == ArrayError::ShapeMismatch && self.shape@ != other.shape@)
                    ||| (e == ArrayError::TooLarge && !counts_ok(self.shape@))
                },
            },
    {
        if !vecs_equal_usize(&self.shape, &other.shape) {
            return Err(ArrayError::ShapeMismatch);
        }
        proof {
            assert(self.shape@ =~= other.shape@);
            lemma_product_nonneg(self.shape@);
        }
        let va = self.to_vec_logical();
        let vb = other.to_vec_logical();
        let n = va.len();
        let mut vc: Vec<i64> = Vec::new();
        let mut k: usize = 0;
        while k < n
            invariant
                0 <= k <= n,
                n == va@.len(),
                vb@.len() == n,
                vc@.len() == k,
                forall|j: int|
                    0 <= j < k ==> #[trigger] vc@[j] == va@[j].wrapping_sub(vb@[j]),
            decreases n - k,
        {
            vc.push(va[k].wrapping_sub(vb[k]));
            k = k + 1;
        }
        let c = match Array::from_vec_dim(self.shape.clone(), vc) {
            Ok(c) => c,
            Err(_) => {
                return Err(ArrayError::TooLarge);
            },
        };
        proof {
            assert(c.logical() =~= Seq::new(
                self.logical().len(),
                |k: int| self.logical()[k].wrapping_sub(other.logical()[k]),
            ));
        }
        Ok(c)
    }

    /// In-place elementwise addition (wrapping). The shape, strides and
    /// offset stay what they were; only the elements change. Fails exactly
    /// when the shapes differ, leaving this array untouched.
    pub fn iadd(&mut self, other: &Array) -> (r: Result<(), ArrayError>)
        requires
            old(self).wf(),
            other.wf(),
        ensures
            final(self).wf(),
            final(self).shape@ == old(self).shape@,
            final(self).strides@ == old(self).strides@,
            final(self).offset == old(self).offset,
            match r {
                Ok(()) => {
                    &&& old(self).shape@ == other.shape@
                    &&& final(self).logical() == Seq::new(
                        old(self).logical().len(),
                        |k: int| old(self).logical()[k].wrapping_add(other.logical()[k]),
                    )
                },
                Err(e) => {
                    &&& e == ArrayError::ShapeMismatch
                    &&& old(self).shape@ != other.shape@
                    &&& final(self).logical() == old(self).logical()
                },
            },
    {
        if !vecs_equal_usize(&self.shape, &other.shape) {
            return Err(ArrayError::ShapeMismatch);
        }
        proof {
            assert(self.shape@ =~= other.shape@);
        }
        let vb = other.to_vec_logical();
        let total = self.count();
        let mut k: usize = 0;
        proof {
            lemma_product_nonneg(self.shape@);
        }
        while k < total
            invariant
                0 <= k <= total,
                self.wf(),
                self.shape@ == old(self).shape@,
                self.strides@ == old(self).strides@,
                self.offset == old(self).offset,
                total == self.count_spec(),
                vb@.len() == total,
                vb@ == other.logical(),
                self.logical().len() == total,
                old(self).logical().len() == total,
                forall|j: int|
                    0 <= j < k ==> #[trigger] self.logical()[j] == old(self).logical()[
                        j
                    ].wrapping_add(vb@[j]),
                forall|j: int|
                    k <= j < total ==> #[trigger] self.logical()[j] == old(self).logical()[j],
            decreases total - k,
        {
            let idx = self.index_at(k);
            let x = self.get(&idx);
            proof {
                lemma_unflatten(k as int, self.shape@);
                lemma_flatten(to_int(idx@), self.shape@);
                assert(x == self.logical()[k as int]);
            }
            let v = x.wrapping_add(vb[k]);
            self.set(&idx, v);
            k = k + 1;
        }
        proof {
            assert(self.logical() =~= Seq::new(
                old(self).logical().len(),
                |k: int| old(self).logical()[k].wrapping_add(other.logical()[k]),
            ));
        }
        Ok(())
    }

    /// A new array of the same shape with `f` applied to every element, in
    /// logical order.
    pub fn map<F: Fn(i64) -> i64>(&self, f: F) -> (r: Array)
        requires
            self.wf(),
            counts_ok(self.shape@),
            forall|x: i64| #[trigger] f.requires((x,)),
        ensures
            r.wf(),
            r.shape@ == self.shape@,
            r.logical().len() == self.logical().len(),
            forall|k: int|
                0 <= k < self.logical().len() ==> f.ensures(
                    (self.logical()[k],),
                    #[trigger] r.logical()[k],
                ),
    {
        proof {
            lemma_product_nonneg(self.shape@);
        }
        let va = self.to_vec_logical();
        let n = va.len();
        let mut vc: Vec<i64> = Vec::new();
        let mut k: usize = 0;
        while k < n
            invariant
                0 <= k <= n,
                n == va@.len(),
                vc@.len() == k,
                forall|x: i64| #[trigger] f.requires((x,)),
                forall|j: int| 0 <= j < k ==> f.ensures((va@[j],), #[trigger] vc@[j]),
            decreases n - k,
        {
            let y = f(va[k]);
            vc.push(y);
            k = k + 1;
        }
        let c = match Array::from_vec_dim(self.shape.clone(), vc) {
            Ok(c) => c,
            Err(_) => {
                proof {
                    assert(false);
                }
                vstd::pervasive::unreached()
            },
        };
        c
    }
}

/// Exact elementwise comparison of two usize vectors.
fn vecs_equal_usize(a: &Vec<usize>, b: &Vec<usize>) -> (r: bool)
    ensures
        r == (a@ == b@),
{
    if a.len() != b.len() {
        proof {
            assert(a@ != b@);
        }
        return false;
    }
    let n = a.len();
    let mut i: usize = 0;
    while i < n
        invariant
            0 <= i <= n,
            n == a@.len() == b@.len(),
            forall|j: int| 0 <= j < i ==> #[trigger] a@[j] == b@[j],
        decreases n - i,
    {
        if a[i] != b[i] {
            proof {
                assert(a@[i as int] != b@[i as int]);
            }
            return false;
        }
        i = i + 1;
    }
    proof {
        assert(a@ =~= b@);
    }
    true
}

/// Exact elementwise comparison of two element vectors.
fn vecs_equal_i64(a: &Vec<i64>, b: &Vec<i64>) -> (r: bool)
    ensures
        r == (a@ == b@),
{
    if a.len() != b.len() {
        proof {
            assert(a@ != b@);
        }
        return false;
    }
    let n = a.len();
    let mut i: usize = 0;
    while i < n
        invariant
            0 <= i <= n,
            n == a@.len() == b@.len(),
            forall|j: int| 0 <= j < i ==> #[trigger] a@[j] == b@[j],
        decreases n - i,
    {
        if a[i] != b[i] {
            proof {
                assert(a@[i as int] != b@[i as int]);
            }
            return false;
        }
        i = i + 1;
    }
    proof {
        assert(a@ =~= b@);
    }
    true
}


/// `src` broadcasts over `target`: aligned from the trailing axis, each of
/// `src`'s axes either matches or has length one (and is then replicated).
pub open spec fn broadcast_ok(target: Seq<usize>, src: Seq<usize>) -> bool {
    src.len() <= target.len() && forall|i: int|
        0 <= i < src.len() ==> #[trigger] src[i] == 1 || src[i] == target[
            target.len() - src.len() + i
        ]
}

/// The source index that a target index reads under broadcasting.
pub open spec fn broadcast_idx(idx: Seq<int>, target: Seq<usize>, src: Seq<usize>) -> Seq<int> {
    Seq::new(
        src.len() as nat,
        |i: int|
            if src[i] == 1 {
                0
            } else {
                idx[target.len() - src.len() + i]
            },
    )
}

/// The minimum axis length; the diagonal's length on arrays of rank one or
/// more.
pub open spec fn min_axis(shape: Seq<usize>) -> int
    decreases shape.len(),
{
    if shape.len() == 0 {
        0
    } else if shape.len() == 1 {
        shape[0] as int
    } else {
        let m = min_axis(shape.drop_first());
        if shape[0] <= m {
            shape[0] as int
        } else {
            m
        }
    }
}

impl Array {
    /// The element a valid index addresses equals the logical sequence at
    /// the index's row-major position.
    pub proof fn lemma_at_logical(&self, idx: Seq<int>)
        requires
            in_bounds(idx, self.shape@),
        ensures
            0 <= flatten(idx, self.shape@) < self.logical().len(),
            self.at(idx) == self.logical()[flatten(idx, self.shape@)],
    {
        lemma_flatten(idx, self.shape@);
    }

    /// Copies `other`'s elements into this array elementwise, replicating
    /// `other` across missing or length-one axes (aligned from the trailing
    /// axis). Shape, strides and offset stay what they were. Fails exactly
    /// when the shapes are not broadcast-compatible, leaving the elements
    /// untouched.
    pub fn assign(&mut self, other: &Array) -> (r: Result<(), ArrayError>)
        requires
            old(self).wf(),
            other.wf(),
        ensures
            final(self).wf(),
            final(self).shape@ == old(self).shape@,
            final(self).strides@ == old(self).strides@,
            final(self).offset == old(self).offset,
            match r {
                Ok(()) => {
                    &&& broadcast_ok(old(self).shape@, other.shape@)
                    &&& forall|idx: Seq<int>|
                        in_bounds(idx, old(self).shape@) ==> #[trigger] final(self).at(idx)
                            == other.at(broadcast_idx(idx, old(self).shape@, other.shape@))
                },
                Err(e) => {
                    &&& e == ArrayError::ShapeMismatch
                    &&& !broadcast_ok(old(self).shape@, other.shape@)
                    &&& final(self).logical() == old(self).logical()
                },
            },
    {
        let rank = self.shape.len();
        let orank = other.shape.len();
        if orank > rank {
            return Err(ArrayError::ShapeMismatch);
        }
        let off = rank - orank;
        let mut i: usize = 0;
        while i < orank
            invariant
                0 <= i <= orank,
                orank == other.shape@.len(),
                rank == self.shape@.len(),
                orank <= rank,
                off == rank - orank,
                old(self).wf(),
                self == old(self),
                forall|j: int|
                    0 <= j < i ==> #[trigger] other.shape@[j] == 1 || other.shape@[j]
                        == self.shape@[off + j],
            decreases orank - i,
        {
            if other.shape[i] != 1 && other.shape[i] != self.shape[off + i] {
                proof {
                    assert(self.wf());
                    assert(!broadcast_ok(self.shape@, other.shape@)) by {
                        if broadcast_ok(self.shape@, other.shape@) {
                            assert(other.shape@[i as int] == 1 || other.shape@[i as int]
                                == self.shape@[off + i]);
                        }
                    }
                }
                return Err(ArrayError::ShapeMismatch);
            }
            i = i + 1;
        }
        proof {
            assert(broadcast_ok(self.shape@, other.shape@));
        }
        let total = self.count();
        let mut k: usize = 0;
        proof {
            lemma_product_nonneg(self.shape@);
        }
        while k < total
            invariant
                0 <= k <= total,
                self.wf(),
                other.wf(),
                self.shape@ == old(self).shape@,
                self.strides@ == old(self).strides@,
                self.offset == old(self).offset,
                total == self.count_spec(),
                rank == self.shape@.len(),
                orank == other.shape@.len(),
                off == rank - orank,
                broadcast_ok(self.shape@, other.shape@),
                self.logical().len() == total,
                old(self).logical().len() == total,
                forall|j: int|
                    0 <= j < k ==> #[trigger] self.logical()[j] == other.at(
                        broadcast_idx(
                            unflatten(j, old(self).shape@),
                            old(self).shape@,
                            other.shape@,
                        ),
                    ),
                forall|j: int|
                    k <= j < total ==> #[trigger] self.logical()[j] == old(self).logical()[j],
            decreases total - k,
        {
            let idx = self.index_at(k);
            let mut bidx: Vec<usize> = Vec::new();
            let mut t: usize = 0;
            while t < orank
                invariant
                    0 <= t <= orank,
                    orank == other.shape@.len(),
                    rank == self.shape@.len(),
                    off == rank - orank,
                    idx@.len() == rank,
                    in_bounds(to_int(idx@), self.shape@),
                    broadcast_ok(self.shape@, other.shape@),
                    bidx@.len() == t,
                    forall|j: int|
                        0 <= j < t ==> #[trigger] to_int(bidx@)[j] == broadcast_idx(
                            to_int(idx@),
                            self.shape@,
                            other.shape@,
                        )[j],
                decreases orank - t,
            {
                let ghost b_old = bidx@;
                if other.shape[t] == 1 {
                    bidx.push(0);
                } else {
                    bidx.push(idx[off + t]);
                }
                proof {
                    assert forall|j: int| 0 <= j < t + 1 implies #[trigger] to_int(bidx@)[j]
                        == broadcast_idx(to_int(idx@), self.shape@, other.shape@)[j] by {
                        if j < t {
                            assert(bidx@[j] == b_old[j]);
                            assert(to_int(b_old)[j] == broadcast_idx(
                                to_int(idx@),
                                self.shape@,
                                other.shape@,
                            )[j]);
                        }
                    }
                }
                t = t + 1;
            }
            proof {
                assert(to_int(bidx@) =~= broadcast_idx(to_int(idx@), self.shape@, other.shape@));
                assert forall|j: int| 0 <= j < orank implies 0 <= #[trigger] to_int(bidx@)[j]
                    < other.shape@[j] by {
                    assert(other.shape@[j] == 1 || other.shape@[j] == self.shape@[off + j]);
                    assert(0 <= to_int(idx@)[off + j] < self.shape@[off + j]);
                }
                assert(in_bounds(to_int(bidx@), other.shape@));
            }
            let v = other.get(&bidx);
            self.set(&idx, v);
            proof {
                lemma_unflatten(k as int, self.shape@);
                lemma_flatten(to_int(idx@), self.shape@);
            }
            k = k + 1;
        }
        proof {
            assert forall|idx: Seq<int>| in_bounds(idx, old(self).shape@) implies #[trigger] self.at(
                idx,
            ) == other.at(broadcast_idx(idx, old(self).shape@, other.shape@)) by {
                self.lemma_at_logical(idx);
                lemma_flatten(idx, self.shape@);
            }
        }
        Ok(())
    }

    /// Collapses `axis` by summation (wrapping 64-bit addition): the result
    /// has that axis removed, and its element at `idx` is the sum over `j`
    /// of this array's elements at `idx` with `j` re-inserted at `axis`.
    pub fn sum(&self, axis: usize) -> (r: Result<Array, ArrayError>)
        requires
            self.wf(),
            axis < self.rank_spec(),
        ensures
            match r {
                Ok(s) => {
                    &&& counts_ok(self.shape@.remove(axis as int))
                    &&& s.wf()
                    &&& s.shape@ == self.shape@.remove(axis as int)
                    &&& s.is_std_spec()
                    &&& forall|idx: Seq<int>|
                        in_bounds(idx, s.shape@) ==> #[trigger] s.at(idx) == axis_sum(
                            *self,
                            axis as int,
                            idx,
                            self.shape@[axis as int] as int,
                        )
                },
                Err(e) => e == ArrayError::TooLarge && !counts_ok(
                    self.shape@.remove(axis as int),
                ),
            },
    {
        let mut new_shape = self.shape.clone();
        new_shape.remove(axis);
        let ghost ns = new_shape@;
        let c = match element_count(&new_shape) {
            Some(c) => c,
            None => {
                return Err(ArrayError::TooLarge);
            },
        };
        let m = self.shape[axis];
        let mut v: Vec<i64> = Vec::new();
        let mut k: usize = 0;
        proof {
            lemma_product_nonneg(ns);
            assert(ns.subrange(0, ns.len() as int) =~= ns);
            assert(product(ns) <= count_limit());
        }
        while k < c
            invariant
                0 <= k <= c,
                self.wf(),
                axis < self.shape@.len(),
                ns == self.shape@.remove(axis as int),
                new_shape@ == ns,
                counts_ok(ns),
                product(ns) <= count_limit(),
                c == product(ns),
                m == self.shape@[axis as int],
                v@.len() == k,
                forall|j: int|
                    0 <= j < k ==> #[trigger] v@[j] == axis_sum(
                        *self,
                        axis as int,
                        unflatten(j, ns),
                        m as int,
                    ),
            decreases c - k,
        {
            let ridx = crate::reshape::unflatten_exec(&new_shape, k);
            let mut acc: i64 = 0;
            let mut j: usize = 0;
            while j < m
                invariant
                    0 <= j <= m,
                    self.wf(),
                    axis < self.shape@.len(),
                    ns == self.shape@.remove(axis as int),
                    m == self.shape@[axis as int],
                    to_int(ridx@) == unflatten(k as int, ns),
                    in_bounds(to_int(ridx@), ns),
                    ridx@.len() == ns.len(),
                    acc == axis_sum(*self, axis as int, to_int(ridx@), j as int),
                decreases m - j,
            {
                let mut full = ridx.clone();
                full.insert(axis, j);
                proof {
                    assert(to_int(full@) =~= to_int(ridx@).insert(axis as int, j as int));
                    lemma_insert_in_bounds(to_int(ridx@), self.shape@, axis as int, j as int);
                }
                let x = self.get(&full);
                acc = acc.wrapping_add(x);
                j = j + 1;
            }
            v.push(acc);
            k = k + 1;
        }
        let s = match Array::from_vec_dim(new_shape, v) {
            Ok(s) => s,
            Err(_) => {
                proof {
                    assert(false);
                }
                return Err(ArrayError::TooLarge);
            },
        };
        proof {
            assert forall|idx: Seq<int>| in_bounds(idx, s.shape@) implies #[trigger] s.at(idx)
                == axis_sum(*self, axis as int, idx, self.shape@[axis as int] as int) by {
                s.lemma_at_logical(idx);
                lemma_flatten(idx, ns);
            }
        }
        Ok(s)
    }

    /// Collapses `axis` by averaging: the axis sum divided (64-bit
    /// truncated division) by the axis length, which must be positive.
    pub fn mean(&self, axis: usize) -> (r: Result<Array, ArrayError>)
        requires
            self.wf(),
            axis < self.rank_spec(),
            self.shape@[axis as int] >= 1,
        ensures
            match r {
                Ok(s) => {
                    &&& s.wf()
                    &&& s.shape@ == self.shape@.remove(axis as int)
                    &&& forall|idx: Seq<int>|
                        in_bounds(idx, s.shape@) ==> (#[trigger] s.at(idx)) as int == tdiv(
                            axis_sum(
                                *self,
                                axis as int,
                                idx,
                                self.shape@[axis as int] as int,
                            ) as int,
                            self.shape@[axis as int] as int,
                        )
                },
                Err(e) => e == ArrayError::TooLarge && !counts_ok(
                    self.shape@.remove(axis as int),
                ),
            },
    {
        let sums = match self.sum(axis) {
            Ok(s) => s,
            Err(e) => {
                return Err(e);
            },
        };
        let ghost ns = self.shape@.remove(axis as int);
        let c = sums.count();
        let mut v: Vec<i64> = Vec::new();
        let mut k: usize = 0;
        proof {
            lemma_product_nonneg(ns);
            crate::view::lemma_product_remove(self.shape@, axis as int);
        }
        while k < c
            invariant
                0 <= k <= c,
                self.wf(),
                sums.wf(),
                axis < self.shape@.len(),
                self.shape@[axis as int] >= 1,
                sums.shape@ == ns,
                ns == self.shape@.remove(axis as int),
                c == product(ns),
                product(ns) * self.shape@[axis as int] == product(self.shape@),
                product(self.shape@) <= count_limit(),
                forall|idx: Seq<int>|
                    in_bounds(idx, ns) ==> #[trigger] sums.at(idx) == axis_sum(
                        *self,
                        axis as int,
                        idx,
                        self.shape@[axis as int] as int,
                    ),
                v@.len() == k,
                forall|j: int|
                    0 <= j < k ==> (#[trigger] v@[j]) as int == tdiv(
                        axis_sum(*self, axis as int, unflatten(j, ns), self.shape@[
                            axis as int
                        ] as int) as int,
                        self.shape@[axis as int] as int,
                    ),
            decreases c - k,
        {
            let ridx = sums.index_at(k);
            let x = sums.get(&ridx);
            proof {
                assert(self.shape@[axis as int] <= count_limit()) by (nonlinear_arith)
                    requires
                        product(ns) * self.shape@[axis as int] == product(self.shape@),
                        product(self.shape@) <= count_limit(),
                        product(ns) >= 1,
                        self.shape@[axis as int] >= 0,
                ;
                assert(product(ns) >= 1) by {
                    lemma_product_nonneg(ns);
                    if product(ns) == 0 {
                        assert(k < 0);
                    }
                }
            }
            let d: i64 = self.shape[axis] as i64;
            let q = match x.checked_div(d) {
                Some(q) => q,
                None => {
                    proof {
                        assert(false);
                    }
                    vstd::pervasive::unreached()
                },
            };
            v.push(q);
            k = k + 1;
        }
        let new_shape = {
            let mut t = self.shape.clone();
            t.remove(axis);
            t
        };
        let s = match Array::from_vec_dim(new_shape, v) {
            Ok(s) => s,
            Err(_) => {
                proof {
                    assert(false);
                }
                return Err(ArrayError::TooLarge);
            },
        };
        proof {
            assert forall|idx: Seq<int>| in_bounds(idx, s.shape@) implies (#[trigger] s.at(
                idx,
            )) as int == tdiv(
                axis_sum(*self, axis as int, idx, self.shape@[axis as int] as int) as int,
                self.shape@[axis as int] as int,
            ) by {
                s.lemma_at_logical(idx);
                lemma_flatten(idx, ns);
            }
        }
        Ok(s)
    }

    /// The diagonal, as a 1-dimensional array: the elements at index
    /// `(k, k, ..., k)` for `k` up to the smallest axis length. A rank-0
    /// array's diagonal is the single scalar, as a length-1 sequence.
    pub fn diag(&self) -> (r: Array)
        requires
            self.wf(),
        ensures
            r.wf(),
            r.shape@.len() == 1,
            self.rank_spec() == 0 ==> r.shape@[0] == 1 && r.logical() == seq![
                self.at(Seq::<int>::empty()),
            ],
            self.rank_spec() > 0 ==> r.shape@[0] == min_axis(self.shape@) && forall|k: int|
                0 <= k < min_axis(self.shape@) ==> #[trigger] r.logical()[k] == self.at(
                    Seq::new(self.shape@.len(), |i: int| k),
                ),
    {
        let rank = self.shape.len();
        if rank == 0 {
            let idx: Vec<usize> = Vec::new();
            proof {
                assert(to_int(idx@) =~= Seq::<int>::empty());
                assert(in_bounds(to_int(idx@), self.shape@));
            }
            let x = self.get(&idx);
            let r = Array::from_vec(vec![x]);
            proof {
                assert(r.logical() =~= seq![self.at(Seq::<int>::empty())]);
                assert(r.shape@ =~= seq![1usize]);
            }
            return r;
        }
        // the smallest axis length
        let mut m: usize = self.shape[0];
        let mut i: usize = 1;
        while i < rank
            invariant
                1 <= i <= rank,
                rank == self.shape@.len(),
                m == min_axis(self.shape@.take(i as int)),
            decreases rank - i,
        {
            proof {
                lemma_min_axis_take(self.shape@, i as int);
            }
            if self.shape[i] < m {
                m = self.shape[i];
            }
            i = i + 1;
        }
        proof {
            assert(self.shape@.take(rank as int) =~= self.shape@);
        }
        let mut v: Vec<i64> = Vec::new();
        let mut k: usize = 0;
        proof {
            lemma_min_axis_le(self.shape@);
            if m > 0 {
                assert forall|j: int| 0 <= j < rank implies #[trigger] self.shape@[j] > 0 by {
                    assert(min_axis(self.shape@) <= self.shape@[j]);
                }
                lemma_product_pos(self.shape@);
                lemma_axis_le_product(self.shape@, 0);
            }
        }
        while k < m
            invariant
                0 <= k <= m,
                self.wf(),
                rank == self.shape@.len(),
                rank >= 1,
                m == min_axis(self.shape@),
                m <= count_limit(),
                v@.len() == k,
                forall|j: int|
                    0 <= j < k ==> #[trigger] v@[j] == self.at(
                        Seq::new(self.shape@.len(), |i: int| j),
                    ),
            decreases m - k,
        {
            let mut idx: Vec<usize> = Vec::new();
            let mut t: usize = 0;
            while t < rank
                invariant
                    0 <= t <= rank,
                    idx@.len() == t,
                    forall|j: int| 0 <= j < t ==> #[trigger] idx@[j] == k,
                decreases rank - t,
            {
                idx.push(k);
                t = t + 1;
            }
            proof {
                assert(to_int(idx@) =~= Seq::new(self.shape@.len(), |i: int| k as int));
                lemma_min_axis_le(self.shape@);
                assert forall|j: int| 0 <= j < rank implies 0 <= #[trigger] to_int(idx@)[j]
                    < self.shape@[j] by {
                    assert(min_axis(self.shape@) <= self.shape@[j]);
                }
            }
            let x = self.get(&idx);
            v.push(x);
            k = k + 1;
        }
        let r = Array::from_vec(v);
        proof {
            assert(r.shape@ =~= seq![m]);
        }
        r
    }

    /// Matrix multiplication of a 2-dimensional array by another whose row
    /// count is this array's column count: element `(i, j)` of the result
    /// is the (wrapping) dot product of row `i` with column `j`.
    pub fn mat_mul(&self, other: &Array) -> (r: Result<Array, ArrayError>)
        requires
            self.wf(),
            other.wf(),
            self.rank_spec() == 2,
            other.rank_spec() == 2,
            self.shape@[1] == other.shape@[0],
        ensures
            match r {
                Ok(c) => {
                    &&& c.wf()
                    &&& c.shape@ == seq![self.shape@[0], other.shape@[1]]
                    &&& c.is_std_spec()
                    &&& forall|i: int, j: int|
                        0 <= i < self.shape@[0] && 0 <= j < other.shape@[1] ==> c.at(
                            seq![i, j],
                        ) == #[trigger] dotprod(*self, *other, i, j, self.shape@[1] as int)
                },
                Err(e) => e == ArrayError::TooLarge && !counts_ok(
                    seq![self.shape@[0], other.shape@[1]],
                ),
            },
    {
        let m = self.shape[0];
        let inner = self.shape[1];
        let cols = other.shape[1];
        let new_shape: Vec<usize> = vec![m, cols];
        proof {
            assert(new_shape@ =~= seq![m, cols]);
        }
        let total = match element_count(&new_shape) {
            Some(c) => c,
            None => {
                return Err(ArrayError::TooLarge);
            },
        };
        let mut v: Vec<i64> = Vec::new();
        let mut p: usize = 0;
        proof {
            lemma_product_nonneg(new_shape@);
            assert(new_shape@.subrange(0, new_shape@.len() as int) =~= new_shape@);
            assert(product(new_shape@) <= count_limit());
        }
        while p < total
            invariant
                0 <= p <= total,
                self.wf(),
                other.wf(),
                self.rank_spec() == 2,
                other.rank_spec() == 2,
                self.shape@[1] == other.shape@[0],
                m == self.shape@[0],
                inner == self.shape@[1],
                cols == other.shape@[1],
                new_shape@ == seq![m, cols],
                counts_ok(new_shape@),
                product(new_shape@) <= count_limit(),
                total == product(new_shape@),
                v@.len() == p,
                forall|q: int|
                    0 <= q < p ==> #[trigger] v@[q] == dotprod(
                        *self,
                        *other,
                        unflatten(q, new_shape@)[0],
                        unflatten(q, new_shape@)[1],
                        inner as int,
                    ),
            decreases total - p,
        {
            let ridx = crate::reshape::unflatten_exec(&new_shape, p);
            let i = ridx[0];
            let j = ridx[1];
            proof {
                assert(to_int(ridx@)[0] == i as int && to_int(ridx@)[1] == j as int);
                assert(0 <= i < m && 0 <= j < cols);
            }
            let mut acc: i64 = 0;
            let mut t: usize = 0;
            while t < inner
                invariant
                    0 <= t <= inner,
                    self.wf(),
                    other.wf(),
                    self.rank_spec() == 2,
                    other.rank_spec() == 2,
                    self.shape@[1] == other.shape@[0],
                    inner == self.shape@[1],
                    i < self.shape@[0],
                    j < other.shape@[1],
                    acc == dotprod(*self, *other, i as int, j as int, t as int),
                decreases inner - t,
            {
                let ia: Vec<usize> = vec![i, t];
                let ib: Vec<usize> = vec![t, j];
                proof {
                    assert(to_int(ia@) =~= seq![i as int, t as int]);
                    assert(to_int(ib@) =~= seq![t as int, j as int]);
                    assert(in_bounds(to_int(ia@), self.shape@));
                    assert(in_bounds(to_int(ib@), other.shape@));
                }
                let x = self.get(&ia);
                let y = other.get(&ib);
                acc = acc.wrapping_add(x.wrapping_mul(y));
                t = t + 1;
            }
            v.push(acc);
            p = p + 1;
        }
        let c = match Array::from_vec_dim(new_shape, v) {
            Ok(c) => c,
            Err(_) => {
                proof {
                    assert(false);
                }
                return Err(ArrayError::TooLarge);
            },
        };
        proof {
            assert forall|i: int, j: int|
                0 <= i < self.shape@[0] && 0 <= j < other.shape@[1] implies c.at(seq![i, j])
                == #[trigger] dotprod(*self, *other, i, j, self.shape@[1] as int) by {
                assert(in_bounds(seq![i, j], c.shape@));
                c.lemma_at_logical(seq![i, j]);
                lemma_flatten(seq![i, j], c.shape@);
                let q = flatten(seq![i, j], c.shape@);
                assert(unflatten(q, c.shape@) == seq![i, j]);
                assert(unflatten(q, c.shape@)[0] == i && unflatten(q, c.shape@)[1] == j);
            }
        }
        Ok(c)
    }
}

/// Re-inserting a valid axis component yields a valid index of the full
/// shape.
pub proof fn lemma_insert_in_bounds(idx: Seq<int>, shape: Seq<usize>, axis: int, v: int)
    requires
        0 <= axis < shape.len(),
        0 <= v < shape[axis],
        in_bounds(idx, shape.remove(axis)),
    ensures
        in_bounds(idx.insert(axis, v), shape),
{
    let full = idx.insert(axis, v);
    assert forall|i: int| 0 <= i < full.len() implies 0 <= #[trigger] full[i] < shape[i] by {
        if i < axis {
            assert(full[i] == idx[i] && shape.remove(axis)[i] == shape[i]);
        } else if i == axis {
        } else {
            assert(full[i] == idx[i - 1] && shape.remove(axis)[i - 1] == shape[i]);
        }
    }
}

/// How the minimum over a prefix grows by one more axis.
proof fn lemma_min_axis_take(shape: Seq<usize>, i: int)
    requires
        1 <= i < shape.len(),
    ensures
        min_axis(shape.take(i + 1)) == if shape[i] < min_axis(shape.take(i)) {
            shape[i] as int
        } else {
            min_axis(shape.take(i))
        },
    decreases i,
{
    if i == 1 {
        assert(shape.take(2).drop_first() =~= seq![shape[1]]);
        assert(shape.take(1) =~= seq![shape[0]]);
        assert(min_axis(seq![shape[1]]) == shape[1] as int);
    } else {
        lemma_min_axis_take(shape.drop_first(), i - 1);
        assert(shape.take(i + 1).drop_first() =~= shape.drop_first().take(i));
        assert(shape.take(i).drop_first() =~= shape.drop_first().take(i - 1));
        assert(shape.take(i + 1)[0] == shape[0]);
        assert(shape.take(i)[0] == shape[0]);
        assert(shape.drop_first()[i - 1] == shape[i]);
        assert(shape.take(i).len() == i >= 2);
        assert(shape.take(i + 1).len() == i + 1 >= 2);
    }
}

/// The minimum axis length is at most every axis length.
proof fn lemma_min_axis_le(shape: Seq<usize>)
    requires
        shape.len() >= 1,
    ensures
        forall|j: int| 0 <= j < shape.len() ==> min_axis(shape) <= #[trigger] shape[j],
        min_axis(shape) >= 0,
    decreases shape.len(),
{
    if shape.len() == 1 {
    } else {
        lemma_min_axis_le(shape.drop_first());
        assert forall|j: int| 0 <= j < shape.len() implies min_axis(shape) <= #[trigger] shape[
            j
        ] by {
            if j > 0 {
                assert(shape.drop_first()[j - 1] == shape[j]);
                assert(min_axis(shape.drop_first()) <= shape.drop_first()[j - 1]);
            }
        }
    }
}

} // verus!
