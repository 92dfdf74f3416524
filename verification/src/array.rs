//! The array core: a view (shape, strides, base offset) over copy-on-write
//! storage, with construction, indexing and cloning. Transformations of views
//! and elementwise operations live in neighbouring modules.

use vstd::prelude::*;
use crate::dim::{
    count_limit, count_limit_exec, lemma_product_zero_axis, lemma_product_suffix_le,
    product, in_bounds, dot, flatten, unflatten, std_stride, is_std_layout, dot_prefix,
    lemma_product_nonneg, lemma_product_pos, lemma_axis_le_product, lemma_unflatten,
    lemma_flatten, lemma_dot_std, lemma_dot_take_step, lemma_zero_pad,
};
use crate::storage::Storage;

verus! {

/// The errors the engine reports. Bounds violations on indexing are caller
/// contract violations and are excluded by `requires` instead.
#[derive(Clone, Copy, Debug, PartialEq, Eq, Structural)]
pub enum ArrayError {
    /// An operation received shapes whose element counts or axis lengths do
    /// not match as it requires (reshape, assign, binary ops, matrix ops).
    ShapeMismatch,
    /// A per-axis slice specification selects outside `[0, axis length]`.
    SliceOutOfRange,
    /// A slice step of zero.
    ZeroStep,
    /// A requested element count, stride or offset does not fit the signed
    /// 64-bit index range.
    TooLarge,
    /// A triangular solve or factorization ran into a zero (or otherwise
    /// unusable) diagonal divisor, or a negative number under the square
    /// root: the input was not positive definite in the representable sense.
    NotSolvable,
}

/// Interprets an index vector as a mathematical index.
pub open spec fn to_int(idx: Seq<usize>) -> Seq<int> {
    idx.map_values(|x: usize| x as int)
}

/// An N-dimensional array: a strided view over shared storage.
/// The element at index `idx` lives at buffer position
/// `offset + sum(idx[i] * strides[i])`.
#[derive(Debug)]
pub struct Array {
    pub store: Storage,
    pub shape: Vec<usize>,
    pub strides: Vec<i64>,
    pub offset: usize,
}

impl Array {
    /// The shape, as a mathematical sequence of axis lengths.
    pub open spec fn shape_spec(&self) -> Seq<usize> {
        self.shape@
    }

    /// Number of axes.
    pub open spec fn rank_spec(&self) -> int {
        self.shape@.len() as int
    }

    /// Total number of (logical) elements.
    pub open spec fn count_spec(&self) -> int {
        product(self.shape@)
    }

    /// Buffer position addressed by a (valid) index.
    pub open spec fn position(&self, idx: Seq<int>) -> int {
        self.offset + dot(idx, self.strides@)
    }

    /// The element a valid index addresses.
    pub open spec fn at(&self, idx: Seq<int>) -> i64 {
        self.store@[self.position(idx)]
    }

    /// Well-formedness: one stride per axis, every valid index addresses a
    /// position inside the buffer, distinct valid indices address distinct
    /// positions, and the sizes involved fit the signed 64-bit index range.
    pub open spec fn wf(&self) -> bool {
        &&& self.strides@.len() == self.shape@.len()
        &&& self.count_spec() <= count_limit()
        &&& self.store@.len() <= count_limit()
        &&& forall|idx: Seq<int>|
            in_bounds(idx, self.shape@) ==> 0 <= #[trigger] self.position(idx) < self.store@.len()
        &&& forall|idx: Seq<int>, jdx: Seq<int>|
            in_bounds(idx, self.shape@) && in_bounds(jdx, self.shape@) && #[trigger] self.position(
                idx,
            ) == #[trigger] self.position(jdx) ==> idx == jdx
    }

    /// The elements in row-major logical order: the model every contract
    /// speaks of.
    pub open spec fn logical(&self) -> Seq<i64> {
        Seq::new(self.count_spec() as nat, |k: int| self.at(unflatten(k, self.shape@)))
    }

    /// Two arrays are equal iff their shapes are identical and the elements
    /// agree in logical order.
    pub open spec fn eq_array(&self, other: &Array) -> bool {
        self.shape@ == other.shape@ && self.logical() == other.logical()
    }

    /// The strides describe the default row-major layout of the shape.
    pub open spec fn is_std_spec(&self) -> bool {
        is_std_layout(self.shape@, self.strides@)
    }

    /// The shape of this array.
    pub fn shape(&self) -> (r: &Vec<usize>)
        ensures
            r@ == self.shape@,
    {
        &self.shape
    }

    /// Number of axes of this array.
    pub fn rank(&self) -> (r: usize)
        ensures
            r == self.rank_spec(),
    {
        self.shape.len()
    }

    /// The strides of this array, one per axis.
    pub fn strides(&self) -> (r: &Vec<i64>)
        ensures
            r@ == self.strides@,
    {
        &self.strides
    }

    /// The entire backing buffer, in memory order.
    pub fn raw_data(&self) -> (r: Vec<i64>)
        ensures
            r@ == self.store@,
    {
        self.store.to_vec()
    }

    /// Total number of elements (the product of the axis lengths).
    pub fn count(&self) -> (r: usize)
        requires
            self.wf(),
        ensures
            r == self.count_spec(),
    {
        count_of(&self.shape)
    }

    /// The buffer position of a valid index; the bound and the absence of
    /// overflow in the running sum follow from well-formedness, because each
    /// partial sum is itself the position of a valid (zero-padded) index.
    pub(crate) fn position_of(&self, idx: &Vec<usize>) -> (r: usize)
        requires
            self.wf(),
            in_bounds(to_int(idx@), self.shape@),
        ensures
            r == self.position(to_int(idx@)),
            r < self.store@.len(),
    {
        let ghost iidx = to_int(idx@);
        let n = idx.len();
        let mut pos: i64 = self.offset as i64;
        let mut k: usize = 0;
        proof {
            let pad = iidx.take(0).add(Seq::new(iidx.len() as nat, |i: int| 0));
            lemma_zero_pad(iidx, self.shape@, self.strides@, 0);
            assert(0 <= self.position(pad) < self.store@.len());
            assert(self.offset + dot_prefix(iidx, self.strides@, 0) < self.store@.len());
            lemma_product_pos(self.shape@);
        }
        while k < n
            invariant
                self.wf(),
                in_bounds(iidx, self.shape@),
                iidx.len() == n == self.shape@.len(),
                iidx == to_int(idx@),
                0 <= k <= n,
                pos == self.offset + dot_prefix(iidx, self.strides@, k as int),
                0 <= pos < self.store@.len(),
            decreases n - k,
        {
            proof {
                let pad0 = iidx.take(k as int).add(Seq::new((n - k) as nat, |i: int| 0));
                let pad1 = iidx.take(k + 1).add(Seq::new((n - k - 1) as nat, |i: int| 0));
                lemma_zero_pad(iidx, self.shape@, self.strides@, k as int);
                lemma_zero_pad(iidx, self.shape@, self.strides@, k + 1);
                assert(0 <= self.position(pad0) < self.store@.len());
                assert(0 <= self.position(pad1) < self.store@.len());
                lemma_dot_take_step(iidx, self.strides@, k as int);
                assert(iidx[k as int] * self.strides@[k as int] == self.position(pad1)
                    - self.position(pad0));
                assert forall|i: int| 0 <= i < n implies #[trigger] self.shape@[i] > 0 by {
                    assert(0 <= iidx[i] < self.shape@[i]);
                }
                lemma_product_pos(self.shape@);
                lemma_axis_le_product(self.shape@, k as int);
            }
            let step: i64 = (idx[k] as i64) * self.strides[k];
            pos = pos + step;
            k = k + 1;
        }
        proof {
            assert(iidx.take(n as int) =~= iidx);
            assert(self.strides@.take(n as int) =~= self.strides@);
        }
        pos as usize
    }

    /// Reads the element at `idx`; each component must lie in
    /// `[0, axis length)`.
    pub fn get(&self, idx: &Vec<usize>) -> (r: i64)
        requires
            self.wf(),
            in_bounds(to_int(idx@), self.shape@),
        ensures
            r == self.at(to_int(idx@)),
    {
        let pos = self.position_of(idx);
        self.store.read(pos)
    }

    /// Writes `v` at `idx`. Copy-on-write: a sibling array sharing the
    /// storage keeps observing the old elements. Every other element of this
    /// array is unchanged.
    pub fn set(&mut self, idx: &Vec<usize>, v: i64)
        requires
            old(self).wf(),
            in_bounds(to_int(idx@), old(self).shape@),
        ensures
            final(self).wf(),
            final(self).shape@ == old(self).shape@,
            final(self).strides@ == old(self).strides@,
            final(self).offset == old(self).offset,
            final(self).at(to_int(idx@)) == v,
            forall|jdx: Seq<int>|
                in_bounds(jdx, old(self).shape@) && jdx != to_int(idx@)
                    ==> #[trigger] final(self).at(jdx) == old(self).at(jdx),
            final(self).logical() == old(self).logical().update(
                flatten(to_int(idx@), old(self).shape@),
                v,
            ),
    {
        let pos = self.position_of(idx);
        self.store.write(pos, v);
        proof {
            let s = *self;
            let o = *old(self);
            let iidx = to_int(idx@);
            assert(s.strides@ == o.strides@ && s.offset == o.offset && s.shape@ == o.shape@
                && s.store@.len() == o.store@.len());
            assert(forall|jdx: Seq<int>| #[trigger] s.position(jdx) == o.position(jdx));
            assert forall|jdx: Seq<int>| in_bounds(jdx, s.shape@) implies 0 <= #[trigger] s.position(
                jdx,
            ) < s.store@.len() by {
                assert(0 <= o.position(jdx) < o.store@.len());
            }
            assert forall|j1: Seq<int>, j2: Seq<int>|
                in_bounds(j1, s.shape@) && in_bounds(j2, s.shape@) && #[trigger] s.position(j1)
                    == #[trigger] s.position(j2) implies j1 == j2 by {
                assert(o.position(j1) == o.position(j2));
            }
            assert forall|jdx: Seq<int>|
                in_bounds(jdx, o.shape@) && jdx != iidx implies #[trigger] s.at(jdx) == o.at(
                jdx,
            ) by {
                assert(o.position(jdx) != o.position(iidx));
            }
            lemma_flatten(iidx, o.shape@);
            let f = flatten(iidx, o.shape@);
            assert(s.logical() =~= o.logical().update(f, v)) by {
                assert forall|k: int| 0 <= k < o.count_spec() implies s.logical()[k]
                    == o.logical().update(f, v)[k] by {
                    lemma_unflatten(k, o.shape@);
                    if k == f {
                        assert(unflatten(k, o.shape@) == iidx) by {
                            lemma_flatten(iidx, o.shape@);
                        }
                    } else {
                        assert(unflatten(k, o.shape@) != iidx) by {
                            if unflatten(k, o.shape@) == iidx {
                                assert(flatten(unflatten(k, o.shape@), o.shape@) == k);
                            }
                        }
                    }
                }
            }
        }
    }
}

impl Clone for Array {
    /// O(1): shares the storage; the clone is equal to the original, and
    /// copy-on-write keeps later writes on either side invisible to the
    /// other.
    fn clone(&self) -> (r: Self)
        ensures
            r.shape@ == self.shape@,
            r.strides@ == self.strides@,
            r.offset == self.offset,
            r.store@ == self.store@,
            self.wf() ==> r.wf() && r.eq_array(self),
    {
        let r = Array {
            store: self.store.clone(),
            shape: self.shape.clone(),
            strides: self.strides.clone(),
            offset: self.offset,
        };
        proof {
            assert(r.shape@ == self.shape@ && r.strides@ == self.strides@);
            if self.wf() {
                assert(forall|idx: Seq<int>| r.position(idx) == self.position(idx));
                assert(r.logical() =~= self.logical());
            }
        }
        r
    }
}

/// The element count of a shape, if every row-major suffix count fits the
/// signed 64-bit index range (the range strides and positions live in).
pub open spec fn counts_ok(shape: Seq<usize>) -> bool {
    forall|i: int|
        0 <= i <= shape.len() ==> #[trigger] product(shape.subrange(i, shape.len() as int))
            <= count_limit()
}

/// The element count of a shape already known to fit the index range.
pub(crate) fn count_of(shape: &Vec<usize>) -> (r: usize)
    requires
        product(shape@) <= count_limit(),
    ensures
        r == product(shape@),
{
    let n = shape.len();
    let mut i: usize = 0;
    while i < n
        invariant
            0 <= i <= n,
            n == shape@.len(),
            forall|j: int| 0 <= j < i ==> #[trigger] shape@[j] >= 1,
        decreases n - i,
    {
        if shape[i] == 0 {
            proof {
                lemma_product_zero_axis(shape@, i as int);
            }
            return 0;
        }
        i = i + 1;
    }
    let mut acc: usize = 1;
    let mut j: usize = n;
    proof {
        assert(shape@.subrange(n as int, n as int) =~= Seq::<usize>::empty());
    }
    while j > 0
        invariant
            0 <= j <= n,
            n == shape@.len(),
            product(shape@) <= count_limit(),
            forall|j2: int| 0 <= j2 < n ==> #[trigger] shape@[j2] >= 1,
            acc == product(shape@.subrange(j as int, n as int)),
        decreases j,
    {
        let k = j - 1;
        proof {
            lemma_product_suffix_step(shape@, k as int);
            lemma_product_suffix_le(shape@, k as int);
            lemma_product_nonneg(shape@.subrange(j as int, n as int));
            assert(shape@[k as int] * acc == acc * shape@[k as int]) by (nonlinear_arith);
        }
        match acc.checked_mul(shape[k]) {
            Some(a) => {
                acc = a;
            },
            None => {
                proof {
                    assert(false);
                }
            },
        }
        j = k;
    }
    proof {
        assert(shape@.subrange(0, n as int) =~= shape@);
    }
    acc
}

pub proof fn lemma_product_suffix_step(shape: Seq<usize>, i: int)
    requires
        0 <= i < shape.len(),
    ensures
        product(shape.subrange(i, shape.len() as int)) == shape[i] * product(
            shape.subrange(i + 1, shape.len() as int),
        ),
{
    let n = shape.len() as int;
    assert(shape.subrange(i, n).len() > 0);
    assert(shape.subrange(i, n)[0] == shape[i]);
    assert(shape.subrange(i, n).drop_first() =~= shape.subrange(i + 1, n));
}

/// Computes the total element count of a shape, or reports that the shape
/// does not fit the index range. `None` exactly when some row-major suffix
/// count exceeds `i64::MAX`.
pub fn element_count(shape: &Vec<usize>) -> (r: Option<usize>)
    ensures
        match r {
            Some(c) => counts_ok(shape@) && c == product(shape@),
            None => !counts_ok(shape@),
        },
{
    let n = shape.len();
    let mut acc: usize = 1;
    let mut i: usize = n;
    proof {
        assert(shape@.subrange(n as int, n as int) =~= Seq::<usize>::empty());
    }
    while i > 0
        invariant
            0 <= i <= n,
            n == shape@.len(),
            acc == product(shape@.subrange(i as int, n as int)),
            acc <= count_limit(),
            forall|j: int|
                i <= j <= n ==> #[trigger] product(shape@.subrange(j, n as int)) <= count_limit(),
        decreases i,
    {
        let j = i - 1;
        proof {
            lemma_product_suffix_step(shape@, j as int);
        }
        proof {
            assert(shape@[j as int] * acc == acc * shape@[j as int]) by (nonlinear_arith);
        }
        let next = acc.checked_mul(shape[j]);
        match next {
            Some(a) => {
                if a <= count_limit_exec() {
                    acc = a;
                    i = j;
                } else {
                    proof {
                        assert(product(shape@.subrange(j as int, n as int)) > count_limit());
                    }
                    return None;
                }
            },
            None => {
                proof {
                    assert(product(shape@.subrange(j as int, n as int)) > count_limit());
                }
                return None;
            },
        }
    }
    proof {
        assert(shape@.subrange(0, n as int) =~= shape@);
        assert forall|j: int|
            0 <= j <= shape@.len() implies #[trigger] product(shape@.subrange(j, n as int))
            <= count_limit() by {}
    }
    Some(acc)
}

/// The default row-major strides for a shape: axis `i` advances by the
/// product of the lengths of the later axes.
pub fn std_strides(shape: &Vec<usize>) -> (r: Vec<i64>)
    requires
        counts_ok(shape@),
    ensures
        r@.len() == shape@.len(),
        forall|i: int| 0 <= i < shape@.len() ==> #[trigger] r@[i] == std_stride(shape@, i),
        is_std_layout(shape@, r@),
{
    let n = shape.len();
    let mut r: Vec<i64> = Vec::new();
    let mut i: usize = n;
    let mut acc: i64 = 1;
    proof {
        assert(shape@.subrange(n as int, n as int) =~= Seq::<usize>::empty());
    }
    while i > 0
        invariant
            0 <= i <= n,
            n == shape@.len(),
            counts_ok(shape@),
            acc == product(shape@.subrange(i as int, n as int)),
            r@.len() == n - i,
            forall|j: int|
                i <= j < n ==> #[trigger] r@[j - i] == std_stride(shape@, j),
        decreases i,
    {
        let j = i - 1;
        proof {
            lemma_product_suffix_step(shape@, j as int);
            lemma_product_nonneg(shape@.subrange(i as int, n as int));
            lemma_product_nonneg(shape@.subrange(j as int, n as int));
            assert(product(shape@.subrange(j as int, n as int)) <= count_limit());
        }
        let ghost r_old = r@;
        r.insert(0, acc);
        proof {
            assert forall|jj: int| j <= jj < n implies #[trigger] r@[jj - j] == std_stride(
                shape@,
                jj,
            ) by {
                if jj > j {
                    assert(r@[jj - j] == r_old[jj - i]);
                }
            }
        }
        if acc == 0 {
            proof {
                assert(shape@[j as int] * 0 == 0) by (nonlinear_arith);
            }
            acc = 0;
        } else {
            proof {
                assert(shape@[j as int] <= shape@[j as int] * acc) by (nonlinear_arith)
                    requires
                        acc >= 1,
                        shape@[j as int] >= 0,
                ;
            }
            acc = (shape[j] as i64) * acc;
        }
        i = j;
    }
    proof {
        assert forall|i2: int| 0 <= i2 < shape@.len() implies #[trigger] r@[i2] == std_stride(
            shape@,
            i2,
        ) by {
            assert(r@[i2 - 0] == std_stride(shape@, i2));
        }
    }
    r
}

/// A freshly allocated array of the given shape in standard layout, with a
/// newly built buffer holding `fill` everywhere.
pub(crate) fn filled(shape: Vec<usize>, fill: i64) -> (r: Result<Array, ArrayError>)
    ensures
        match r {
            Ok(a) => {
                &&& counts_ok(shape@)
                &&& a.wf()
                &&& a.shape@ == shape@
                &&& a.is_std_spec()
                &&& a.offset == 0
                &&& a.logical() == Seq::new(product(shape@) as nat, |k: int| fill)
                &&& a.store@.len() == product(shape@)
            },
            Err(e) => e == ArrayError::TooLarge && !counts_ok(shape@),
        },
{
    let count = match element_count(&shape) {
        Some(c) => c,
        None => {
            return Err(ArrayError::TooLarge);
        },
    };
    let strides = std_strides(&shape);
    let store = Storage::allocate(count, fill);
    let a = Array { store, shape, strides, offset: 0 };
    proof {
        assert(a.shape@.subrange(0, a.shape@.len() as int) =~= a.shape@);
        assert(product(a.shape@) <= count_limit());
        lemma_std_wf(&a);
        assert(a.logical() =~= Seq::new(product(a.shape@) as nat, |k: int| fill)) by {
            assert forall|k: int| 0 <= k < a.count_spec() implies a.at(unflatten(k, a.shape@))
                == fill by {
                lemma_unflatten(k, a.shape@);
                lemma_dot_std(unflatten(k, a.shape@), a.shape@, a.strides@);
            }
        }
    }
    Ok(a)
}

/// An array in standard layout over a fresh buffer is well-formed: the
/// position of a valid index is its row-major rank, which is bijective on
/// `[0, count)`.
pub proof fn lemma_std_wf(a: &Array)
    requires
        a.strides@.len() == a.shape@.len(),
        a.offset == 0,
        a.store@.len() == product(a.shape@),
        product(a.shape@) <= count_limit(),
        is_std_layout(a.shape@, a.strides@),
    ensures
        a.wf(),
{
    lemma_product_nonneg(a.shape@);
    assert forall|idx: Seq<int>| in_bounds(idx, a.shape@) implies 0 <= #[trigger] a.position(idx)
        < a.store@.len() by {
        lemma_dot_std(idx, a.shape@, a.strides@);
        lemma_flatten(idx, a.shape@);
    }
    assert forall|idx: Seq<int>, jdx: Seq<int>|
        in_bounds(idx, a.shape@) && in_bounds(jdx, a.shape@) && #[trigger] a.position(idx)
            == #[trigger] a.position(jdx) implies idx == jdx by {
        lemma_dot_std(idx, a.shape@, a.strides@);
        lemma_dot_std(jdx, a.shape@, a.strides@);
        lemma_flatten(idx, a.shape@);
        lemma_flatten(jdx, a.shape@);
    }
}

impl Array {
    /// A new array of the given shape with every element the additive
    /// identity. Fails only when the element count does not fit the index
    /// range.
    pub fn zeros(shape: Vec<usize>) -> (r: Result<Array, ArrayError>)
        ensures
            match r {
                Ok(a) => {
                    &&& counts_ok(shape@)
                    &&& a.wf()
                    &&& a.shape@ == shape@
                    &&& a.is_std_spec()
                    &&& a.logical() == Seq::new(product(shape@) as nat, |k: int| 0i64)
                },
                Err(e) => e == ArrayError::TooLarge && !counts_ok(shape@),
            },
    {
        let ghost s = shape@;
        let r = filled(shape, 0);
        proof {
            if r is Ok {
                let a = r->Ok_0;
                assert(a.logical() =~= Seq::new(product(s) as nat, |k: int| 0i64));
            }
        }
        r
    }

    /// A 1-dimensional array holding exactly the given elements, in order.
    pub fn from_vec(v: Vec<i64>) -> (r: Array)
        requires
            v@.len() <= count_limit(),
        ensures
            r.wf(),
            r.shape@ == seq![v@.len() as usize],
            r.is_std_spec(),
            r.logical() == v@,
    {
        let n = v.len();
        let shape_v: Vec<usize> = vec![n];
        let strides_v: Vec<i64> = vec![1i64];
        let store = Storage::from_vec(v);
        let a = Array { store, shape: shape_v, strides: strides_v, offset: 0 };
        proof {
            assert(a.shape@ =~= seq![n]);
            assert(a.strides@ =~= seq![1i64]);
            assert(product(a.shape@.drop_first()) == 1);
            assert(product(a.shape@) == n * 1);
            assert(n * 1 == n) by (nonlinear_arith);
            assert(a.shape@.subrange(1, 1) =~= Seq::<usize>::empty());
            assert(is_std_layout(a.shape@, a.strides@));
            lemma_std_wf(&a);
            assert(a.logical() =~= a.store@) by {
                assert forall|k: int| 0 <= k < a.count_spec() implies a.at(unflatten(k, a.shape@))
                    == a.store@[k] by {
                    lemma_unflatten(k, a.shape@);
                    lemma_dot_std(unflatten(k, a.shape@), a.shape@, a.strides@);
                }
            }
        }
        a
    }

    /// An array of the given shape whose row-major elements are exactly `v`.
    /// Fails when `v`'s length is not the shape's element count, or the
    /// count does not fit the index range.
    pub fn from_vec_dim(shape: Vec<usize>, v: Vec<i64>) -> (r: Result<Array, ArrayError>)
        ensures
            match r {
                Ok(a) => {
                    &&& counts_ok(shape@)
                    &&& product(shape@) == v@.len()
                    &&& a.wf()
                    &&& a.shape@ == shape@
                    &&& a.is_std_spec()
                    &&& a.logical() == v@
                },
                Err(e) => {
                    ||| (e == ArrayError::TooLarge && !counts_ok(shape@))
                    ||| (e == ArrayError::ShapeMismatch && counts_ok(shape@) && product(shape@)
                        != v@.len())
                },
            },
    {
        let count = match element_count(&shape) {
            Some(c) => c,
            None => {
                return Err(ArrayError::TooLarge);
            },
        };
        if count != v.len() {
            return Err(ArrayError::ShapeMismatch);
        }
        let strides = std_strides(&shape);
        let store = Storage::from_vec(v);
        let a = Array { store, shape, strides, offset: 0 };
        proof {
            assert(a.shape@.subrange(0, a.shape@.len() as int) =~= a.shape@);
            assert(product(a.shape@) <= count_limit());
            lemma_std_wf(&a);
            assert(a.logical() =~= a.store@) by {
                assert forall|k: int| 0 <= k < a.count_spec() implies a.at(unflatten(k, a.shape@))
                    == a.store@[k] by {
                    lemma_unflatten(k, a.shape@);
                    lemma_dot_std(unflatten(k, a.shape@), a.shape@, a.strides@);
                }
            }
        }
        Ok(a)
    }
}

} // verus!
