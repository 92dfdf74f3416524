//! Layout classification and reshaping. A reshape keeps the row-major
//! logical order of the elements: it is a view when the source already is
//! standard layout, and otherwise first copies the elements into a fresh
//! standard-layout buffer.

use vstd::prelude::*;
use crate::dim::{
    product, in_bounds, count_limit, flatten, unflatten, std_stride, is_std_layout,
    lemma_product_nonneg, lemma_product_pos, lemma_product_suffix_le, lemma_unflatten,
    lemma_flatten, lemma_dot_std,
};
use crate::array::{
    Array, ArrayError, to_int, counts_ok, element_count, std_strides, lemma_product_suffix_step,
};
use crate::view::lemma_view_wf;

verus! {

impl Array {
    /// True exactly when shape and strides are the default row-major layout
    /// (axes of length 0 or 1 admit one index at most, so their strides are
    /// ignored).
    pub fn is_standard_layout(&self) -> (r: bool)
        requires
            self.strides@.len() == self.shape@.len(),
        ensures
            r == self.is_std_spec(),
    {
        let n = self.shape.len();
        let mut ok = true;
        let mut acc: u64 = 1;
        let mut over = false;
        let mut i: usize = n;
        proof {
            assert(self.shape@.subrange(n as int, n as int) =~= Seq::<usize>::empty());
        }
        while i > 0
            invariant
                0 <= i <= n,
                n == self.shape@.len() == self.strides@.len(),
                !over ==> acc == product(self.shape@.subrange(i as int, n as int)),
                over ==> product(self.shape@.subrange(i as int, n as int)) > u64::MAX,
                ok == (forall|j: int|
                    i <= j < n ==> (#[trigger] self.shape@[j] <= 1 || self.strides@[j]
                        == std_stride(self.shape@, j))),
            decreases i,
        {
            let j = i - 1;
            proof {
                lemma_product_suffix_step(self.shape@, j as int);
                lemma_product_nonneg(self.shape@.subrange(i as int, n as int));
            }
            let conform: bool = if over {
                proof {
                    assert(std_stride(self.shape@, j as int) > u64::MAX >= self.strides@[j as int]);
                }
                self.shape[j] <= 1
            } else {
                self.shape[j] <= 1 || (self.strides[j] >= 0 && (self.strides[j] as u64) == acc)
            };
            ok = ok && conform;
            if self.shape[j] == 0 {
                proof {
                    assert(0 * product(self.shape@.subrange(i as int, n as int)) == 0)
                        by (nonlinear_arith);
                    assert(over ==> self.shape@[j as int] * product(
                        self.shape@.subrange(i as int, n as int),
                    ) == 0) by (nonlinear_arith)
                        requires
                            self.shape@[j as int] == 0,
                    ;
                }
                acc = 0;
                over = false;
            } else if !over {
                match acc.checked_mul(self.shape[j] as u64) {
                    Some(a) => {
                        proof {
                            assert(self.shape@[j as int] * acc == acc * self.shape@[j as int])
                                by (nonlinear_arith);
                        }
                        acc = a;
                    },
                    None => {
                        proof {
                            assert(self.shape@[j as int] * acc == acc * self.shape@[j as int])
                                by (nonlinear_arith);
                        }
                        over = true;
                    },
                }
            } else {
                proof {
                    assert(self.shape@[j as int] * product(
                        self.shape@.subrange(i as int, n as int),
                    ) > u64::MAX) by (nonlinear_arith)
                        requires
                            self.shape@[j as int] >= 1,
                            product(self.shape@.subrange(i as int, n as int)) > u64::MAX,
                    ;
                }
            }
            i = j;
            proof {
                assert forall|j2: int|
                    i <= j2 < n implies ((ok ==> (#[trigger] self.shape@[j2] <= 1
                    || self.strides@[j2] == std_stride(self.shape@, j2))) && (!ok ==> true)) by {}
            }
        }
        ok
    }

    /// The multi-index whose row-major position is `k`: the inverse of the
    /// flattening that `logical` uses.
    pub fn index_at(&self, k: usize) -> (r: Vec<usize>)
        requires
            self.wf(),
            k < self.count_spec(),
        ensures
            to_int(r@) == unflatten(k as int, self.shape@),
            in_bounds(to_int(r@), self.shape@),
    {
        unflatten_exec(&self.shape, k)
    }

    /// The elements in row-major logical order, copied into a fresh vector.
    pub fn to_vec_logical(&self) -> (v: Vec<i64>)
        requires
            self.wf(),
        ensures
            v@ == self.logical(),
    {
        let total = self.count();
        let mut v: Vec<i64> = Vec::new();
        let mut k: usize = 0;
        proof {
            lemma_product_nonneg(self.shape@);
        }
        while k < total
            invariant
                0 <= k <= total,
                self.wf(),
                total == self.count_spec(),
                v@ =~= self.logical().take(k as int),
            decreases total - k,
        {
            let idx = self.index_at(k);
            let x = self.get(&idx);
            v.push(x);
            proof {
                assert(self.logical()[k as int] == x);
                assert(v@ =~= self.logical().take(k + 1));
            }
            k = k + 1;
        }
        proof {
            assert(self.logical().take(total as int) =~= self.logical());
        }
        v
    }

    /// Reshapes to `new_shape`, which must describe exactly as many
    /// elements: the result holds the same elements in the same row-major
    /// logical order, in standard layout. A standard-layout source is
    /// reshaped as a view over the same storage; any other source is first
    /// copied to a fresh standard-layout buffer.
    pub fn reshape(&self, new_shape: Vec<usize>) -> (r: Result<Array, ArrayError>)
        requires
            self.wf(),
        ensures
            match r {
                Ok(a) => {
                    &&& counts_ok(new_shape@)
                    &&& product(new_shape@) == self.count_spec()
                    &&& a.wf()
                    &&& a.shape@ == new_shape@
                    &&& a.is_std_spec()
                    &&& a.logical() == self.logical()
                },
                Err(e) => {
                    ||| (e == ArrayError::TooLarge && !counts_ok(new_shape@))
                    ||| (e == ArrayError::ShapeMismatch && counts_ok(new_shape@) && product(
                        new_shape@,
                    ) != self.count_spec())
                },
            },
    {
        let c = match element_count(&new_shape) {
            Some(c) => c,
            None => {
                return Err(ArrayError::TooLarge);
            },
        };
        if c != self.count() {
            return Err(ArrayError::ShapeMismatch);
        }
        if self.is_standard_layout() {
            let strides = std_strides(&new_shape);
            let a = Array {
                store: self.store.clone(),
                shape: new_shape,
                strides,
                offset: self.offset,
            };
            proof {
                lemma_reshape_view(self, &a);
            }
            Ok(a)
        } else {
            let v = self.to_vec_logical();
            let ghost lv = v@;
            let a = match Array::from_vec_dim(new_shape, v) {
                Ok(a) => a,
                Err(_) => {
                    proof {
                        assert(false);
                    }
                    return Err(ArrayError::ShapeMismatch);
                },
            };
            Ok(a)
        }
    }
}

/// The view path of a reshape: same storage, same base offset, standard
/// strides for the new shape. Under a standard-layout source, position `k`
/// of the logical order sits at buffer position `offset + k` on both sides.
proof fn lemma_reshape_view(src: &Array, a: &Array)
    requires
        src.wf(),
        src.is_std_spec(),
        a.store@ == src.store@,
        a.offset == src.offset,
        a.strides@.len() == a.shape@.len(),
        product(a.shape@) == product(src.shape@),
        product(a.shape@) <= count_limit(),
        forall|i: int|
            0 <= i < a.shape@.len() ==> #[trigger] a.strides@[i] == std_stride(a.shape@, i),
    ensures
        a.wf(),
        a.is_std_spec(),
        a.logical() == src.logical(),
{
    assert(is_std_layout(a.shape@, a.strides@));
    let f = |idx: Seq<int>| unflatten(flatten(idx, a.shape@), src.shape@);
    assert forall|idx: Seq<int>| in_bounds(idx, a.shape@) implies in_bounds(
        #[trigger] f(idx),
        src.shape@,
    ) && a.position(idx) == src.position(f(idx)) by {
        lemma_flatten(idx, a.shape@);
        let k = flatten(idx, a.shape@);
        lemma_unflatten(k, src.shape@);
        lemma_dot_std(idx, a.shape@, a.strides@);
        lemma_dot_std(f(idx), src.shape@, src.strides@);
    }
    assert forall|i1: Seq<int>, i2: Seq<int>|
        in_bounds(i1, a.shape@) && in_bounds(i2, a.shape@) && #[trigger] f(i1) == #[trigger] f(
            i2,
        ) implies i1 == i2 by {
        lemma_flatten(i1, a.shape@);
        lemma_flatten(i2, a.shape@);
        lemma_unflatten(flatten(i1, a.shape@), src.shape@);
        lemma_unflatten(flatten(i2, a.shape@), src.shape@);
    }
    lemma_view_wf(src, a, f);
    assert(a.logical() =~= src.logical()) by {
        lemma_product_nonneg(a.shape@);
        assert forall|k: int| 0 <= k < product(a.shape@) implies a.logical()[k]
            == src.logical()[k] by {
            lemma_unflatten(k, a.shape@);
            lemma_unflatten(k, src.shape@);
            lemma_dot_std(unflatten(k, a.shape@), a.shape@, a.strides@);
            lemma_dot_std(unflatten(k, src.shape@), src.shape@, src.strides@);
            lemma_flatten(unflatten(k, a.shape@), a.shape@);
        }
    }
}

/// The multi-index whose row-major position within `shape` is `k`.
pub(crate) fn unflatten_exec(shape: &Vec<usize>, k: usize) -> (r: Vec<usize>)
    requires
        product(shape@) <= count_limit(),
        k < product(shape@),
    ensures
        to_int(r@) == unflatten(k as int, shape@),
        in_bounds(to_int(r@), shape@),
{
    let n = shape.len();
    proof {
        lemma_product_pos(shape@);
        assert forall|i: int|
            0 <= i <= shape@.len() implies #[trigger] product(
            shape@.subrange(i, n as int),
        ) <= count_limit() by {
            lemma_product_suffix_le(shape@, i);
        }
        lemma_unflatten(k as int, shape@);
    }
    let sp = std_strides(shape);
    let mut r: Vec<usize> = Vec::new();
    let mut rem: usize = k;
    let mut i: usize = 0;
    proof {
        assert(shape@.subrange(0, n as int) =~= shape@);
        assert(unflatten(k as int, shape@).skip(0) =~= unflatten(k as int, shape@));
    }
    while i < n
        invariant
            0 <= i <= n,
            n == shape@.len(),
            product(shape@) <= count_limit(),
            k < product(shape@),
            sp@.len() == n,
            forall|j: int| 0 <= j < n ==> #[trigger] sp@[j] == std_stride(shape@, j),
            r@.len() == i,
            in_bounds(unflatten(k as int, shape@), shape@),
            to_int(r@) == unflatten(k as int, shape@).take(i as int),
            0 <= rem,
            unflatten(rem as int, shape@.subrange(i as int, n as int)) == unflatten(
                k as int,
                shape@,
            ).skip(i as int),
            forall|j: int| 0 <= j < n ==> #[trigger] shape@[j] >= 1,
        decreases n - i,
    {
        proof {
            lemma_product_pos(shape@.subrange(i + 1, n as int));
            assert forall|j2: int|
                0 <= j2 < shape@.subrange(i + 1, n as int).len() implies #[trigger] shape@.subrange(
                i + 1,
                n as int,
            )[j2] > 0 by {
                assert(shape@[i + 1 + j2] >= 1);
            }
            lemma_product_suffix_le(shape@, i + 1);
            lemma_product_pos(shape@);
            assert(shape@.subrange(i as int, n as int).drop_first() =~= shape@.subrange(
                i + 1,
                n as int,
            ));
        }
        let p64 = sp[i];
        let p: usize = p64 as usize;
        let q: usize = rem / p;
        let rem2: usize = rem % p;
        r.push(q);
        proof {
            let u = unflatten(k as int, shape@);
            let sub = shape@.subrange(i as int, n as int);
            assert(unflatten(rem as int, sub) == seq![rem as int / (p as int)].add(
                unflatten(rem as int % (p as int), sub.drop_first()),
            ));
            assert(u.skip(i as int)[0] == u[i as int]);
            assert(q as int == rem as int / (p as int));
            assert(rem2 as int == rem as int % (p as int));
            assert(u[i as int] == q as int);
            assert(to_int(r@) =~= u.take(i + 1)) by {
                assert(to_int(r@).len() == i + 1);
                assert forall|j: int| 0 <= j < i + 1 implies #[trigger] to_int(r@)[j] == u.take(
                    i + 1,
                )[j] by {
                    if j < i {
                        assert(to_int(r@)[j] == unflatten(k as int, shape@).take(
                            i as int,
                        )[j]);
                    }
                }
            }
            assert(unflatten(rem2 as int, shape@.subrange(i + 1, n as int)) =~= u.skip(
                i + 1,
            )) by {
                assert(unflatten(rem as int, sub).drop_first() == unflatten(
                    rem as int % (p as int),
                    sub.drop_first(),
                ));
                assert(u.skip(i as int).drop_first() =~= u.skip(i + 1));
            }
        }
        rem = rem2;
        i = i + 1;
    }
    proof {
        assert(unflatten(k as int, shape@).take(n as int) =~= unflatten(
            k as int,
            shape@,
        ));
    }
    r
}

} // verus!
