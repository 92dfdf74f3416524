//! View transformations: fixing one axis (subview) and exchanging two axes
//! (swap_axes). Both share the storage and only rearrange shape, strides and
//! offset; their contracts say which element of the source each element of
//! the view is.

use vstd::prelude::*;
use crate::dim::{
    product, in_bounds, count_limit, lemma_product_pos, lemma_product_nonneg,
};
use crate::array::{Array, to_int};

verus! {

/// `s` with the entries at `i` and `j` exchanged.
pub open spec fn swap_seq<T>(s: Seq<T>, i: int, j: int) -> Seq<T> {
    s.update(i, s[j]).update(j, s[i])
}

/// A view over the same storage is well-formed if its valid indices map,
/// injectively, to valid indices of a well-formed source with the same
/// positions.
pub proof fn lemma_view_wf(a: &Array, b: &Array, f: spec_fn(Seq<int>) -> Seq<int>)
    requires
        a.wf(),
        b.store@ == a.store@,
        b.strides@.len() == b.shape@.len(),
        product(b.shape@) <= count_limit(),
        forall|idx: Seq<int>|
            in_bounds(idx, b.shape@) ==> in_bounds(#[trigger] f(idx), a.shape@) && b.position(idx)
                == a.position(f(idx)),
        forall|i1: Seq<int>, i2: Seq<int>|
            in_bounds(i1, b.shape@) && in_bounds(i2, b.shape@) && #[trigger] f(i1) == #[trigger] f(
                i2,
            ) ==> i1 == i2,
    ensures
        b.wf(),
{
    assert forall|idx: Seq<int>| in_bounds(idx, b.shape@) implies 0 <= #[trigger] b.position(idx)
        < b.store@.len() by {
        assert(0 <= a.position(f(idx)) < a.store@.len());
    }
    assert forall|i1: Seq<int>, i2: Seq<int>|
        in_bounds(i1, b.shape@) && in_bounds(i2, b.shape@) && #[trigger] b.position(i1)
            == #[trigger] b.position(i2) implies i1 == i2 by {
        assert(a.position(f(i1)) == a.position(f(i2)));
        assert(f(i1) == f(i2));
    }
}

/// Removing one entry multiplies back to the original product.
pub proof fn lemma_product_remove(s: Seq<usize>, i: int)
    requires
        0 <= i < s.len(),
    ensures
        product(s.remove(i)) * s[i] == product(s),
    decreases s.len(),
{
    if i == 0 {
        assert(s.remove(0) =~= s.drop_first());
        assert(product(s.drop_first()) * s[0] == s[0] * product(s.drop_first()))
            by (nonlinear_arith);
    } else {
        lemma_product_remove(s.drop_first(), i - 1);
        assert(s.remove(i).drop_first() =~= s.drop_first().remove(i - 1));
        assert(s.remove(i)[0] == s[0]);
        assert(product(s.remove(i)) == s[0] * product(s.drop_first().remove(i - 1)));
        assert(s.drop_first()[i - 1] == s[i]);
        assert((s[0] * product(s.drop_first().remove(i - 1))) * s[i] == s[0] * (product(
            s.drop_first().remove(i - 1),
        ) * s[i])) by (nonlinear_arith);
    }
}

impl Array {
    /// Fixes axis `axis` to `index`, producing a view of rank one less over
    /// the same storage: element `idx` of the view is element
    /// `idx` with `index` re-inserted at `axis` of this array.
    pub fn subview(&self, axis: usize, index: usize) -> (r: Array)
        requires
            self.wf(),
            axis < self.rank_spec(),
            index < self.shape@[axis as int],
        ensures
            r.wf(),
            r.store@ == self.store@,
            r.shape@ == self.shape@.remove(axis as int),
            r.strides@ == self.strides@.remove(axis as int),
            forall|idx: Seq<int>|
                in_bounds(idx, r.shape@) ==> #[trigger] r.at(idx) == self.at(
                    idx.insert(axis as int, index as int),
                ),
    {
        let mut shape = self.shape.clone();
        let mut strides = self.strides.clone();
        shape.remove(axis);
        strides.remove(axis);
        proof {
            lemma_product_remove(self.shape@, axis as int);
            lemma_product_nonneg(self.shape@.remove(axis as int));
            assert(product(shape@) <= count_limit()) by (nonlinear_arith)
                requires
                    product(shape@) * self.shape@[axis as int] == product(self.shape@),
                    self.shape@[axis as int] >= 1,
                    product(shape@) >= 0,
                    product(self.shape@) <= count_limit(),
            ;
        }
        let c = self.count();
        let off: usize = if c == 0 {
            0
        } else {
            // The new base offset is the position of the source index that
            // holds `index` at `axis` and zero elsewhere.
            let mut zidx: Vec<usize> = Vec::new();
            let n = self.shape.len();
            let mut i: usize = 0;
            while i < n
                invariant
                    0 <= i <= n,
                    zidx@.len() == i,
                    forall|j: int| 0 <= j < i ==> #[trigger] zidx@[j] == 0,
                decreases n - i,
            {
                zidx.push(0);
                i = i + 1;
            }
            zidx.set(axis, index);
            proof {
                lemma_product_pos(self.shape@);
                assert(in_bounds(to_int(zidx@), self.shape@));
            }
            let off_val = self.position_of(&zidx);
            proof {
                let z = to_int(zidx@);
                lemma_dot_insert(z.remove(axis as int), self.strides@, axis as int, index as int);
                assert(z.remove(axis as int).insert(axis as int, index as int) =~= z);
                lemma_dot_zero(z.remove(axis as int), self.strides@.remove(axis as int));
                assert(off_val == self.offset + (index as int) * self.strides@[axis as int]);
            }
            off_val
        };
        let r = Array { store: self.store.clone(), shape, strides, offset: off };
        proof {
            let ghost f = |idx: Seq<int>| idx.insert(axis as int, index as int);
            if c == 0 {
            } else {
                lemma_product_pos(self.shape@);
            }
            assert forall|idx: Seq<int>| in_bounds(idx, r.shape@) implies in_bounds(
                #[trigger] f(idx),
                self.shape@,
            ) && r.position(idx) == self.position(f(idx)) by {
                lemma_subview_map(self, &r, axis as int, index as int, idx);
            }
            assert forall|i1: Seq<int>, i2: Seq<int>|
                in_bounds(i1, r.shape@) && in_bounds(i2, r.shape@) && #[trigger] f(i1)
                    == #[trigger] f(i2) implies i1 == i2 by {
                assert(f(i1).remove(axis as int) =~= i1);
                assert(f(i2).remove(axis as int) =~= i2);
            }
            lemma_view_wf(self, &r, f);
            assert forall|idx: Seq<int>| in_bounds(idx, r.shape@) implies #[trigger] r.at(idx)
                == self.at(idx.insert(axis as int, index as int)) by {
                assert(r.position(idx) == self.position(f(idx)));
            }
        }
        r
    }
}

/// Replacing one entry rescales the product accordingly.
pub proof fn lemma_product_update(s: Seq<usize>, i: int, v: usize)
    requires
        0 <= i < s.len(),
    ensures
        product(s.update(i, v)) * s[i] == product(s) * v,
    decreases s.len(),
{
    if i == 0 {
        assert(s.update(0, v).drop_first() =~= s.drop_first());
        assert((v * product(s.drop_first())) * s[0] == (s[0] * product(s.drop_first())) * v)
            by (nonlinear_arith);
    } else {
        lemma_product_update(s.drop_first(), i - 1, v);
        assert(s.update(i, v).drop_first() =~= s.drop_first().update(i - 1, v));
        assert(s.update(i, v)[0] == s[0]);
        let pd = product(s.drop_first());
        let pu = product(s.drop_first().update(i - 1, v));
        assert((s[0] * pu) * s[i] == s[0] * (pu * s[i])) by (nonlinear_arith);
        assert(s.drop_first()[i - 1] == s[i]);
        assert(s[0] * (pd * v) == (s[0] * pd) * v) by (nonlinear_arith);
    }
}

/// Exchanging two entries leaves the product unchanged.
pub proof fn lemma_product_swap(s: Seq<usize>, i: int, j: int)
    requires
        0 <= i < s.len(),
        0 <= j < s.len(),
    ensures
        product(swap_seq(s, i, j)) == product(s),
{
    if i == j {
        assert(swap_seq(s, i, j) =~= s);
    } else {
        let s1 = s.update(i, s[j]);
        let s2 = s1.update(j, s[i]);
        lemma_product_update(s, i, s[j]);
        lemma_product_update(s1, j, s[i]);
        assert(s1[j] == s[j]);
        if s[j] == 0 {
            crate::dim::lemma_product_zero_axis(s, j);
            assert(s2[i] == s[j]);
            crate::dim::lemma_product_zero_axis(s2, i);
        } else {
            assert(product(s2) * s[j] == (product(s1) * s[i]));
            assert(product(s1) * s[i] == product(s) * s[j]) by (nonlinear_arith)
                requires
                    product(s1) * s[i] == product(s) * s[j],
            ;
            assert(product(s2) == product(s)) by (nonlinear_arith)
                requires
                    product(s2) * s[j] == product(s) * s[j],
                    s[j] != 0,
            ;
        }
    }
}

/// Replacing one index component shifts the offset by the component change
/// times the stride.
proof fn lemma_dot_update(idx: Seq<int>, strides: Seq<i64>, k: int, v: int)
    requires
        0 <= k < idx.len(),
        idx.len() <= strides.len(),
    ensures
        crate::dim::dot(idx.update(k, v), strides) == crate::dim::dot(idx, strides) + (v - idx[k])
            * strides[k],
    decreases k,
{
    if k == 0 {
        assert(idx.update(0, v).drop_first() =~= idx.drop_first());
        assert(v * strides[0] == idx[0] * strides[0] + (v - idx[0]) * strides[0])
            by (nonlinear_arith);
    } else {
        lemma_dot_update(idx.drop_first(), strides.drop_first(), k - 1, v);
        assert(idx.update(k, v).drop_first() =~= idx.drop_first().update(k - 1, v));
        assert(idx.update(k, v)[0] == idx[0]);
        assert(idx.drop_first()[k - 1] == idx[k]);
        assert(strides.drop_first()[k - 1] == strides[k]);
    }
}

impl Array {
    /// Exchanges axes `i` and `j`: shape and strides are swapped, no data
    /// moves, and element `idx` of the result is element `idx` with
    /// components `i` and `j` exchanged of the original.
    pub fn swap_axes(&mut self, i: usize, j: usize)
        requires
            old(self).wf(),
            i < old(self).rank_spec(),
            j < old(self).rank_spec(),
        ensures
            final(self).wf(),
            final(self).store@ == old(self).store@,
            final(self).offset == old(self).offset,
            final(self).shape@ == swap_seq(old(self).shape@, i as int, j as int),
            final(self).strides@ == swap_seq(old(self).strides@, i as int, j as int),
            forall|idx: Seq<int>|
                in_bounds(idx, final(self).shape@) ==> #[trigger] final(self).at(idx) == old(
                    self,
                ).at(swap_seq(idx, i as int, j as int)),
    {
        let si = self.shape[i];
        let sj = self.shape[j];
        self.shape.set(i, sj);
        self.shape.set(j, si);
        let ti = self.strides[i];
        let tj = self.strides[j];
        self.strides.set(i, tj);
        self.strides.set(j, ti);
        proof {
            let o = *old(self);
            let b = *self;
            let ii = i as int;
            let jj = j as int;
            assert(b.shape@ =~= swap_seq(o.shape@, ii, jj));
            assert(b.strides@ =~= swap_seq(o.strides@, ii, jj));
            lemma_product_swap(o.shape@, ii, jj);
            let ghost f = |idx: Seq<int>| swap_seq(idx, ii, jj);
            assert forall|idx: Seq<int>| in_bounds(idx, b.shape@) implies in_bounds(
                #[trigger] f(idx),
                o.shape@,
            ) && b.position(idx) == o.position(f(idx)) by {
                lemma_swap_map(&o, &b, ii, jj, idx);
            }
            assert forall|i1: Seq<int>, i2: Seq<int>|
                in_bounds(i1, b.shape@) && in_bounds(i2, b.shape@) && #[trigger] f(i1)
                    == #[trigger] f(i2) implies i1 == i2 by {
                assert(swap_seq(f(i1), ii, jj) =~= i1);
                assert(swap_seq(f(i2), ii, jj) =~= i2);
            }
            lemma_view_wf(&o, &b, f);
            assert forall|idx: Seq<int>| in_bounds(idx, b.shape@) implies #[trigger] b.at(idx)
                == o.at(swap_seq(idx, ii, jj)) by {
                assert(b.position(idx) == o.position(f(idx)));
            }
        }
    }
}

/// The swapped view addresses, at `idx`, the source position of the swapped
/// index.
proof fn lemma_swap_map(a: &Array, b: &Array, i: int, j: int, idx: Seq<int>)
    requires
        a.wf(),
        0 <= i < a.shape@.len(),
        0 <= j < a.shape@.len(),
        b.shape@ == swap_seq(a.shape@, i, j),
        b.strides@ == swap_seq(a.strides@, i, j),
        b.offset == a.offset,
        in_bounds(idx, b.shape@),
    ensures
        in_bounds(swap_seq(idx, i, j), a.shape@),
        b.position(idx) == a.position(swap_seq(idx, i, j)),
{
    let g = swap_seq(idx, i, j);
    assert(in_bounds(g, a.shape@)) by {
        assert forall|k: int| 0 <= k < g.len() implies 0 <= #[trigger] g[k] < a.shape@[k] by {
            if k == i {
                assert(g[k] == idx[j] && b.shape@[j] == a.shape@[i]);
            } else if k == j {
                assert(g[k] == idx[i] && b.shape@[i] == a.shape@[j]);
            } else {
                assert(g[k] == idx[k] && b.shape@[k] == a.shape@[k]);
            }
        }
    }
    if i == j {
        assert(g =~= idx);
        assert(b.strides@ =~= a.strides@);
    } else {
        let s = a.strides@;
        let d0 = crate::dim::dot(idx, s);
        lemma_dot_update(idx, s, i, idx[j]);
        let u1 = idx.update(i, idx[j]);
        lemma_dot_update(u1, s, j, idx[i]);
        assert(u1[j] == idx[j]);
        assert(crate::dim::dot(g, s) == d0 + (idx[j] - idx[i]) * s[i] + (idx[i] - idx[j]) * s[j]);
        let t = b.strides@;
        let d1 = crate::dim::dot(idx, t);
        lemma_dot_update(idx, t, i, idx[i]);
        let w1 = idx.update(i, idx[i]);
        lemma_dot_update(w1, t, j, idx[j]);
        assert(w1 =~= idx);
        assert(t.update(i, s[i]).update(j, s[j]) =~= s) by {
            assert(t[i] == s[j] && t[j] == s[i]);
        }
        lemma_dot_strides_update(idx, t, i, s[i] as int);
        let t1 = t.update(i, s[i]);
        lemma_dot_strides_update(idx, t1, j, s[j] as int);
        assert(t1.update(j, s[j]) =~= s);
        assert(crate::dim::dot(idx, s) == d1 + idx[i] * (s[i] - t[i]) + idx[j] * (s[j] - t1[j]));
        assert(t1[j] == t[j]);
        assert(d1 == d0 - idx[i] * (s[i] - s[j]) - idx[j] * (s[j] - s[i]));
        assert(d0 + (idx[j] - idx[i]) * s[i] + (idx[i] - idx[j]) * s[j] == d0 - idx[i] * (s[i]
            - s[j]) - idx[j] * (s[j] - s[i])) by (nonlinear_arith);
    }
}

/// Replacing one stride shifts the offset by the index component times the
/// stride change.
proof fn lemma_dot_strides_update(idx: Seq<int>, strides: Seq<i64>, k: int, w: int)
    requires
        0 <= k < idx.len(),
        idx.len() <= strides.len(),
        i64::MIN <= w <= i64::MAX,
    ensures
        crate::dim::dot(idx, strides.update(k, w as i64)) == crate::dim::dot(idx, strides)
            + idx[k] * (w - strides[k]),
    decreases k,
{
    if k == 0 {
        assert(strides.update(0, w as i64).drop_first() =~= strides.drop_first());
        assert(idx[0] * w == idx[0] * strides[0] + idx[0] * (w - strides[0])) by (nonlinear_arith);
    } else {
        lemma_dot_strides_update(idx.drop_first(), strides.drop_first(), k - 1, w);
        assert(strides.update(k, w as i64).drop_first() =~= strides.drop_first().update(
            k - 1,
            w as i64,
        ));
        assert(strides.update(k, w as i64)[0] == strides[0]);
        assert(idx.drop_first()[k - 1] == idx[k]);
        assert(strides.drop_first()[k - 1] == strides[k]);
    }
}

/// Exchanging the same pair of axes twice is the identity transform: shape,
/// strides and (hence) logical iteration order return to what they were.
pub proof fn lemma_swap_axes_involution(s: Seq<usize>, t: Seq<i64>, i: int, j: int)
    requires
        0 <= i < s.len(),
        0 <= j < s.len(),
        t.len() == s.len(),
    ensures
        swap_seq(swap_seq(s, i, j), i, j) == s,
        swap_seq(swap_seq(t, i, j), i, j) == t,
{
    assert(swap_seq(swap_seq(s, i, j), i, j) =~= s);
    assert(swap_seq(swap_seq(t, i, j), i, j) =~= t);
}

/// For a valid view index, the subview position equation: inserting the
/// fixed component recovers a valid source index at the same buffer
/// position.
proof fn lemma_subview_map(a: &Array, b: &Array, axis: int, index: int, idx: Seq<int>)
    requires
        a.wf(),
        0 <= axis < a.shape@.len(),
        0 <= index < a.shape@[axis],
        b.shape@ == a.shape@.remove(axis),
        b.strides@ == a.strides@.remove(axis),
        in_bounds(idx, b.shape@),
        product(a.shape@) > 0 ==> b.offset == a.offset + index * a.strides@[axis],
    ensures
        in_bounds(idx.insert(axis, index), a.shape@),
        b.position(idx) == a.position(idx.insert(axis, index)),
{
    let full = idx.insert(axis, index);
    assert(in_bounds(full, a.shape@)) by {
        assert forall|i: int| 0 <= i < full.len() implies 0 <= #[trigger] full[i] < a.shape@[i] by {
            if i < axis {
                assert(full[i] == idx[i] && a.shape@.remove(axis)[i] == a.shape@[i]);
            } else if i == axis {
            } else {
                assert(full[i] == idx[i - 1] && a.shape@.remove(axis)[i - 1] == a.shape@[i]);
            }
        }
    }
    assert(product(a.shape@) > 0) by {
        lemma_product_pos(a.shape@);
        assert forall|i: int| 0 <= i < a.shape@.len() implies #[trigger] a.shape@[i] > 0 by {
            assert(0 <= full[i] < a.shape@[i]);
        }
    }
    lemma_dot_insert(idx, a.strides@, axis, index);
}

/// An all-zero index contributes nothing to the offset computation.
proof fn lemma_dot_zero(idx: Seq<int>, strides: Seq<i64>)
    requires
        forall|i: int| 0 <= i < idx.len() ==> #[trigger] idx[i] == 0,
    ensures
        crate::dim::dot(idx, strides) == 0,
    decreases idx.len(),
{
    if idx.len() > 0 {
        lemma_dot_zero(idx.drop_first(), strides.drop_first());
        assert(idx[0] * strides[0] == 0) by (nonlinear_arith)
            requires
                idx[0] == 0,
        ;
    }
}

/// Inserting a component into an index adds its contribution to the offset
/// computation.
proof fn lemma_dot_insert(idx: Seq<int>, strides: Seq<i64>, axis: int, index: int)
    requires
        0 <= axis < strides.len(),
        idx.len() == strides.len() - 1,
    ensures
        crate::dim::dot(idx.insert(axis, index), strides) == index * strides[axis]
            + crate::dim::dot(idx, strides.remove(axis)),
    decreases axis,
{
    let full = idx.insert(axis, index);
    if axis == 0 {
        assert(full.drop_first() =~= idx);
        assert(strides.remove(0) =~= strides.drop_first());
        assert(full[0] == index);
    } else {
        lemma_dot_insert(idx.drop_first(), strides.drop_first(), axis - 1, index);
        assert(full.drop_first() =~= idx.drop_first().insert(axis - 1, index));
        assert(strides.remove(axis).drop_first() =~= strides.drop_first().remove(axis - 1));
        assert(full[0] == idx[0]);
        assert(strides.remove(axis)[0] == strides[0]);
        assert(strides.drop_first()[axis - 1] == strides[axis]);
    }
}

} // verus!
