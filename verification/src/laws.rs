//! General laws of the engine, stated and proved once over the models that
//! the operation contracts use: reversal by negative-step slicing, axis
//! swapping as an involution, the layout effect of a swap, and the sum of
//! all elements as an iterated axis reduction.

use vstd::prelude::*;
use crate::dim::{product, in_bounds, unflatten};
use crate::array::Array;
use crate::slice::{Si, slice_src, src_component};
use crate::view::swap_seq;
use crate::dim::{is_std_layout, std_stride};
use crate::ops::axis_sum;

verus! {

/// The slice specification that selects a whole axis backwards.
pub open spec fn reversing_spec() -> Si {
    Si { start: 0i64, end: None, step: -1i64 }
}

/// Slicing a 1-dimensional array with step -1 reverses its logical order
/// exactly: the hypotheses are what `slice` ensures of its result for the
/// reversing specification.
pub proof fn lemma_slice_reverse(a: &Array, r: &Array)
    requires
        a.wf(),
        a.shape@.len() == 1,
        r.shape@.len() == 1,
        r.shape@[0] == reversing_spec().cnt(a.shape@[0] as int),
        forall|idx: Seq<int>|
            in_bounds(idx, r.shape@) ==> #[trigger] r.at(idx) == a.at(
                slice_src(seq![reversing_spec()], a.shape@, idx),
            ),
    ensures
        r.logical() == a.logical().reverse(),
{
    let len = a.shape@[0] as int;
    let si = reversing_spec();
    assert(si.lo(len) == 0 && si.hi(len) == len);
    if len > 0 {
        vstd::arithmetic::div_mod::lemma_div_by_multiple(len - 1, 1);
        assert((len - 1) * 1 == len - 1) by (nonlinear_arith);
        assert(si.cnt(len) == len);
    } else {
        assert(si.cnt(len) == 0);
    }
    crate::linalg::lemma_product_single(a.shape@);
    crate::linalg::lemma_product_single(r.shape@);
    assert(r.logical() =~= a.logical().reverse()) by {
        assert(r.logical().len() == len);
        assert(a.logical().len() == len);
        assert forall|k: int| 0 <= k < len implies r.logical()[k] == a.logical().reverse()[
            k
        ] by {
            crate::linalg::lemma_at1(r, k);
            assert(r.at(seq![k]) == a.at(slice_src(seq![si], a.shape@, seq![k])));
            assert(src_component(si, len, k) == (len - 1) + k * (si.step as int));
            assert(k * (-1int) == -k) by (nonlinear_arith);
            assert(slice_src(seq![si], a.shape@, seq![k]) =~= seq![len - 1 - k]);
            crate::linalg::lemma_at1(a, len - 1 - k);
        }
    }
}

/// Exchanging the same pair of axes twice is the identity transform on an
/// array: shape, strides, and hence the logical element order all return
/// to what they were. The hypotheses are what two runs of `swap_axes`
/// ensure.
pub proof fn lemma_swap_axes_twice_identity(a0: &Array, a1: &Array, a2: &Array, i: int, j: int)
    requires
        0 <= i < a0.shape@.len(),
        0 <= j < a0.shape@.len(),
        a0.strides@.len() == a0.shape@.len(),
        a1.store@ == a0.store@,
        a1.offset == a0.offset,
        a1.shape@ == swap_seq(a0.shape@, i, j),
        a1.strides@ == swap_seq(a0.strides@, i, j),
        a2.store@ == a1.store@,
        a2.offset == a1.offset,
        a2.shape@ == swap_seq(a1.shape@, i, j),
        a2.strides@ == swap_seq(a1.strides@, i, j),
    ensures
        a2.shape@ == a0.shape@,
        a2.strides@ == a0.strides@,
        a2.logical() == a0.logical(),
{
    crate::view::lemma_swap_axes_involution(a0.shape@, a0.strides@, i, j);
    assert(a2.logical() =~= a0.logical()) by {
        assert(forall|idx: Seq<int>| #[trigger] a2.position(idx) == a0.position(idx));
        assert forall|k: int| 0 <= k < a0.count_spec() implies a2.logical()[k] == a0.logical()[
            k
        ] by {
            assert(a2.at(unflatten(k, a0.shape@)) == a0.at(unflatten(k, a0.shape@)));
        }
    }
}

/// A corollary for square matrices: after exchanging the same pair of axes
/// twice, the array holds the same matrix, so its Cholesky factorization is
/// the same, element for element.
pub proof fn lemma_swap_axes_twice_preserves_cholesky(
    a0: &Array,
    a1: &Array,
    a2: &Array,
    i: int,
    j: int,
)
    requires
        a0.shape@.len() == 2,
        0 <= i < a0.shape@.len(),
        0 <= j < a0.shape@.len(),
        a0.strides@.len() == a0.shape@.len(),
        a1.store@ == a0.store@,
        a1.offset == a0.offset,
        a1.shape@ == swap_seq(a0.shape@, i, j),
        a1.strides@ == swap_seq(a0.strides@, i, j),
        a2.store@ == a1.store@,
        a2.offset == a1.offset,
        a2.shape@ == swap_seq(a1.shape@, i, j),
        a2.strides@ == swap_seq(a1.strides@, i, j),
    ensures
        crate::linalg::mat_of(*a2) == crate::linalg::mat_of(*a0),
        crate::linalg::chol_model(crate::linalg::mat_of(*a2), a2.shape@[0] as int)
            == crate::linalg::chol_model(crate::linalg::mat_of(*a0), a0.shape@[0] as int),
{
    lemma_swap_axes_twice_identity(a0, a1, a2, i, j);
    assert(crate::linalg::mat_of(*a2) =~= crate::linalg::mat_of(*a0)) by {
        assert(forall|idx: Seq<int>| #[trigger] a2.position(idx) == a0.position(idx));
        assert forall|r: int| 0 <= r < a0.shape@[0] implies crate::linalg::mat_of(*a2)[r]
            =~= crate::linalg::mat_of(*a0)[r] by {
            assert forall|c: int| 0 <= c < a0.shape@[1] implies crate::linalg::mat_of(*a2)[r][c]
                == crate::linalg::mat_of(*a0)[r][c] by {
                assert(a2.at(seq![r, c]) == a0.at(seq![r, c]));
            }
        }
    }
}

/// Swapping two axes that both have more than one index destroys the
/// standard layout of a 2-dimensional array.
pub proof fn lemma_swap_axes_breaks_standard_layout(shape: Seq<usize>, strides: Seq<i64>)
    requires
        shape.len() == 2,
        strides.len() == 2,
        shape[0] > 1,
        shape[1] > 1,
        is_std_layout(shape, strides),
    ensures
        !is_std_layout(swap_seq(shape, 0, 1), swap_seq(strides, 0, 1)),
{
    let s2 = swap_seq(shape, 0, 1);
    let t2 = swap_seq(strides, 0, 1);
    assert(shape.subrange(2, 2) =~= Seq::<usize>::empty());
    assert(product(shape.subrange(2, 2)) == 1);
    assert(std_stride(shape, 1) == 1);
    assert(strides[1] == 1);
    if is_std_layout(s2, t2) {
        assert(s2[0] == shape[1] && t2[0] == strides[1]);
        assert(s2.subrange(1, 2) =~= seq![shape[0]]);
        assert(seq![shape[0]].drop_first() =~= Seq::<usize>::empty());
        assert(product(Seq::<usize>::empty()) == 1);
        assert(product(seq![shape[0]]) == shape[0] * 1);
        assert(shape[0] * 1 == shape[0] as int) by (nonlinear_arith);
        assert(std_stride(s2, 0) == shape[0]);
        assert(s2[0] <= 1 || t2[0] == std_stride(s2, 0));
        assert(1 == shape[0] as int);
        assert(false);
    }
}

/// The wrapping 64-bit sum is associative.
pub proof fn lemma_wadd_assoc(x: i64, y: i64, z: i64)
    ensures
        x.wrapping_add(y).wrapping_add(z) == x.wrapping_add(y.wrapping_add(z)),
{
}

/// The sum of every element, folded in logical order.
pub open spec fn total_sum(s: Seq<i64>) -> i64 {
    s.fold_left(0i64, |acc: i64, x: i64| acc.wrapping_add(x))
}

/// Folding from a carried partial sum equals carrying the fold.
proof fn lemma_fold_shift(s: Seq<i64>, x: i64)
    ensures
        s.fold_left(x, |acc: i64, v: i64| acc.wrapping_add(v)) == x.wrapping_add(total_sum(s)),
    decreases s.len(),
{
    let f = |acc: i64, v: i64| acc.wrapping_add(v);
    if s.len() == 0 {
        assert(x.wrapping_add(0) == x);
    } else {
        lemma_fold_shift(s.drop_last(), x);
        lemma_fold_shift(s.drop_last(), 0);
        lemma_wadd_assoc(x, total_sum(s.drop_last()), s.last());
        assert(s.fold_left(x, f) == f(s.drop_last().fold_left(x, f), s.last()));
        assert(total_sum(s) == f(s.drop_last().fold_left(0i64, f), s.last()));
        assert(0i64.wrapping_add(total_sum(s.drop_last())) == total_sum(s.drop_last()));
    }
}

/// The fold of a concatenation is the wrapping sum of the two folds.
proof fn lemma_fold_concat(u: Seq<i64>, v: Seq<i64>)
    ensures
        total_sum(u.add(v)) == total_sum(u).wrapping_add(total_sum(v)),
    decreases v.len(),
{
    let f = |acc: i64, x: i64| acc.wrapping_add(x);
    if v.len() == 0 {
        assert(u.add(v) =~= u);
        assert(total_sum(u).wrapping_add(0) == total_sum(u));
    } else {
        lemma_fold_concat(u, v.drop_last());
        lemma_wadd_assoc(total_sum(u), total_sum(v.drop_last()), v.last());
        assert(u.add(v).drop_last() =~= u.add(v.drop_last()));
        assert(u.add(v).last() == v.last());
        assert(total_sum(u.add(v)) == f(total_sum(u.add(v.drop_last())), v.last()));
        assert(total_sum(v) == f(total_sum(v.drop_last()), v.last()));
    }
}

/// A row's axis sum is the fold of its logical segment.
proof fn lemma_row_sum(a: &Array, k: int, j: int)
    requires
        a.wf(),
        a.shape@.len() == 2,
        0 <= k < a.shape@[0],
        0 <= j <= a.shape@[1],
    ensures
        axis_sum(*a, 1, seq![k], j) == total_sum(
            a.logical().subrange(
                k * (a.shape@[1] as int),
                k * (a.shape@[1] as int) + j,
            ),
        ),
    decreases j,
{
    let c = a.shape@[1] as int;
    crate::linalg::lemma_product_pair(a.shape@);
    assert(a.logical().len() == product(a.shape@));
    assert(0 <= k * c && (k + 1) * c <= product(a.shape@)) by (nonlinear_arith)
        requires
            0 <= k < a.shape@[0],
            c == a.shape@[1],
            product(a.shape@) == a.shape@[0] * a.shape@[1],
    ;
    assert(k * c + c == (k + 1) * c) by (nonlinear_arith);
    assert(k * c + j <= k * c + c);
    if j == 0 {
        assert(a.logical().subrange(k * c, k * c) =~= Seq::<i64>::empty());
    } else {
        lemma_row_sum(a, k, j - 1);
        let seg = a.logical().subrange(k * c, k * c + j);
        assert(seg.drop_last() =~= a.logical().subrange(k * c, k * c + j - 1));
        assert(seg.last() == a.logical()[k * c + j - 1]);
        assert(seq![k].insert(1, j - 1) =~= seq![k, j - 1]);
        assert(in_bounds(seq![k, j - 1], a.shape@));
        a.lemma_at_logical(seq![k, j - 1]);
        crate::linalg::lemma_flatten_pair(k, j - 1, a.shape@);
        let f = |acc: i64, x: i64| acc.wrapping_add(x);
        assert(total_sum(seg) == f(total_sum(seg.drop_last()), seg.last())) by {
            assert(seg.fold_left(0i64, f) == f(seg.drop_last().fold_left(0i64, f), seg.last()));
        }
    }
}

/// Summing the trailing axis of a 2-dimensional array and then the
/// remaining axis yields the wrapping sum of all elements, as a
/// 0-dimensional scalar. The hypotheses on `s1` and `s0` are what two runs
/// of `sum` ensure.
pub proof fn lemma_sum_twice_is_total(a: &Array, s1: &Array, s0: &Array)
    requires
        a.wf(),
        a.shape@.len() == 2,
        s1.shape@ == a.shape@.remove(1),
        forall|idx: Seq<int>|
            in_bounds(idx, s1.shape@) ==> #[trigger] s1.at(idx) == axis_sum(
                *a,
                1,
                idx,
                a.shape@[1] as int,
            ),
        s0.shape@ == s1.shape@.remove(0),
        forall|idx: Seq<int>|
            in_bounds(idx, s0.shape@) ==> #[trigger] s0.at(idx) == axis_sum(
                *s1,
                0,
                idx,
                s1.shape@[0] as int,
            ),
    ensures
        s0.at(Seq::<int>::empty()) == total_sum(a.logical()),
{
    let r = a.shape@[0] as int;
    let c = a.shape@[1] as int;
    assert(s1.shape@ =~= seq![a.shape@[0]]);
    assert(s0.shape@ =~= Seq::<usize>::empty());
    assert(in_bounds(Seq::<int>::empty(), s0.shape@));
    assert(s0.at(Seq::<int>::empty()) == axis_sum(*s1, 0, Seq::<int>::empty(), r));
    crate::linalg::lemma_product_pair(a.shape@);
    assert(a.logical().len() == r * c);
    assert forall|k: int| 0 <= k <= r implies axis_sum(*s1, 0, Seq::<int>::empty(), k)
        == total_sum(a.logical().take(k * c)) by {
        lemma_partial_total(a, s1, k);
    }
    assert(a.logical().take(r * c) =~= a.logical());
}

/// The partial outer sum equals the fold over the rows consumed so far.
proof fn lemma_partial_total(a: &Array, s1: &Array, k: int)
    requires
        a.wf(),
        a.shape@.len() == 2,
        s1.shape@ == a.shape@.remove(1),
        forall|idx: Seq<int>|
            in_bounds(idx, s1.shape@) ==> #[trigger] s1.at(idx) == axis_sum(
                *a,
                1,
                idx,
                a.shape@[1] as int,
            ),
        0 <= k <= a.shape@[0],
    ensures
        axis_sum(*s1, 0, Seq::<int>::empty(), k) == total_sum(
            a.logical().take(k * (a.shape@[1] as int)),
        ),
    decreases k,
{
    let c = a.shape@[1] as int;
    crate::linalg::lemma_product_pair(a.shape@);
    assert(a.logical().len() == product(a.shape@));
    assert(0 <= k * c <= product(a.shape@)) by (nonlinear_arith)
        requires
            0 <= k <= a.shape@[0],
            c == a.shape@[1],
            product(a.shape@) == a.shape@[0] * a.shape@[1],
    ;
    if k == 0 {
        assert(k * c == 0) by (nonlinear_arith)
            requires
                k == 0,
        ;
        assert(a.logical().take(0) =~= Seq::<i64>::empty());
    } else {
        lemma_partial_total(a, s1, k - 1);
        assert(Seq::<int>::empty().insert(0, k - 1) =~= seq![k - 1]);
        assert(s1.shape@ =~= seq![a.shape@[0]]);
        assert(in_bounds(seq![k - 1], s1.shape@));
        assert(s1.at(seq![k - 1]) == axis_sum(*a, 1, seq![k - 1], c));
        lemma_row_sum(a, k - 1, c);
        let whole = a.logical();
        assert((k - 1) * c + c == k * c) by (nonlinear_arith);
        assert(whole.take(k * c) =~= whole.take((k - 1) * c).add(
            whole.subrange((k - 1) * c, k * c),
        ));
        lemma_fold_concat(whole.take((k - 1) * c), whole.subrange((k - 1) * c, k * c));
    }
}

} // verus!
