//! Shape and stride arithmetic: element counts, row-major (standard) stride
//! layouts, the flattening of a multi-index to a row-major position, and the
//! offset computation `offset + sum(index[i] * stride[i])`.

use vstd::prelude::*;

verus! {

/// Total element count of a shape: the product of its axis lengths.
/// The empty shape describes a 0-dimensional scalar and has one element.
pub open spec fn product(shape: Seq<usize>) -> int
    decreases shape.len(),
{
    if shape.len() == 0 {
        1
    } else {
        shape[0] * product(shape.drop_first())
    }
}

/// `idx` addresses one element of an array of shape `shape`: one component
/// per axis, each within `[0, axis length)`.
pub open spec fn in_bounds(idx: Seq<int>, shape: Seq<usize>) -> bool {
    idx.len() == shape.len() && forall|i: int|
        0 <= i < idx.len() ==> 0 <= #[trigger] idx[i] < shape[i]
}

/// The memory offset (in elements, relative to the base offset) of `idx`
/// under the given strides.
pub open spec fn dot(idx: Seq<int>, strides: Seq<i64>) -> int
    decreases idx.len(),
{
    if idx.len() == 0 {
        0
    } else {
        idx[0] * strides[0] + dot(idx.drop_first(), strides.drop_first())
    }
}

/// The row-major position of `idx` within a shape: the number of elements
/// that precede it in logical order.
pub open spec fn flatten(idx: Seq<int>, shape: Seq<usize>) -> int
    decreases idx.len(),
{
    if idx.len() == 0 {
        0
    } else {
        idx[0] * product(shape.drop_first()) + flatten(idx.drop_first(), shape.drop_first())
    }
}

/// The inverse of `flatten`: the multi-index whose row-major position is `k`.
pub open spec fn unflatten(k: int, shape: Seq<usize>) -> Seq<int>
    decreases shape.len(),
{
    if shape.len() == 0 {
        Seq::empty()
    } else {
        let p = product(shape.drop_first());
        seq![k / p].add(unflatten(k % p, shape.drop_first()))
    }
}

/// The default row-major stride for one axis: the product of the lengths of
/// all later axes.
pub open spec fn std_stride(shape: Seq<usize>, i: int) -> int {
    product(shape.subrange(i + 1, shape.len() as int))
}

/// The strides describe exactly the default row-major layout for this shape.
/// An axis of length 0 or 1 admits at most one index, so its stride cannot
/// influence which element is addressed and is ignored.
pub open spec fn is_std_layout(shape: Seq<usize>, strides: Seq<i64>) -> bool {
    strides.len() == shape.len() && forall|i: int|
        0 <= i < shape.len() ==> (#[trigger] shape[i] <= 1 || strides[i] == std_stride(shape, i))
}

/// The largest element count the engine accepts: counts must fit both the
/// machine's `usize` and the signed 64-bit range that strides and positions
/// are computed in.
pub open spec fn count_limit() -> int {
    if usize::MAX < i64::MAX {
        usize::MAX as int
    } else {
        i64::MAX as int
    }
}

/// The count limit, as a machine value.
pub fn count_limit_exec() -> (r: usize)
    ensures
        r == count_limit(),
{
    let m: u64 = i64::MAX as u64;
    if (usize::MAX as u64) < m {
        usize::MAX
    } else {
        m as usize
    }
}

/// An axis of length zero makes the whole count zero.
pub proof fn lemma_product_zero_axis(shape: Seq<usize>, i: int)
    requires
        0 <= i < shape.len(),
        shape[i] == 0,
    ensures
        product(shape) == 0,
    decreases shape.len(),
{
    if i == 0 {
        assert(0 * product(shape.drop_first()) == 0) by (nonlinear_arith);
    } else {
        lemma_product_zero_axis(shape.drop_first(), i - 1);
        assert(shape[0] * 0 == 0) by (nonlinear_arith);
    }
}

/// With every earlier axis positive, a row-major suffix count is at most the
/// total count.
pub proof fn lemma_product_suffix_le(shape: Seq<usize>, i: int)
    requires
        0 <= i <= shape.len(),
        forall|j: int| 0 <= j < i ==> #[trigger] shape[j] >= 1,
    ensures
        product(shape.subrange(i, shape.len() as int)) <= product(shape),
    decreases i,
{
    let n = shape.len() as int;
    if i == 0 {
        assert(shape.subrange(0, n) =~= shape);
    } else {
        lemma_product_suffix_le(shape, i - 1);
        assert(shape.subrange(i - 1, n)[0] == shape[i - 1]);
        assert(shape.subrange(i - 1, n).drop_first() =~= shape.subrange(i, n));
        lemma_product_nonneg(shape.subrange(i, n));
        assert(product(shape.subrange(i, n)) <= shape[i - 1] * product(shape.subrange(i, n)))
            by (nonlinear_arith)
            requires
                shape[i - 1] >= 1,
                product(shape.subrange(i, n)) >= 0,
        ;
    }
}

pub proof fn lemma_product_nonneg(shape: Seq<usize>)
    ensures
        product(shape) >= 0,
    decreases shape.len(),
{
    if shape.len() > 0 {
        lemma_product_nonneg(shape.drop_first());
        assert(shape[0] * product(shape.drop_first()) >= 0) by (nonlinear_arith)
            requires
                shape[0] >= 0,
                product(shape.drop_first()) >= 0,
        ;
    }
}

/// A positive element count means every axis length is positive, and
/// conversely.
pub proof fn lemma_product_pos(shape: Seq<usize>)
    ensures
        product(shape) > 0 <==> (forall|i: int| 0 <= i < shape.len() ==> #[trigger] shape[i] > 0),
    decreases shape.len(),
{
    if shape.len() > 0 {
        lemma_product_pos(shape.drop_first());
        lemma_product_nonneg(shape.drop_first());
        if product(shape) > 0 {
            assert(shape[0] * product(shape.drop_first()) > 0);
            assert(product(shape.drop_first()) > 0 && shape[0] > 0) by (nonlinear_arith)
                requires
                    shape[0] * product(shape.drop_first()) > 0,
                    product(shape.drop_first()) >= 0,
                    shape[0] >= 0,
            ;
            assert forall|i: int| 0 <= i < shape.len() implies #[trigger] shape[i] > 0 by {
                if i > 0 {
                    assert(shape.drop_first()[i - 1] == shape[i]);
                }
            }
        }
        if forall|i: int| 0 <= i < shape.len() ==> #[trigger] shape[i] > 0 {
            assert(forall|i: int|
                0 <= i < shape.drop_first().len() ==> #[trigger] shape.drop_first()[i] > 0);
            assert(shape[0] * product(shape.drop_first()) > 0) by (nonlinear_arith)
                requires
                    shape[0] > 0,
                    product(shape.drop_first()) > 0,
            ;
        }
    }
}

/// Each axis length divides into the total count: with every other axis
/// positive, one axis length is at most the product.
pub proof fn lemma_axis_le_product(shape: Seq<usize>, i: int)
    requires
        0 <= i < shape.len(),
        product(shape) > 0,
    ensures
        shape[i] <= product(shape),
    decreases shape.len(),
{
    lemma_product_pos(shape);
    lemma_product_nonneg(shape.drop_first());
    if i == 0 {
        assert(product(shape.drop_first()) > 0 ==> shape[0] <= shape[0] * product(
            shape.drop_first(),
        )) by (nonlinear_arith);
        assert(product(shape.drop_first()) > 0) by {
            lemma_product_pos(shape.drop_first());
        }
    } else {
        assert(product(shape.drop_first()) > 0) by {
            lemma_product_pos(shape.drop_first());
        }
        lemma_axis_le_product(shape.drop_first(), i - 1);
        assert(shape.drop_first()[i - 1] == shape[i]);
        assert(shape[0] >= 1);
        assert(shape[i] <= product(shape.drop_first()) && shape[0] >= 1 ==> shape[i] <= shape[0]
            * product(shape.drop_first())) by (nonlinear_arith);
    }
}

/// For `0 <= k < product(shape)`, `unflatten(k, shape)` is a valid index and
/// flattens back to `k`.
pub proof fn lemma_unflatten(k: int, shape: Seq<usize>)
    requires
        0 <= k < product(shape),
    ensures
        in_bounds(unflatten(k, shape), shape),
        flatten(unflatten(k, shape), shape) == k,
    decreases shape.len(),
{
    if shape.len() == 0 {
    } else {
        let p = product(shape.drop_first());
        lemma_product_nonneg(shape.drop_first());
        assert(p > 0) by (nonlinear_arith)
            requires
                shape[0] * p > k >= 0,
                p >= 0,
        ;
        let q = k / p;
        let r = k % p;
        vstd::arithmetic::div_mod::lemma_fundamental_div_mod(k, p);
        assert(0 <= r < p) by {
            vstd::arithmetic::div_mod::lemma_mod_bound(k, p);
        }
        assert(0 <= q) by (nonlinear_arith)
            requires
                k == p * q + r,
                0 <= k,
                0 <= r < p,
        ;
        assert(q < shape[0]) by (nonlinear_arith)
            requires
                k == p * q + r,
                k < shape[0] * p,
                0 <= r < p,
                q >= 0,
        ;
        lemma_unflatten(r, shape.drop_first());
        let rest = unflatten(r, shape.drop_first());
        assert(unflatten(k, shape) == seq![q].add(rest));
        assert(seq![q].add(rest).drop_first() =~= rest);
        assert(in_bounds(unflatten(k, shape), shape)) by {
            assert(forall|i: int|
                1 <= i < shape.len() ==> seq![q].add(rest)[i] == rest[i - 1] && shape[i]
                    == shape.drop_first()[i - 1]);
        }
        assert(flatten(unflatten(k, shape), shape) == q * p + flatten(rest, shape.drop_first()));
        assert(q * p == p * q) by (nonlinear_arith);
    }
}

/// For a valid index, `flatten` lands in `[0, product(shape))` and
/// `unflatten` recovers the index.
pub proof fn lemma_flatten(idx: Seq<int>, shape: Seq<usize>)
    requires
        in_bounds(idx, shape),
    ensures
        0 <= flatten(idx, shape) < product(shape),
        unflatten(flatten(idx, shape), shape) == idx,
    decreases shape.len(),
{
    if shape.len() == 0 {
        assert(unflatten(0, shape) =~= idx);
    } else {
        let p = product(shape.drop_first());
        let rest = idx.drop_first();
        assert(in_bounds(rest, shape.drop_first())) by {
            assert(forall|i: int|
                0 <= i < rest.len() ==> rest[i] == idx[i + 1] && shape.drop_first()[i] == shape[i
                    + 1]);
        }
        lemma_flatten(rest, shape.drop_first());
        lemma_product_pos(shape.drop_first());
        assert(p > 0);
        let fr = flatten(rest, shape.drop_first());
        let f = idx[0] * p + fr;
        assert(0 <= idx[0] * p && f < shape[0] * p) by (nonlinear_arith)
            requires
                0 <= idx[0] < shape[0],
                0 <= fr < p,
                f == idx[0] * p + fr,
        ;
        lemma_product_nonneg(shape);
        assert(shape[0] * p == product(shape));
        assert(f / p == idx[0] && f % p == fr) by {
            vstd::arithmetic::div_mod::lemma_fundamental_div_mod_converse(f, p, idx[0], fr);
        }
        assert(unflatten(f, shape) == seq![idx[0]].add(unflatten(fr, shape.drop_first())));
        assert(unflatten(f, shape) =~= idx);
    }
}

/// Under the standard layout the offset computation coincides with the
/// row-major position, for every valid index.
pub proof fn lemma_dot_std(idx: Seq<int>, shape: Seq<usize>, strides: Seq<i64>)
    requires
        in_bounds(idx, shape),
        is_std_layout(shape, strides),
    ensures
        dot(idx, strides) == flatten(idx, shape),
    decreases shape.len(),
{
    if shape.len() > 0 {
        let rest = idx.drop_first();
        assert(in_bounds(rest, shape.drop_first())) by {
            assert(forall|i: int|
                0 <= i < rest.len() ==> rest[i] == idx[i + 1] && shape.drop_first()[i] == shape[i
                    + 1]);
        }
        assert(is_std_layout(shape.drop_first(), strides.drop_first())) by {
            assert forall|i: int| 0 <= i < shape.drop_first().len() implies (
            #[trigger] shape.drop_first()[i] <= 1 || strides.drop_first()[i] == std_stride(
                shape.drop_first(),
                i,
            )) by {
                assert(shape[i + 1] <= 1 || strides[i + 1] == std_stride(shape, i + 1));
                assert(shape.drop_first().subrange(i + 1, shape.drop_first().len() as int)
                    =~= shape.subrange(i + 2, shape.len() as int));
            }
        }
        lemma_dot_std(rest, shape.drop_first(), strides.drop_first());
        assert(shape.subrange(1, shape.len() as int) =~= shape.drop_first());
        if shape[0] <= 1 {
            assert(idx[0] == 0);
            assert(idx[0] * strides[0] == 0 && idx[0] * product(shape.drop_first()) == 0)
                by (nonlinear_arith)
                requires
                    idx[0] == 0,
            ;
        } else {
            assert(strides[0] == std_stride(shape, 0));
        }
    }
}

/// The offset computation of a valid index, truncated after the first `n`
/// axes: the offset of the index whose later components are all zero.
pub open spec fn dot_prefix(idx: Seq<int>, strides: Seq<i64>, n: int) -> int {
    dot(idx.take(n), strides.take(n))
}

pub proof fn lemma_dot_take_step(idx: Seq<int>, strides: Seq<i64>, n: int)
    requires
        idx.len() == strides.len(),
        0 <= n < idx.len(),
    ensures
        dot_prefix(idx, strides, n + 1) == dot_prefix(idx, strides, n) + idx[n] * strides[n],
    decreases n,
{
    if n == 0 {
        assert(idx.take(1).drop_first() =~= idx.take(0));
        assert(strides.take(1).drop_first() =~= strides.take(0));
        assert(dot(idx.take(0), strides.take(0)) == 0);
        assert(dot(idx.take(1), strides.take(1)) == idx[0] * strides[0] + 0);
    } else {
        lemma_dot_take_step(idx.drop_first(), strides.drop_first(), n - 1);
        assert(idx.take(n + 1).drop_first() =~= idx.drop_first().take(n));
        assert(strides.take(n + 1).drop_first() =~= strides.drop_first().take(n));
        assert(idx.take(n).drop_first() =~= idx.drop_first().take(n - 1));
        assert(strides.take(n).drop_first() =~= strides.drop_first().take(n - 1));
        assert(idx.drop_first()[n - 1] == idx[n] && strides.drop_first()[n - 1] == strides[n]);
    }
}

/// A valid index, cut off after `n` axes and padded with zeros, is again a
/// valid index, and its offset is the prefix sum `dot_prefix`.
pub proof fn lemma_zero_pad(idx: Seq<int>, shape: Seq<usize>, strides: Seq<i64>, n: int)
    requires
        in_bounds(idx, shape),
        strides.len() == shape.len(),
        0 <= n <= idx.len(),
    ensures
        in_bounds(idx.take(n).add(Seq::new((idx.len() - n) as nat, |i: int| 0)), shape),
        dot(idx.take(n).add(Seq::new((idx.len() - n) as nat, |i: int| 0)), strides) == dot_prefix(
            idx,
            strides,
            n,
        ),
    decreases idx.len(),
{
    let pad = idx.take(n).add(Seq::new((idx.len() - n) as nat, |i: int| 0));
    assert(pad.len() == idx.len());
    assert(in_bounds(pad, shape)) by {
        assert(forall|i: int|
            0 <= i < n ==> #[trigger] pad[i] == idx[i]);
        assert(forall|i: int| n <= i < pad.len() ==> #[trigger] pad[i] == 0);
        assert forall|i: int| 0 <= i < pad.len() implies 0 <= #[trigger] pad[i] < shape[i] by {
            assert(0 <= idx[i] < shape[i]);
        }
    }
    if idx.len() == 0 {
    } else if n == 0 {
        lemma_zero_pad(idx.drop_first(), shape.drop_first(), strides.drop_first(), 0);
        assert(pad.drop_first() =~= idx.drop_first().take(0).add(
            Seq::new((idx.len() - 1) as nat, |i: int| 0),
        ));
        assert(pad[0] == 0);
        assert(0 * strides[0] == 0) by (nonlinear_arith);
        assert(idx.take(0) =~= idx.drop_first().take(0));
        assert(strides.take(0) =~= strides.drop_first().take(0));
    } else {
        lemma_zero_pad(idx.drop_first(), shape.drop_first(), strides.drop_first(), n - 1);
        assert(pad.drop_first() =~= idx.drop_first().take(n - 1).add(
            Seq::new((idx.len() - n) as nat, |i: int| 0),
        ));
        assert(pad[0] == idx[0]);
        assert(idx.take(n).drop_first() =~= idx.drop_first().take(n - 1));
        assert(strides.take(n).drop_first() =~= strides.drop_first().take(n - 1));
    }
}

} // verus!
