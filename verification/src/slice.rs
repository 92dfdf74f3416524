//! Slicing: each axis gets a `(start, end, step)` specification; the result
//! is a view with per-axis subsampling, where a negative step walks the
//! selected range backwards, anchored at its last element.

use vstd::prelude::*;
use crate::dim::{product, in_bounds, count_limit, dot, lemma_product_nonneg};
use crate::array::{Array, ArrayError, to_int};
use crate::view::lemma_view_wf;

verus! {

/// A per-axis slice specification: the half-open range `[start, end)`
/// (negative values count from the end of the axis; `end == None` means the
/// axis length), traversed with the given nonzero `step`. A negative step
/// walks the range from its last element backwards.
#[derive(Clone, Copy)]
pub struct Si {
    pub start: i64,
    pub end: Option<i64>,
    pub step: i64,
}

impl Si {
    /// The specification selecting a whole axis, in order.
    pub fn full() -> (r: Si)
        ensures
            r.start == 0 && r.end.is_none() && r.step == 1,
    {
        Si { start: 0, end: None, step: 1 }
    }

    /// A bound resolved against the axis length: negative values count back
    /// from the end.
    pub open spec fn resolve(v: int, len: int) -> int {
        if v < 0 {
            len + v
        } else {
            v
        }
    }

    /// The resolved start of the selected range.
    pub open spec fn lo(self, len: int) -> int {
        Si::resolve(self.start as int, len)
    }

    /// The resolved end of the selected range.
    pub open spec fn hi(self, len: int) -> int {
        match self.end {
            Some(e) => Si::resolve(e as int, len),
            None => len,
        }
    }

    /// The specification is valid for an axis of length `len`.
    pub open spec fn ok(self, len: int) -> bool {
        self.step != 0 && 0 <= self.lo(len) && self.lo(len) <= self.hi(len) && self.hi(len) <= len
    }

    /// How many indices the specification selects on an axis of length
    /// `len`.
    pub open spec fn cnt(self, len: int) -> int {
        let m = self.hi(len) - self.lo(len);
        let sa = if self.step < 0 {
            -(self.step as int)
        } else {
            self.step as int
        };
        if m <= 0 {
            0
        } else {
            (m - 1) / sa + 1
        }
    }

    /// The source index selected first: the range's first element for a
    /// positive step, its last for a negative one.
    pub open spec fn first(self, len: int) -> int {
        if self.step > 0 {
            self.lo(len)
        } else {
            self.hi(len) - 1
        }
    }
}

/// The source index that position `t` of the sliced axis reads.
pub open spec fn src_component(si: Si, len: int, t: int) -> int {
    si.first(len) + t * (si.step as int)
}

/// The source index of a whole sliced multi-index.
pub open spec fn slice_src(specs: Seq<Si>, shape: Seq<usize>, idx: Seq<int>) -> Seq<int> {
    Seq::new(idx.len(), |ax: int| src_component(specs[ax], shape[ax] as int, idx[ax]))
}

/// For `0 <= t < cnt`, the selected source index stays within the resolved
/// range `[lo, hi)`.
proof fn lemma_src_in_range(si: Si, len: int, t: int)
    requires
        si.ok(len),
        0 <= t < si.cnt(len),
    ensures
        si.lo(len) <= src_component(si, len, t) < si.hi(len),
{
    let m = si.hi(len) - si.lo(len);
    let s = si.step as int;
    let sa = if s < 0 {
        -s
    } else {
        s
    };
    assert(m >= 1);
    vstd::arithmetic::div_mod::lemma_fundamental_div_mod(m - 1, sa);
    let q = (m - 1) / sa;
    assert(0 <= (m - 1) % sa < sa) by {
        vstd::arithmetic::div_mod::lemma_mod_bound(m - 1, sa);
    }
    assert(t <= q);
    assert(t * sa <= q * sa) by (nonlinear_arith)
        requires
            t <= q,
            sa >= 1,
    ;
    assert(q * sa <= m - 1) by (nonlinear_arith)
        requires
            m - 1 == sa * q + (m - 1) % sa,
            (m - 1) % sa >= 0,
    ;
    assert(t * sa >= 0) by (nonlinear_arith)
        requires
            t >= 0,
            sa >= 1,
    ;
    if s > 0 {
        assert(t * s == t * sa);
    } else {
        assert(t * s == -(t * sa)) by (nonlinear_arith)
            requires
                s == -sa,
        ;
    }
}

/// Offsets compose affinely: reading through a slice equals reading the
/// per-axis first elements plus the subsampled contribution.
proof fn lemma_dot_affine(first: Seq<int>, step: Seq<int>, idx: Seq<int>, s: Seq<i64>, t: Seq<i64>)
    requires
        first.len() == idx.len(),
        step.len() == idx.len(),
        s.len() >= idx.len(),
        t.len() >= idx.len(),
        forall|ax: int| 0 <= ax < idx.len() ==> #[trigger] t[ax] == s[ax] * step[ax],
    ensures
        dot(Seq::new(idx.len(), |ax: int| first[ax] + idx[ax] * step[ax]), s) == dot(first, s)
            + dot(idx, t),
    decreases idx.len(),
{
    let g = Seq::new(idx.len(), |ax: int| first[ax] + idx[ax] * step[ax]);
    if idx.len() > 0 {
        lemma_dot_affine(
            first.drop_first(),
            step.drop_first(),
            idx.drop_first(),
            s.drop_first(),
            t.drop_first(),
        );
        assert(g.drop_first() =~= Seq::new(
            idx.drop_first().len(),
            |ax: int| first.drop_first()[ax] + idx.drop_first()[ax] * step.drop_first()[ax],
        ));
        assert(g[0] * s[0] == first[0] * s[0] + idx[0] * (s[0] * step[0])) by (nonlinear_arith)
            requires
                g[0] == first[0] + idx[0] * step[0],
        ;
        assert(t[0] == s[0] * step[0]);
    }
}

/// Axis lengths dominate pairwise, so counts dominate.
proof fn lemma_product_le_pairwise(s1: Seq<usize>, s2: Seq<usize>)
    requires
        s1.len() == s2.len(),
        forall|i: int| 0 <= i < s1.len() ==> #[trigger] s1[i] <= s2[i],
    ensures
        product(s1) <= product(s2),
    decreases s1.len(),
{
    if s1.len() > 0 {
        assert(forall|i: int|
            0 <= i < s1.drop_first().len() ==> #[trigger] s1.drop_first()[i]
                <= s2.drop_first()[i] && s1.drop_first()[i] == s1[i + 1]);
        lemma_product_le_pairwise(s1.drop_first(), s2.drop_first());
        lemma_product_nonneg(s1.drop_first());
        assert(s1[0] * product(s1.drop_first()) <= s2[0] * product(s2.drop_first()))
            by (nonlinear_arith)
            requires
                0 <= s1[0] <= s2[0],
                0 <= product(s1.drop_first()) <= product(s2.drop_first()),
        ;
    }
}

impl Array {
    /// Slices every axis by its specification, producing a view over the
    /// same storage. The result's axis `ax` has `specs[ax].cnt` indices, and
    /// its element `idx` is the source element at the per-axis affine map
    /// `first + idx * step`. Negative steps reverse traversal order and are
    /// fully supported.
    pub fn slice(&self, specs: &Vec<Si>) -> (r: Result<Array, ArrayError>)
        requires
            self.wf(),
        ensures
            match r {
                Ok(a) => {
                    &&& specs@.len() == self.rank_spec()
                    &&& forall|ax: int|
                        0 <= ax < specs@.len() ==> (#[trigger] specs@[ax]).ok(
                            self.shape@[ax] as int,
                        )
                    &&& a.wf()
                    &&& a.store@ == self.store@
                    &&& a.shape@.len() == self.rank_spec()
                    &&& forall|ax: int|
                        0 <= ax < specs@.len() ==> #[trigger] a.shape@[ax] == specs@[ax].cnt(
                            self.shape@[ax] as int,
                        )
                    &&& forall|idx: Seq<int>|
                        in_bounds(idx, a.shape@) ==> #[trigger] a.at(idx) == self.at(
                            slice_src(specs@, self.shape@, idx),
                        )
                },
                Err(e) => {
                    ||| (e == ArrayError::ShapeMismatch && specs@.len() != self.rank_spec())
                    ||| (e == ArrayError::ZeroStep && exists|ax: int|
                        0 <= ax < specs@.len() && (#[trigger] specs@[ax]).step == 0)
                    ||| (e == ArrayError::SliceOutOfRange && exists|ax: int|
                        0 <= ax < specs@.len() && !(#[trigger] specs@[ax]).ok(
                            self.shape@[ax] as int,
                        ))
                    ||| (e == ArrayError::TooLarge && specs@.len() == self.rank_spec() && (
                    forall|ax: int|
                        0 <= ax < specs@.len() ==> (#[trigger] specs@[ax]).ok(
                            self.shape@[ax] as int,
                        )) && exists|ax: int|
                        0 <= ax < specs@.len() && !(i64::MIN <= self.strides@[ax] * (
                        #[trigger] specs@[ax]).step <= i64::MAX))
                },
            },
    {
        let n = self.shape.len();
        if specs.len() != n {
            return Err(ArrayError::ShapeMismatch);
        }
        let mut new_shape: Vec<usize> = Vec::new();
        let mut firsts: Vec<usize> = Vec::new();
        let mut any_empty = false;
        let mut ax: usize = 0;
        while ax < n
            invariant
                0 <= ax <= n,
                n == self.shape@.len(),
                specs@.len() == n,
                new_shape@.len() == ax,
                firsts@.len() == ax,
                forall|j: int|
                    0 <= j < ax ==> (#[trigger] specs@[j]).ok(self.shape@[j] as int),
                forall|j: int|
                    0 <= j < ax ==> #[trigger] new_shape@[j] == specs@[j].cnt(
                        self.shape@[j] as int,
                    ),
                forall|j: int|
                    0 <= j < ax ==> new_shape@[j] > 0 ==> #[trigger] firsts@[j] == specs@[j].first(
                        self.shape@[j] as int,
                    ) && firsts@[j] < self.shape@[j],
                any_empty ==> exists|j: int| 0 <= j < ax && #[trigger] new_shape@[j] == 0,
                !any_empty ==> forall|j: int| 0 <= j < ax ==> #[trigger] new_shape@[j] > 0,
            decreases n - ax,
        {
            let ghost ns_old = new_shape@;
            let si = specs[ax];
            let len_u: u64 = self.shape[ax] as u64;
            if si.step == 0 {
                return Err(ArrayError::ZeroStep);
            }
            // Resolve the bounds in unsigned 64-bit arithmetic; a negative
            // bound counts back from the axis length.
            let lo_u: u64 = if si.start >= 0 {
                si.start as u64
            } else {
                let mag: u64 = (si.start as i128 * -1) as u64;
                if mag > len_u {
                    return Err(ArrayError::SliceOutOfRange);
                }
                len_u - mag
            };
            let hi_u: u64 = match si.end {
                None => len_u,
                Some(e) => {
                    if e >= 0 {
                        e as u64
                    } else {
                        let mag: u64 = (e as i128 * -1) as u64;
                        if mag > len_u {
                            return Err(ArrayError::SliceOutOfRange);
                        }
                        len_u - mag
                    }
                },
            };
            if lo_u > hi_u || hi_u > len_u {
                return Err(ArrayError::SliceOutOfRange);
            }
            let m: u64 = hi_u - lo_u;
            let sa: u64 = if si.step < 0 { (si.step as i128 * -1) as u64 } else { si.step as u64 };
            let c: u64 = if m == 0 {
                0
            } else {
                (m - 1) / sa + 1
            };
            proof {
                assert(si.ok(self.shape@[ax as int] as int));
                assert(c == si.cnt(self.shape@[ax as int] as int));
            }
            if c == 0 {
                any_empty = true;
                new_shape.push(0);
                firsts.push(0);
                proof {
                    assert(new_shape@[ax as int] == 0);
                }
            } else {
                new_shape.push(c as usize);
                if si.step > 0 {
                    firsts.push(lo_u as usize);
                } else {
                    firsts.push((hi_u - 1) as usize);
                }
                proof {
                    if !any_empty {
                        assert forall|j: int| 0 <= j < ax + 1 implies #[trigger] new_shape@[j]
                            > 0 by {}
                    } else {
                        let w = choose|j: int| 0 <= j < ax && #[trigger] ns_old[j] == 0;
                        assert(new_shape@[w] == 0);
                    }
                }
            }
            ax = ax + 1;
        }
        // New strides: the old stride scaled by the step. Irrelevant (and
        // forced to zero) when the result holds no element at all.
        let mut new_strides: Vec<i64> = Vec::new();
        let mut ax2: usize = 0;
        while ax2 < n
            invariant
                0 <= ax2 <= n,
                n == self.shape@.len(),
                n == self.strides@.len(),
                n == self.rank_spec(),
                specs@.len() == n,
                new_strides@.len() == ax2,
                forall|j: int|
                    0 <= j < n ==> (#[trigger] specs@[j]).ok(self.shape@[j] as int),
                forall|j: int|
                    0 <= j < ax2 ==> (!any_empty ==> #[trigger] new_strides@[j]
                        == self.strides@[j] * specs@[j].step),
            decreases n - ax2,
        {
            if any_empty {
                new_strides.push(0);
            } else {
                match self.strides[ax2].checked_mul(specs[ax2].step) {
                    Some(v) => new_strides.push(v),
                    None => {
                        proof {
                            assert(0 <= ax2 < specs@.len() && !(i64::MIN <= self.strides@[
                                ax2 as int
                            ] * specs@[ax2 as int].step <= i64::MAX));
                        }
                        return Err(ArrayError::TooLarge);
                    },
                }
            }
            ax2 = ax2 + 1;
        }
        let off: usize = if any_empty {
            0
        } else {
            proof {
                assert forall|j: int| 0 <= j < n implies 0 <= #[trigger] to_int(firsts@)[j]
                    < self.shape@[j] by {
                    assert(new_shape@[j] > 0);
                    assert(firsts@[j] < self.shape@[j]);
                }
                assert(in_bounds(to_int(firsts@), self.shape@));
            }
            self.position_of(&firsts)
        };
        let ghost wit: int = if any_empty {
            choose|j: int| 0 <= j < new_shape@.len() && #[trigger] new_shape@[j] == 0
        } else {
            0
        };
        let a = Array { store: self.store.clone(), shape: new_shape, strides: new_strides, offset: off };
        proof {
            if any_empty {
                assert(0 <= wit < a.shape@.len() && a.shape@[wit] == 0);
            }
            lemma_slice_wf(self, &a, specs@, firsts@, any_empty);
        }
        Ok(a)
    }
}

/// The sliced view is well-formed and reads, at each of its valid indices,
/// the source element the per-axis affine map selects.
proof fn lemma_slice_wf(src: &Array, a: &Array, specs: Seq<Si>, firsts: Seq<usize>, any_empty: bool)
    requires
        src.wf(),
        a.store@ == src.store@,
        specs.len() == src.shape@.len(),
        a.shape@.len() == src.shape@.len(),
        a.strides@.len() == src.shape@.len(),
        firsts.len() == src.shape@.len(),
        forall|j: int| 0 <= j < specs.len() ==> (#[trigger] specs[j]).ok(src.shape@[j] as int),
        forall|j: int|
            0 <= j < specs.len() ==> #[trigger] a.shape@[j] == specs[j].cnt(src.shape@[j] as int),
        forall|j: int|
            0 <= j < specs.len() ==> a.shape@[j] > 0 ==> #[trigger] firsts[j] == specs[j].first(
                src.shape@[j] as int,
            ),
        any_empty ==> exists|j: int| 0 <= j < a.shape@.len() && #[trigger] a.shape@[j] == 0,
        !any_empty ==> forall|j: int| 0 <= j < a.shape@.len() ==> #[trigger] a.shape@[j] > 0,
        !any_empty ==> forall|j: int|
            0 <= j < specs.len() ==> #[trigger] a.strides@[j] == src.strides@[j] * specs[j].step,
        !any_empty ==> a.offset == src.offset + dot(to_int(firsts), src.strides@),
        any_empty ==> a.offset == 0,
    ensures
        a.wf(),
        forall|idx: Seq<int>|
            in_bounds(idx, a.shape@) ==> #[trigger] a.at(idx) == src.at(
                slice_src(specs, src.shape@, idx),
            ),
{
    let n = src.shape@.len() as int;
    assert(product(a.shape@) <= count_limit()) by {
        assert forall|j: int| 0 <= j < n implies #[trigger] a.shape@[j] <= src.shape@[j] by {
            let len = src.shape@[j] as int;
            let m = specs[j].hi(len) - specs[j].lo(len);
            let sa = if specs[j].step < 0 {
                -(specs[j].step as int)
            } else {
                specs[j].step as int
            };
            if m > 0 {
                vstd::arithmetic::div_mod::lemma_fundamental_div_mod(m - 1, sa);
                vstd::arithmetic::div_mod::lemma_mod_bound(m - 1, sa);
                assert((m - 1) / sa <= m - 1) by (nonlinear_arith)
                    requires
                        m - 1 == sa * ((m - 1) / sa) + (m - 1) % sa,
                        sa >= 1,
                        (m - 1) % sa >= 0,
                        (m - 1) / sa >= 0,
                ;
            }
        }
        lemma_product_le_pairwise(a.shape@, src.shape@);
    }
    if any_empty {
        let j = choose|j: int| 0 <= j < a.shape@.len() && #[trigger] a.shape@[j] == 0;
        crate::dim::lemma_product_zero_axis(a.shape@, j);
        lemma_product_nonneg(a.shape@);
        assert forall|idx: Seq<int>| in_bounds(idx, a.shape@) implies 0 <= #[trigger] a.position(
            idx,
        ) < a.store@.len() by {
            assert(0 <= idx[j] < a.shape@[j]);
        }
        assert forall|i1: Seq<int>, i2: Seq<int>|
            in_bounds(i1, a.shape@) && in_bounds(i2, a.shape@) && #[trigger] a.position(i1)
                == #[trigger] a.position(i2) implies i1 == i2 by {
            assert(0 <= i1[j] < a.shape@[j]);
        }
        assert forall|idx: Seq<int>| in_bounds(idx, a.shape@) implies #[trigger] a.at(idx)
            == src.at(slice_src(specs, src.shape@, idx)) by {
            assert(0 <= idx[j] < a.shape@[j]);
        }
    } else {
        let f = |idx: Seq<int>| slice_src(specs, src.shape@, idx);
        assert forall|idx: Seq<int>| in_bounds(idx, a.shape@) implies in_bounds(
            #[trigger] f(idx),
            src.shape@,
        ) && a.position(idx) == src.position(f(idx)) by {
            lemma_slice_map(src, a, specs, firsts, idx);
        }
        assert forall|i1: Seq<int>, i2: Seq<int>|
            in_bounds(i1, a.shape@) && in_bounds(i2, a.shape@) && #[trigger] f(i1) == #[trigger] f(
                i2,
            ) implies i1 == i2 by {
            assert forall|ax: int| 0 <= ax < i1.len() implies #[trigger] i1[ax] == i2[ax] by {
                assert(f(i1)[ax] == f(i2)[ax]);
                let s = specs[ax].step as int;
                assert(i1[ax] * s == i2[ax] * s);
                assert(i1[ax] == i2[ax]) by (nonlinear_arith)
                    requires
                        i1[ax] * s == i2[ax] * s,
                        s != 0,
                ;
            }
            assert(i1 =~= i2);
        }
        lemma_view_wf(src, a, f);
        assert forall|idx: Seq<int>| in_bounds(idx, a.shape@) implies #[trigger] a.at(idx)
            == src.at(slice_src(specs, src.shape@, idx)) by {
            assert(a.position(idx) == src.position(f(idx)));
        }
    }
}

/// The position equation of one sliced index.
proof fn lemma_slice_map(src: &Array, a: &Array, specs: Seq<Si>, firsts: Seq<usize>, idx: Seq<int>)
    requires
        src.wf(),
        specs.len() == src.shape@.len(),
        a.shape@.len() == src.shape@.len(),
        a.strides@.len() == src.shape@.len(),
        firsts.len() == src.shape@.len(),
        forall|j: int| 0 <= j < specs.len() ==> (#[trigger] specs[j]).ok(src.shape@[j] as int),
        forall|j: int|
            0 <= j < specs.len() ==> #[trigger] a.shape@[j] == specs[j].cnt(src.shape@[j] as int),
        forall|j: int|
            0 <= j < specs.len() ==> a.shape@[j] > 0 ==> #[trigger] firsts[j] == specs[j].first(
                src.shape@[j] as int,
            ),
        forall|j: int|
            0 <= j < specs.len() ==> #[trigger] a.strides@[j] == src.strides@[j] * specs[j].step,
        a.offset == src.offset + dot(to_int(firsts), src.strides@),
        in_bounds(idx, a.shape@),
    ensures
        in_bounds(slice_src(specs, src.shape@, idx), src.shape@),
        a.position(idx) == src.position(slice_src(specs, src.shape@, idx)),
{
    let g = slice_src(specs, src.shape@, idx);
    assert(in_bounds(g, src.shape@)) by {
        assert forall|ax: int| 0 <= ax < g.len() implies 0 <= #[trigger] g[ax]
            < src.shape@[ax] by {
            lemma_src_in_range(specs[ax], src.shape@[ax] as int, idx[ax]);
            assert(firsts[ax] == specs[ax].first(src.shape@[ax] as int));
        }
    }
    let stepseq = Seq::new(idx.len(), |ax: int| specs[ax].step as int);
    lemma_dot_affine(to_int(firsts), stepseq, idx, src.strides@, a.strides@);
    assert(g =~= Seq::new(
        idx.len(),
        |ax: int| to_int(firsts)[ax] + idx[ax] * stepseq[ax],
    ));
}

} // verus!
