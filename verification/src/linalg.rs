//! A small linear-algebra layer on two-dimensional arrays: the identity
//! matrix, Cholesky factorization, forward and backward substitution, and a
//! least-squares solve via the normal equations. All element arithmetic is
//! wrapping 64-bit; divisions are truncated 64-bit divisions, and the square
//! root is the integer square-root floor. A solve or factorization whose
//! run would hit an unusable divisor or a negative radicand reports
//! `NotSolvable` instead (the source design leaves behaviour on inputs that
//! are not positive definite open; this engine makes the failure explicit).

use vstd::prelude::*;
use crate::dim::{product, in_bounds, flatten, unflatten, lemma_flatten};
use crate::array::{Array, ArrayError, to_int, counts_ok};
use crate::ops::tdiv;

verus! {

/// Element `(i, j)` of a rank-2 array.
pub open spec fn at2(a: Array, i: int, j: int) -> i64 {
    a.at(seq![i, j])
}

/// The matrix a rank-2 array holds: row `i`, column `j`.
pub open spec fn mat_of(a: Array) -> Seq<Seq<i64>> {
    Seq::new(
        a.shape@[0] as nat,
        |i: int| Seq::new(a.shape@[1] as nat, |j: int| a.at(seq![i, j])),
    )
}

/// The column vector a rank-1 array holds.
pub open spec fn col_of(b: Array) -> Seq<i64> {
    b.logical()
}

/// The transpose of a matrix held as rows.
pub open spec fn transpose_of(m: Seq<Seq<i64>>, rows: int, cols: int) -> Seq<Seq<i64>> {
    Seq::new(cols as nat, |i: int| Seq::new(rows as nat, |j: int| m[j][i]))
}

/// The wrapping dot product of the first `m` entries of two sequences.
pub open spec fn seqdot(x: Seq<i64>, y: Seq<i64>, m: int) -> i64
    decreases m,
{
    if m <= 0 {
        0
    } else {
        seqdot(x, y, m - 1).wrapping_add(x[m - 1].wrapping_mul(y[m - 1]))
    }
}

/// The wrapping dot product of `row[base..base+m]` with `x[0..m]`.
pub open spec fn seqdot_off(row: Seq<i64>, x: Seq<i64>, base: int, m: int) -> i64
    decreases m,
{
    if m <= 0 {
        0
    } else {
        seqdot_off(row, x, base, m - 1).wrapping_add(row[base + m - 1].wrapping_mul(x[m - 1]))
    }
}

/// Truncated 64-bit division as a machine value.
pub open spec fn tdiv64(x: i64, d: i64) -> i64 {
    tdiv(x as int, d as int) as i64
}

/// The 64-bit division `x / d` neither divides by zero nor overflows.
pub open spec fn div_ok(x: i64, d: i64) -> bool {
    d != 0 && !(x == i64::MIN && d == -1)
}

/// The first `i` entries of the forward-substitution solution of
/// `l * x = b`: entry `i-1` is `(b[i-1] - sum(l[i-1][j] * x[j], j < i-1))`
/// divided by the diagonal entry.
pub open spec fn fw_seq(l: Seq<Seq<i64>>, b: Seq<i64>, i: int) -> Seq<i64>
    decreases i,
{
    if i <= 0 {
        Seq::empty()
    } else {
        let x = fw_seq(l, b, i - 1);
        let num = b[i - 1].wrapping_sub(seqdot(l[i - 1], x, i - 1));
        x.push(tdiv64(num, l[i - 1][i - 1]))
    }
}

/// Every division of the forward substitution is usable.
pub open spec fn fw_ok(l: Seq<Seq<i64>>, b: Seq<i64>, n: int) -> bool {
    forall|i: int|
        0 <= i < n ==> div_ok(
            b[i].wrapping_sub(seqdot(l[i], #[trigger] fw_seq(l, b, i), i)),
            l[i][i],
        )
}

/// The last `c` entries of the backward-substitution solution of
/// `u * x = b` for an `n` by `n` upper-triangular `u`.
pub open spec fn bw_seq(u: Seq<Seq<i64>>, b: Seq<i64>, n: int, c: int) -> Seq<i64>
    decreases c,
{
    if c <= 0 {
        Seq::empty()
    } else {
        let x = bw_seq(u, b, n, c - 1);
        let i = n - c;
        let num = b[i].wrapping_sub(seqdot_off(u[i], x, i + 1, c - 1));
        seq![tdiv64(num, u[i][i])].add(x)
    }
}

/// Every division of the backward substitution is usable.
pub open spec fn bw_ok(u: Seq<Seq<i64>>, b: Seq<i64>, n: int) -> bool {
    forall|c: int|
        1 <= c <= n ==> div_ok(
            b[n - c].wrapping_sub(
                seqdot_off(u[n - c], #[trigger] bw_seq(u, b, n, c - 1), n - c + 1, c - 1),
            ),
            u[n - c][n - c],
        )
}

/// A rank-1 array's element `i` is entry `i` of its column vector.
pub proof fn lemma_at1(b: &Array, i: int)
    requires
        b.shape@.len() == 1,
        0 <= i < b.shape@[0],
    ensures
        in_bounds(seq![i], b.shape@),
        b.at(seq![i]) == col_of(*b)[i],
        col_of(*b).len() == b.shape@[0],
{
    assert(in_bounds(seq![i], b.shape@));
    assert(product(b.shape@.drop_first()) == 1);
    assert(product(b.shape@) == b.shape@[0] * 1);
    assert(b.shape@[0] * 1 == b.shape@[0]) by (nonlinear_arith);
    lemma_flatten(seq![i], b.shape@);
    assert(flatten(seq![i], b.shape@) == i * 1 + 0);
    assert(i * 1 == i) by (nonlinear_arith);
    assert(b.logical()[i] == b.at(unflatten(i, b.shape@)));
    assert(unflatten(flatten(seq![i], b.shape@), b.shape@) == seq![i]);
}

/// A usable 64-bit division has a representable quotient: `checked_div`
/// succeeds exactly on `div_ok` divisions.
pub proof fn lemma_div_ok_range(x: i64, d: i64)
    requires
        div_ok(x, d),
    ensures
        i64::MIN <= tdiv(x as int, d as int) <= i64::MAX,
{
    let xi = x as int;
    let di = d as int;
    if xi == 0 {
    } else if xi > 0 && di > 0 {
        vstd::arithmetic::div_mod::lemma_div_pos_is_pos(xi, di);
        vstd::arithmetic::div_mod::lemma_div_nonincreasing(xi, di);
    } else if xi < 0 && di < 0 {
        let nx = xi * -1;
        let nd = di * -1;
        vstd::arithmetic::div_mod::lemma_div_pos_is_pos(nx, nd);
        vstd::arithmetic::div_mod::lemma_div_nonincreasing(nx, nd);
        if xi == i64::MIN {
            assert(nd >= 2);
            vstd::arithmetic::div_mod::lemma_div_is_ordered_by_denominator(nx, 2, nd);
            assert(nx / 2 == (i64::MAX as int + 1) / 2);
            vstd::arithmetic::div_mod::lemma_div_by_multiple(4611686018427387904int, 2);
            assert(4611686018427387904int * 2 == i64::MAX as int + 1);
            assert((i64::MAX as int + 1) / 2 <= i64::MAX);
        } else {
            assert(nx <= i64::MAX);
        }
    } else if xi < 0 {
        let nx = xi * -1;
        vstd::arithmetic::div_mod::lemma_div_pos_is_pos(nx, di);
        vstd::arithmetic::div_mod::lemma_div_nonincreasing(nx, di);
        assert(nx <= i64::MAX as int + 1);
    } else {
        let nd = di * -1;
        vstd::arithmetic::div_mod::lemma_div_pos_is_pos(xi, nd);
        vstd::arithmetic::div_mod::lemma_div_nonincreasing(xi, nd);
    }
}

/// A square well-formed matrix has at most the index-range limit of rows.
pub proof fn lemma_square_rows(a: &Array)
    requires
        a.wf(),
        a.shape@.len() == 2,
        a.shape@[0] == a.shape@[1],
    ensures
        a.shape@[0] <= crate::dim::count_limit(),
{
    let n = a.shape@[0] as int;
    if n > 0 {
        crate::dim::lemma_product_pos(a.shape@);
        crate::dim::lemma_axis_le_product(a.shape@, 0);
    }
}

/// The element count of a two-axis shape is the product of its two axis
/// lengths.
pub proof fn lemma_product_pair(s: Seq<usize>)
    requires
        s.len() == 2,
    ensures
        product(s) == s[0] * s[1],
{
    assert(s.drop_first().drop_first() =~= Seq::<usize>::empty());
    assert(product(s.drop_first().drop_first()) == 1);
    assert(s.drop_first()[0] == s[1]);
    assert(product(s.drop_first()) == s[1] * 1);
    assert(s[1] * 1 == s[1] as int) by (nonlinear_arith);
    assert(product(s) == s[0] * product(s.drop_first()));
}

/// The row-major position within a two-axis shape.
pub proof fn lemma_flatten_pair(i: int, j: int, s: Seq<usize>)
    requires
        s.len() == 2,
    ensures
        flatten(seq![i, j], s) == i * (s[1] as int) + j,
{
    lemma_product_pair(s);
    assert(seq![i, j].drop_first() =~= seq![j]);
    assert(seq![j].drop_first() =~= Seq::<int>::empty());
    assert(s.drop_first().drop_first() =~= Seq::<usize>::empty());
    assert(product(s.drop_first().drop_first()) == 1);
    assert(s.drop_first()[0] == s[1]);
    assert(product(s.drop_first()) == s[1] * 1);
    assert(flatten(Seq::<int>::empty(), s.drop_first().drop_first()) == 0);
    assert(flatten(seq![j], s.drop_first()) == j * 1 + 0);
    assert(flatten(seq![i, j], s) == i * product(s.drop_first()) + flatten(
        seq![j],
        s.drop_first(),
    ));
    assert(s[1] * 1 == s[1] as int) by (nonlinear_arith);
    assert(j * 1 == j) by (nonlinear_arith);
    assert(i * (s[1] * 1) == i * (s[1] as int)) by (nonlinear_arith)
        requires
            s[1] * 1 == s[1] as int,
    ;
}

impl Array {
    /// The `n` by `n` identity matrix: zeros everywhere, with the
    /// multiplicative identity on the diagonal. Fails only when `n * n`
    /// does not fit the index range.
    pub fn eye(n: usize) -> (r: Result<Array, ArrayError>)
        ensures
            match r {
                Ok(e) => {
                    &&& e.wf()
                    &&& e.shape@ == seq![n, n]
                    &&& forall|i: int, j: int|
                        0 <= i < n && 0 <= j < n ==> #[trigger] at2(e, i, j) == (if i == j {
                            1i64
                        } else {
                            0i64
                        })
                },
                Err(e) => e == ArrayError::TooLarge && !counts_ok(seq![n, n]),
            },
    {
        let shape: Vec<usize> = vec![n, n];
        proof {
            assert(shape@ =~= seq![n, n]);
        }
        let mut e = match Array::zeros(shape) {
            Ok(e) => e,
            Err(_) => {
                return Err(ArrayError::TooLarge);
            },
        };
        proof {
            assert forall|i: int, j: int| 0 <= i < n && 0 <= j < n implies #[trigger] at2(
                e,
                i,
                j,
            ) == 0i64 by {
                assert(in_bounds(seq![i, j], e.shape@));
                e.lemma_at_logical(seq![i, j]);
            }
        }
        let mut i: usize = 0;
        while i < n
            invariant
                0 <= i <= n,
                e.wf(),
                e.shape@ == seq![n, n],
                forall|i2: int, j2: int|
                    0 <= i2 < n && 0 <= j2 < n ==> #[trigger] at2(e, i2, j2) == (if i2 == j2
                        && i2 < i {
                        1i64
                    } else {
                        0i64
                    }),
            decreases n - i,
        {
            let idx: Vec<usize> = vec![i, i];
            proof {
                assert(to_int(idx@) =~= seq![i as int, i as int]);
                assert(in_bounds(to_int(idx@), e.shape@));
            }
            let ghost e_old = e;
            e.set(&idx, 1);
            proof {
                assert forall|i2: int, j2: int|
                    0 <= i2 < n && 0 <= j2 < n implies #[trigger] at2(e, i2, j2) == (if i2 == j2
                        && i2 < i + 1 {
                        1i64
                    } else {
                        0i64
                    }) by {
                    assert(in_bounds(seq![i2, j2], e.shape@));
                    if i2 == i as int && j2 == i as int {
                        assert(seq![i2, j2] =~= to_int(idx@));
                        assert(e.at(to_int(idx@)) == 1i64);
                    } else {
                        assert(seq![i2, j2] != to_int(idx@)) by {
                            assert(to_int(idx@)[0] == i as int && to_int(idx@)[1] == i as int);
                        }
                        assert(e.at(seq![i2, j2]) == e_old.at(seq![i2, j2]));
                        assert(at2(e_old, i2, j2) == e_old.at(seq![i2, j2]));
                    }
                }
            }
            i = i + 1;
        }
        proof {
            assert forall|i2: int, j2: int| 0 <= i2 < n && 0 <= j2 < n implies #[trigger] at2(
                e,
                i2,
                j2,
            ) == (if i2 == j2 {
                1i64
            } else {
                0i64
            }) by {}
        }
        Ok(e)
    }
}


impl Array {
    /// Solves `l * x = b` for lower-triangular `l` by forward substitution:
    /// entry `i` of the result is `b[i]` minus the dot product of row `i`
    /// with the entries already solved, divided (truncated) by the diagonal
    /// entry. Fails, with the array untouched, exactly when a division
    /// would hit a zero diagonal entry or overflow.
    pub fn subst_fw(&self, b: &Array) -> (r: Result<Array, ArrayError>)
        requires
            self.wf(),
            b.wf(),
            self.rank_spec() == 2,
            self.shape@[0] == self.shape@[1],
            b.rank_spec() == 1,
            b.shape@[0] == self.shape@[0],
        ensures
            match r {
                Ok(x) => {
                    &&& x.wf()
                    &&& x.shape@ == seq![self.shape@[0]]
                    &&& fw_ok(mat_of(*self), col_of(*b), self.shape@[0] as int)
                    &&& col_of(x) == fw_seq(mat_of(*self), col_of(*b), self.shape@[0] as int)
                },
                Err(e) => e == ArrayError::NotSolvable && !fw_ok(
                    mat_of(*self),
                    col_of(*b),
                    self.shape@[0] as int,
                ),
            },
    {
        let n = self.shape[0];
        let ghost lm = mat_of(*self);
        let ghost bv = col_of(*b);
        let mut xv: Vec<i64> = Vec::new();
        let mut i: usize = 0;
        while i < n
            invariant
                0 <= i <= n,
                self.wf(),
                b.wf(),
                self.rank_spec() == 2,
                self.shape@[0] == self.shape@[1],
                b.rank_spec() == 1,
                b.shape@[0] == self.shape@[0],
                n == self.shape@[0],
                lm == mat_of(*self),
                bv == col_of(*b),
                xv@ == fw_seq(lm, bv, i as int),
                xv@.len() == i,
                forall|i2: int|
                    0 <= i2 < i ==> div_ok(
                        bv[i2].wrapping_sub(seqdot(lm[i2], #[trigger] fw_seq(lm, bv, i2), i2)),
                        lm[i2][i2],
                    ),
            decreases n - i,
        {
            let mut s: i64 = 0;
            let mut j: usize = 0;
            while j < i
                invariant
                    0 <= j <= i < n,
                    self.wf(),
                    self.rank_spec() == 2,
                    self.shape@[0] == self.shape@[1],
                    n == self.shape@[0],
                    lm == mat_of(*self),
                    xv@.len() == i,
                    s == seqdot(lm[i as int], xv@, j as int),
                decreases i - j,
            {
                let lij_idx: Vec<usize> = vec![i, j];
                proof {
                    assert(to_int(lij_idx@) =~= seq![i as int, j as int]);
                    assert(in_bounds(to_int(lij_idx@), self.shape@));
                    assert(lm[i as int][j as int] == self.at(seq![i as int, j as int]));
                }
                let lij = self.get(&lij_idx);
                s = s.wrapping_add(lij.wrapping_mul(xv[j]));
                j = j + 1;
            }
            let bi_idx: Vec<usize> = vec![i];
            proof {
                assert(to_int(bi_idx@) =~= seq![i as int]);
                lemma_at1(b, i as int);
            }
            let bi = b.get(&bi_idx);
            let num = bi.wrapping_sub(s);
            let dii_idx: Vec<usize> = vec![i, i];
            proof {
                assert(to_int(dii_idx@) =~= seq![i as int, i as int]);
                assert(in_bounds(to_int(dii_idx@), self.shape@));
                assert(lm[i as int][i as int] == self.at(seq![i as int, i as int]));
            }
            let d = self.get(&dii_idx);
            proof {
                assert(num == bv[i as int].wrapping_sub(
                    seqdot(lm[i as int], fw_seq(lm, bv, i as int), i as int),
                ));
                assert(d == lm[i as int][i as int]);
                if div_ok(num, d) {
                    lemma_div_ok_range(num, d);
                }
            }
            let q = match num.checked_div(d) {
                Some(q) => q,
                None => {
                    proof {
                        assert(!div_ok(num, d));
                        assert(!fw_ok(lm, bv, n as int)) by {
                            if fw_ok(lm, bv, n as int) {
                                assert(div_ok(
                                    bv[i as int].wrapping_sub(
                                        seqdot(lm[i as int], fw_seq(lm, bv, i as int), i as int),
                                    ),
                                    lm[i as int][i as int],
                                ));
                            }
                        }
                    }
                    return Err(ArrayError::NotSolvable);
                },
            };
            xv.push(q);
            proof {
                if num == i64::MIN && d == -1 {
                    vstd::arithmetic::div_mod::lemma_div_by_multiple(i64::MAX as int + 1, 1);
                    assert((i64::MAX as int + 1) * 1 == i64::MAX as int + 1);
                }
                assert(div_ok(num, d));
                assert(q == tdiv64(num, d));
                assert(xv@ =~= fw_seq(lm, bv, i + 1));
                assert forall|i2: int|
                    0 <= i2 < i + 1 implies div_ok(
                    bv[i2].wrapping_sub(seqdot(lm[i2], #[trigger] fw_seq(lm, bv, i2), i2)),
                    lm[i2][i2],
                ) by {
                    if i2 < i {
                        assert(div_ok(
                            bv[i2].wrapping_sub(seqdot(lm[i2], fw_seq(lm, bv, i2), i2)),
                            lm[i2][i2],
                        ));
                    }
                }
            }
            i = i + 1;
        }
        proof {
            assert(fw_seq(lm, bv, n as int).len() == n as int) by {
                lemma_fw_seq_len(lm, bv, n as int);
            }
            lemma_square_rows(self);
        }
        let x = Array::from_vec(xv);
        proof {
            assert(x.shape@ =~= seq![n]);
        }
        Ok(x)
    }

    /// Solves `u * x = b` for upper-triangular `u` by backward
    /// substitution, walking the rows from the last to the first. Fails
    /// exactly when a division would hit a zero diagonal entry or overflow.
    pub fn subst_bw(&self, b: &Array) -> (r: Result<Array, ArrayError>)
        requires
            self.wf(),
            b.wf(),
            self.rank_spec() == 2,
            self.shape@[0] == self.shape@[1],
            b.rank_spec() == 1,
            b.shape@[0] == self.shape@[0],
        ensures
            match r {
                Ok(x) => {
                    &&& x.wf()
                    &&& x.shape@ == seq![self.shape@[0]]
                    &&& bw_ok(mat_of(*self), col_of(*b), self.shape@[0] as int)
                    &&& col_of(x) == bw_seq(
                        mat_of(*self),
                        col_of(*b),
                        self.shape@[0] as int,
                        self.shape@[0] as int,
                    )
                },
                Err(e) => e == ArrayError::NotSolvable && !bw_ok(
                    mat_of(*self),
                    col_of(*b),
                    self.shape@[0] as int,
                ),
            },
    {
        let n = self.shape[0];
        let ghost um = mat_of(*self);
        let ghost bv = col_of(*b);
        let mut xv: Vec<i64> = Vec::new();
        let mut c: usize = 0;
        while c < n
            invariant
                0 <= c <= n,
                self.wf(),
                b.wf(),
                self.rank_spec() == 2,
                self.shape@[0] == self.shape@[1],
                b.rank_spec() == 1,
                b.shape@[0] == self.shape@[0],
                n == self.shape@[0],
                um == mat_of(*self),
                bv == col_of(*b),
                xv@ == bw_seq(um, bv, n as int, c as int),
                xv@.len() == c,
                forall|c2: int|
                    1 <= c2 <= c ==> div_ok(
                        bv[n - c2].wrapping_sub(
                            seqdot_off(
                                um[n - c2],
                                #[trigger] bw_seq(um, bv, n as int, c2 - 1),
                                n - c2 + 1,
                                c2 - 1,
                            ),
                        ),
                        um[n - c2][n - c2],
                    ),
            decreases n - c,
        {
            let i = n - c - 1;
            let mut s: i64 = 0;
            let mut t: usize = 0;
            while t < c
                invariant
                    0 <= t <= c,
                    c < n,
                    i == n - c - 1,
                    self.wf(),
                    self.rank_spec() == 2,
                    self.shape@[0] == self.shape@[1],
                    n == self.shape@[0],
                    um == mat_of(*self),
                    xv@.len() == c,
                    s == seqdot_off(um[i as int], xv@, i + 1, t as int),
                decreases c - t,
            {
                let uit_idx: Vec<usize> = vec![i, i + 1 + t];
                proof {
                    assert(to_int(uit_idx@) =~= seq![i as int, i + 1 + t]);
                    assert(in_bounds(to_int(uit_idx@), self.shape@));
                    assert(um[i as int][i + 1 + t] == self.at(seq![i as int, i + 1 + t]));
                }
                let uit = self.get(&uit_idx);
                s = s.wrapping_add(uit.wrapping_mul(xv[t]));
                t = t + 1;
            }
            let bi_idx: Vec<usize> = vec![i];
            proof {
                assert(to_int(bi_idx@) =~= seq![i as int]);
                lemma_at1(b, i as int);
            }
            let bi = b.get(&bi_idx);
            let num = bi.wrapping_sub(s);
            let dii_idx: Vec<usize> = vec![i, i];
            proof {
                assert(to_int(dii_idx@) =~= seq![i as int, i as int]);
                assert(in_bounds(to_int(dii_idx@), self.shape@));
                assert(um[i as int][i as int] == self.at(seq![i as int, i as int]));
            }
            let d = self.get(&dii_idx);
            proof {
                assert(xv@ == bw_seq(um, bv, n as int, (c + 1) - 1));
                assert(num == bv[n - (c + 1)].wrapping_sub(
                    seqdot_off(
                        um[n - (c + 1)],
                        bw_seq(um, bv, n as int, (c + 1) - 1),
                        n - (c + 1) + 1,
                        (c + 1) - 1,
                    ),
                ));
                assert(d == um[n - (c + 1)][n - (c + 1)]);
                if div_ok(num, d) {
                    lemma_div_ok_range(num, d);
                }
            }
            let q = match num.checked_div(d) {
                Some(q) => q,
                None => {
                    proof {
                        assert(!div_ok(num, d));
                        assert(!bw_ok(um, bv, n as int)) by {
                            if bw_ok(um, bv, n as int) {
                                assert(div_ok(
                                    bv[n - (c + 1)].wrapping_sub(
                                        seqdot_off(
                                            um[n - (c + 1)],
                                            #[trigger] bw_seq(um, bv, n as int, (c + 1) - 1),
                                            n - (c + 1) + 1,
                                            (c + 1) - 1,
                                        ),
                                    ),
                                    um[n - (c + 1)][n - (c + 1)],
                                ));
                            }
                        }
                    }
                    return Err(ArrayError::NotSolvable);
                },
            };
            xv.insert(0, q);
            proof {
                if num == i64::MIN && d == -1 {
                    vstd::arithmetic::div_mod::lemma_div_by_multiple(i64::MAX as int + 1, 1);
                    assert((i64::MAX as int + 1) * 1 == i64::MAX as int + 1);
                }
                assert(div_ok(num, d));
                assert(q == tdiv64(num, d));
                assert(xv@ =~= bw_seq(um, bv, n as int, c + 1));
                assert forall|c2: int|
                    1 <= c2 <= c + 1 implies div_ok(
                    bv[n - c2].wrapping_sub(
                        seqdot_off(
                            um[n - c2],
                            #[trigger] bw_seq(um, bv, n as int, c2 - 1),
                            n - c2 + 1,
                            c2 - 1,
                        ),
                    ),
                    um[n - c2][n - c2],
                ) by {
                    if c2 <= c {
                        assert(div_ok(
                            bv[n - c2].wrapping_sub(
                                seqdot_off(
                                    um[n - c2],
                                    bw_seq(um, bv, n as int, c2 - 1),
                                    n - c2 + 1,
                                    c2 - 1,
                                ),
                            ),
                            um[n - c2][n - c2],
                        ));
                    }
                }
            }
            c = c + 1;
        }
        proof {
            lemma_square_rows(self);
        }
        let x = Array::from_vec(xv);
        proof {
            assert(x.shape@ =~= seq![n]);
        }
        Ok(x)
    }
}

/// The forward-substitution solution has one entry per row.
pub proof fn lemma_fw_seq_len(l: Seq<Seq<i64>>, b: Seq<i64>, i: int)
    ensures
        fw_seq(l, b, i).len() == if i <= 0 {
            0
        } else {
            i
        },
    decreases i,
{
    if i > 0 {
        lemma_fw_seq_len(l, b, i - 1);
    }
}


/// The integer square-root floor: the largest `r` with `r * r <= n` (zero
/// for negative `n`).
pub open spec fn sqrt_floor(n: int) -> int
    decreases n,
{
    if n <= 0 {
        0
    } else {
        let r = sqrt_floor(n - 1);
        if (r + 1) * (r + 1) <= n {
            r + 1
        } else {
            r
        }
    }
}

pub proof fn lemma_sqrt_floor_props(n: int)
    requires
        n >= 0,
    ensures
        sqrt_floor(n) >= 0,
        sqrt_floor(n) * sqrt_floor(n) <= n,
        n < (sqrt_floor(n) + 1) * (sqrt_floor(n) + 1),
    decreases n,
{
    if n == 0 {
    } else {
        lemma_sqrt_floor_props(n - 1);
        let r = sqrt_floor(n - 1);
        if (r + 1) * (r + 1) <= n {
            assert(n < (r + 2) * (r + 2)) by (nonlinear_arith)
                requires
                    n - 1 < (r + 1) * (r + 1),
                    r >= 0,
            ;
        }
    }
}

pub proof fn lemma_sqrt_floor_unique(n: int, r: int)
    requires
        n >= 0,
        r >= 0,
        r * r <= n,
        n < (r + 1) * (r + 1),
    ensures
        sqrt_floor(n) == r,
{
    lemma_sqrt_floor_props(n);
    let s = sqrt_floor(n);
    if s < r {
        assert((s + 1) * (s + 1) <= r * r) by (nonlinear_arith)
            requires
                0 <= s + 1 <= r,
        ;
    }
    if r < s {
        assert((r + 1) * (r + 1) <= s * s) by (nonlinear_arith)
            requires
                0 <= r + 1 <= s,
        ;
    }
}

/// The integer square-root floor of a nonnegative machine value.
pub(crate) fn isqrt(x: i64) -> (r: i64)
    requires
        x >= 0,
    ensures
        0 <= r,
        r as int == sqrt_floor(x as int),
{
    let xu = x as u64;
    let mut r: u64 = 0;
    loop
        invariant
            xu == x as u64,
            xu <= 0x7fff_ffff_ffff_ffffu64,
            r * r <= xu,
        ensures
            r * r <= xu,
            xu < (r + 1) * (r + 1),
        decreases xu - r,
    {
        proof {
            assert(r <= 3037000499) by (nonlinear_arith)
                requires
                    r * r <= 0x7fff_ffff_ffff_ffffu64,
            ;
            assert((r + 1) * (r + 1) <= u64::MAX) by (nonlinear_arith)
                requires
                    r <= 3037000499u64,
            ;
        }
        if (r + 1) * (r + 1) <= xu {
            proof {
                assert(r + 1 <= xu - r) by (nonlinear_arith)
                    requires
                        (r + 1) * (r + 1) <= xu,
                ;
            }
            r = r + 1;
        } else {
            break;
        }
    }
    proof {
        assert(r <= 3037000499) by (nonlinear_arith)
            requires
                r * r <= 0x7fff_ffff_ffff_ffffu64,
        ;
        lemma_sqrt_floor_unique(xu as int, r as int);
    }
    r as i64
}

/// The square root of a wrapping difference, as the model uses it.
pub open spec fn isqrt64(x: i64) -> i64 {
    sqrt_floor(x as int) as i64
}

/// The first `j` entries of row `i` of the Cholesky factor, given `l`, the
/// completed rows above: below the diagonal the standard formula
/// `(a[i][j] - sum(row[t] * l[j][t], t < j)) / l[j][j]`; on the diagonal
/// the integer square root of `a[i][i]` minus the row's sum of squares;
/// zero above the diagonal.
pub open spec fn chol_row(a: Seq<Seq<i64>>, l: Seq<Seq<i64>>, i: int, j: int) -> Seq<i64>
    decreases j,
{
    if j <= 0 {
        Seq::empty()
    } else {
        let pre = chol_row(a, l, i, j - 1);
        let v = if j - 1 < i {
            tdiv64(a[i][j - 1].wrapping_sub(seqdot(pre, l[j - 1], j - 1)), l[j - 1][j - 1])
        } else if j - 1 == i {
            isqrt64(a[i][i].wrapping_sub(seqdot(pre, pre, i)))
        } else {
            0
        };
        pre.push(v)
    }
}

/// The first `i` rows of the Cholesky factor of an `n` by `n` matrix.
pub open spec fn chol_rows(a: Seq<Seq<i64>>, n: int, i: int) -> Seq<Seq<i64>>
    decreases i,
{
    if i <= 0 {
        Seq::empty()
    } else {
        let l = chol_rows(a, n, i - 1);
        l.push(chol_row(a, l, i - 1, n))
    }
}

/// The whole Cholesky factor, row by row.
pub open spec fn chol_model(a: Seq<Seq<i64>>, n: int) -> Seq<Seq<i64>> {
    chol_rows(a, n, n)
}

/// Every division of the factorization is usable and every radicand is
/// nonnegative: the matrix is positive definite as far as the integer
/// arithmetic can tell.
pub open spec fn chol_ok(a: Seq<Seq<i64>>, n: int) -> bool {
    forall|i: int, j: int|
        0 <= j <= i < n ==> {
            let l = chol_rows(a, n, i);
            let pre = #[trigger] chol_row(a, chol_rows(a, n, i), i, j);
            if j < i {
                div_ok(a[i][j].wrapping_sub(seqdot(pre, l[j], j)), l[j][j])
            } else {
                a[i][i].wrapping_sub(seqdot(pre, pre, i)) >= 0
            }
        }
}

/// A row prefix extends its shorter prefixes.
pub proof fn lemma_chol_row_prefix(a: Seq<Seq<i64>>, l: Seq<Seq<i64>>, i: int, j1: int, j2: int)
    requires
        0 <= j1 <= j2,
    ensures
        chol_row(a, l, i, j2).len() == j2,
        forall|t: int| 0 <= t < j1 ==> chol_row(a, l, i, j2)[t] == #[trigger] chol_row(
            a,
            l,
            i,
            j1,
        )[t],
    decreases j2,
{
    if j2 > 0 {
        if j1 <= j2 - 1 {
            lemma_chol_row_prefix(a, l, i, j1, j2 - 1);
        } else {
            lemma_chol_row_prefix(a, l, i, j2 - 1, j2 - 1);
            assert forall|t: int| 0 <= t < j1 implies chol_row(a, l, i, j2)[t]
                == #[trigger] chol_row(a, l, i, j1)[t] by {
                if t < j2 - 1 {
                    assert(chol_row(a, l, i, j2 - 1)[t] == chol_row(a, l, i, j2 - 1)[t]);
                }
            }
        }
    }
}

/// Every completed row has one entry per column.
pub proof fn lemma_chol_rows_row_len(a: Seq<Seq<i64>>, n: int, i: int)
    ensures
        forall|k: int|
            0 <= k < i ==> (#[trigger] chol_rows(a, n, i)[k]).len() == if n <= 0 {
                0
            } else {
                n
            },
    decreases i,
{
    if i > 0 {
        lemma_chol_rows_row_len(a, n, i - 1);
        lemma_chol_rows_prefix(a, n, i - 1, i - 1);
        lemma_chol_row_prefix(a, chol_rows(a, n, i - 1), i - 1, if n <= 0 { 0 } else { n }, if n
            <= 0 {
            0
        } else {
            n
        });
        assert forall|k: int|
            0 <= k < i implies (#[trigger] chol_rows(a, n, i)[k]).len() == (if n <= 0 {
            0int
        } else {
            n
        }) by {
            if k < i - 1 {
                assert(chol_rows(a, n, i)[k] == chol_rows(a, n, i - 1)[k]);
            } else {
                assert(chol_rows(a, n, i)[k] == chol_row(a, chol_rows(a, n, i - 1), i - 1, n));
                if n <= 0 {
                    assert(chol_row(a, chol_rows(a, n, i - 1), i - 1, n).len() == 0);
                }
            }
        }
    }
}

/// The completed rows are stable as the factorization advances.
pub proof fn lemma_chol_rows_prefix(a: Seq<Seq<i64>>, n: int, i1: int, i2: int)
    requires
        0 <= i1 <= i2,
    ensures
        chol_rows(a, n, i2).len() == i2,
        forall|k: int| 0 <= k < i1 ==> chol_rows(a, n, i2)[k] == #[trigger] chol_rows(
            a,
            n,
            i1,
        )[k],
    decreases i2,
{
    if i2 > 0 {
        if i1 <= i2 - 1 {
            lemma_chol_rows_prefix(a, n, i1, i2 - 1);
        } else {
            lemma_chol_rows_prefix(a, n, i2 - 1, i2 - 1);
        }
    }
}

impl Array {
    /// The Cholesky factorization `self = L * transpose(L)` of a square,
    /// symmetric, positive-definite matrix, computed row by row with the
    /// standard formula in wrapping 64-bit arithmetic. Returns the
    /// lower-triangular factor; fails, exactly when a diagonal divisor is
    /// unusable or a radicand negative, with `NotSolvable` (the behaviour
    /// this engine gives the open case of inputs that are not positive
    /// definite).
    pub fn cholesky(&self) -> (r: Result<Array, ArrayError>)
        requires
            self.wf(),
            self.rank_spec() == 2,
            self.shape@[0] == self.shape@[1],
        ensures
            match r {
                Ok(l) => {
                    &&& chol_ok(mat_of(*self), self.shape@[0] as int)
                    &&& l.wf()
                    &&& l.shape@ == seq![self.shape@[0], self.shape@[0]]
                    &&& mat_of(l) == chol_model(mat_of(*self), self.shape@[0] as int)
                },
                Err(e) => e == ArrayError::NotSolvable && !chol_ok(
                    mat_of(*self),
                    self.shape@[0] as int,
                ),
            },
    {
        let n = self.shape[0];
        let ghost am = mat_of(*self);
        let mut lv: Vec<i64> = Vec::new();
        let mut i: usize = 0;
        proof {
            lemma_square_rows(self);
            lemma_chol_rows_prefix(am, n as int, 0, 0);
            lemma_product_pair(self.shape@);
        }
        while i < n
            invariant
                0 <= i <= n,
                self.wf(),
                self.rank_spec() == 2,
                self.shape@[0] == self.shape@[1],
                n == self.shape@[0],
                n <= crate::dim::count_limit(),
                n * n == product(self.shape@),
                n * n <= crate::dim::count_limit(),
                am == mat_of(*self),
                lv@.len() == i * n,
                forall|i2: int, j2: int|
                    0 <= i2 < i && 0 <= j2 < n ==> lv@[i2 * n + j2] == #[trigger] chol_rows(
                        am,
                        n as int,
                        i as int,
                    )[i2][j2],
                forall|i2: int, j2: int|
                    0 <= j2 <= i2 < i ==> {
                        let l = chol_rows(am, n as int, i2);
                        let pre = #[trigger] chol_row(am, chol_rows(am, n as int, i2), i2, j2);
                        if j2 < i2 {
                            div_ok(am[i2][j2].wrapping_sub(seqdot(pre, l[j2], j2)), l[j2][j2])
                        } else {
                            am[i2][i2].wrapping_sub(seqdot(pre, pre, i2)) >= 0
                        }
                    },
            decreases n - i,
        {
            let ghost lrows = chol_rows(am, n as int, i as int);
            proof {
                lemma_chol_rows_prefix(am, n as int, i as int, i as int);
                assert(i * n + n <= n * n) by (nonlinear_arith)
                    requires
                        i < n,
                ;
                assert(n * n == product(self.shape@)) by {
                    lemma_product_pair(self.shape@);
                }
            }
            let mut j: usize = 0;
            while j < n
                invariant
                    0 <= j <= n,
                    0 <= i < n,
                    self.wf(),
                    self.rank_spec() == 2,
                    self.shape@[0] == self.shape@[1],
                    n == self.shape@[0],
                    n <= crate::dim::count_limit(),
                    am == mat_of(*self),
                    lrows == chol_rows(am, n as int, i as int),
                    lrows.len() == i,
                    lv@.len() == i * n + j,
                    i * n + n <= n * n,
                    n * n <= crate::dim::count_limit(),
                    forall|i2: int, j2: int|
                        0 <= i2 < i && 0 <= j2 < n ==> lv@[i2 * n + j2] == #[trigger] chol_rows(
                            am,
                            n as int,
                            i as int,
                        )[i2][j2],
                    forall|j2: int|
                        0 <= j2 < j ==> lv@[i * n + j2] == #[trigger] chol_row(
                            am,
                            lrows,
                            i as int,
                            j as int,
                        )[j2],
                    forall|i2: int, j2: int|
                        0 <= j2 <= i2 < i ==> {
                            let l = chol_rows(am, n as int, i2);
                            let pre = #[trigger] chol_row(am, chol_rows(am, n as int, i2), i2, j2);
                            if j2 < i2 {
                                div_ok(am[i2][j2].wrapping_sub(seqdot(pre, l[j2], j2)), l[j2][j2])
                            } else {
                                am[i2][i2].wrapping_sub(seqdot(pre, pre, i2)) >= 0
                            }
                        },
                    forall|j2: int|
                        0 <= j2 < j && j2 <= i ==> {
                            let pre = #[trigger] chol_row(am, lrows, i as int, j2);
                            if j2 < i {
                                div_ok(
                                    am[i as int][j2].wrapping_sub(seqdot(pre, lrows[j2], j2)),
                                    lrows[j2][j2],
                                )
                            } else {
                                am[i as int][i as int].wrapping_sub(seqdot(pre, pre, i as int))
                                    >= 0
                            }
                        },
                decreases n - j,
            {
                proof {
                    lemma_chol_row_prefix(am, lrows, i as int, j as int, j as int);
                    assert((i + 1) * n <= n * n) by (nonlinear_arith)
                        requires
                            i < n,
                    ;
                    assert(i * n + j < (i + 1) * n) by (nonlinear_arith)
                        requires
                            j < n,
                    ;
                }
                let ghost pre_j = chol_row(am, lrows, i as int, j as int);
                let v: i64 = if j < i {
                    // below the diagonal
                    let mut s: i64 = 0;
                    let mut t: usize = 0;
                    while t < j
                        invariant
                            0 <= t <= j < i < n,
                            lv@.len() == i * n + j,
                            i * n + n <= n * n,
                            n * n <= crate::dim::count_limit(),
                            lrows == chol_rows(am, n as int, i as int),
                            lrows.len() == i,
                            pre_j == chol_row(am, lrows, i as int, j as int),
                            pre_j.len() == j,
                            forall|j2: int|
                                0 <= j2 < j ==> lv@[i * n + j2] == #[trigger] chol_row(
                                    am,
                                    lrows,
                                    i as int,
                                    j as int,
                                )[j2],
                            forall|i2: int, j2: int|
                                0 <= i2 < i && 0 <= j2 < n ==> lv@[i2 * n + j2]
                                    == #[trigger] chol_rows(am, n as int, i as int)[i2][j2],
                            s == seqdot(pre_j, lrows[j as int], t as int),
                        decreases j - t,
                    {
                        proof {
                            assert(i * n + t < i * n + j) by (nonlinear_arith)
                                requires
                                    t < j,
                            ;
                            assert(j * n + t < i * n + j) by (nonlinear_arith)
                                requires
                                    j < i,
                                    t < j,
                                    0 <= j,
                                    0 <= t,
                                    j < n,
                            ;
                        }
                        let x = lv[i * n + t];
                        let y = lv[j * n + t];
                        proof {
                            assert(x == pre_j[t as int]);
                            assert(y == lrows[j as int][t as int]);
                        }
                        s = s.wrapping_add(x.wrapping_mul(y));
                        t = t + 1;
                    }
                    let aij_idx: Vec<usize> = vec![i, j];
                    proof {
                        assert(to_int(aij_idx@) =~= seq![i as int, j as int]);
                        assert(in_bounds(to_int(aij_idx@), self.shape@));
                        assert(am[i as int][j as int] == self.at(seq![i as int, j as int]));
                        assert(j * n + j < i * n + j) by (nonlinear_arith)
                            requires
                                j < i,
                                0 <= j,
                                j < n,
                        ;
                    }
                    let aij = self.get(&aij_idx);
                    let num = aij.wrapping_sub(s);
                    let d = lv[j * n + j];
                    proof {
                        assert(d == lrows[j as int][j as int]);
                        assert(num == am[i as int][j as int].wrapping_sub(
                            seqdot(pre_j, lrows[j as int], j as int),
                        ));
                        if div_ok(num, d) {
                            lemma_div_ok_range(num, d);
                        }
                    }
                    match num.checked_div(d) {
                        Some(q) => {
                            proof {
                                if num == i64::MIN && d == -1 {
                                    vstd::arithmetic::div_mod::lemma_div_by_multiple(
                                        i64::MAX as int + 1,
                                        1,
                                    );
                                    assert((i64::MAX as int + 1) * 1 == i64::MAX as int + 1);
                                }
                                assert(div_ok(num, d));
                                assert(q == tdiv64(num, d));
                            }
                            q
                        },
                        None => {
                            proof {
                                assert(!div_ok(num, d));
                                assert(!chol_ok(am, n as int)) by {
                                    if chol_ok(am, n as int) {
                                        assert(0 <= j as int && j as int <= i as int && (i as int) < n as int);
                                        let pre2 = chol_row(
                                            am,
                                            chol_rows(am, n as int, i as int),
                                            i as int,
                                            j as int,
                                        );
                                        assert(pre2 == pre_j);
                                    }
                                }
                            }
                            return Err(ArrayError::NotSolvable);
                        },
                    }
                } else if j == i {
                    // the diagonal entry
                    let mut s: i64 = 0;
                    let mut t: usize = 0;
                    while t < i
                        invariant
                            0 <= t <= i == j < n,
                            lv@.len() == i * n + j,
                            i * n + n <= n * n,
                            n * n <= crate::dim::count_limit(),
                            lrows == chol_rows(am, n as int, i as int),
                            pre_j == chol_row(am, lrows, i as int, j as int),
                            pre_j.len() == j,
                            forall|j2: int|
                                0 <= j2 < j ==> lv@[i * n + j2] == #[trigger] chol_row(
                                    am,
                                    lrows,
                                    i as int,
                                    j as int,
                                )[j2],
                            s == seqdot(pre_j, pre_j, t as int),
                        decreases i - t,
                    {
                        proof {
                            assert(i * n + t < i * n + j) by (nonlinear_arith)
                                requires
                                    t < j,
                            ;
                        }
                        let x = lv[i * n + t];
                        proof {
                            assert(x == pre_j[t as int]);
                        }
                        s = s.wrapping_add(x.wrapping_mul(x));
                        t = t + 1;
                    }
                    let aii_idx: Vec<usize> = vec![i, i];
                    proof {
                        assert(to_int(aii_idx@) =~= seq![i as int, i as int]);
                        assert(in_bounds(to_int(aii_idx@), self.shape@));
                        assert(am[i as int][i as int] == self.at(seq![i as int, i as int]));
                    }
                    let aii = self.get(&aii_idx);
                    let rad = aii.wrapping_sub(s);
                    proof {
                        assert(rad == am[i as int][i as int].wrapping_sub(
                            seqdot(pre_j, pre_j, i as int),
                        ));
                    }
                    if rad < 0 {
                        proof {
                            assert(!chol_ok(am, n as int)) by {
                                if chol_ok(am, n as int) {
                                    assert(0 <= j as int && j as int <= i as int && (i as int) < n as int);
                                    let pre2 = chol_row(
                                        am,
                                        chol_rows(am, n as int, i as int),
                                        i as int,
                                        j as int,
                                    );
                                    assert(pre2 == pre_j);
                                }
                            }
                        }
                        return Err(ArrayError::NotSolvable);
                    }
                    let rt = isqrt(rad);
                    proof {
                        lemma_sqrt_floor_props(rad as int);
                        assert(rt == isqrt64(rad));
                    }
                    rt
                } else {
                    0
                };
                let ghost lv_old = lv@;
                lv.push(v);
                proof {
                    assert forall|i2: int, j2: int|
                        0 <= i2 < i && 0 <= j2 < n implies lv@[i2 * n + j2] == #[trigger] chol_rows(
                        am,
                        n as int,
                        i as int,
                    )[i2][j2] by {
                        assert(i2 * n + j2 < i * n) by (nonlinear_arith)
                            requires
                                0 <= i2 < i,
                                0 <= j2 < n,
                        ;
                        assert(lv@[i2 * n + j2] == lv_old[i2 * n + j2]);
                        assert(lv_old[i2 * n + j2] == chol_rows(am, n as int, i as int)[i2][j2]);
                    }
                    lemma_chol_row_prefix(am, lrows, i as int, j as int, j + 1);
                    assert(chol_row(am, lrows, i as int, j + 1) == pre_j.push(
                        chol_row(am, lrows, i as int, j + 1)[j as int],
                    )) by {
                        assert(chol_row(am, lrows, i as int, j + 1) == chol_row(
                            am,
                            lrows,
                            i as int,
                            j as int,
                        ).push(
                            chol_row(am, lrows, i as int, j + 1).last(),
                        ));
                    }
                    assert(chol_row(am, lrows, i as int, j + 1)[j as int] == v);
                    assert forall|j2: int|
                        0 <= j2 < j + 1 implies lv@[i * n + j2] == #[trigger] chol_row(
                        am,
                        lrows,
                        i as int,
                        j + 1,
                    )[j2] by {
                        if j2 < j {
                            assert(lv@[i * n + j2] == chol_row(am, lrows, i as int, j as int)[j2]);
                            assert(chol_row(am, lrows, i as int, j + 1)[j2] == chol_row(
                                am,
                                lrows,
                                i as int,
                                j as int,
                            )[j2]);
                        } else {
                            assert(i * n + j2 == lv@.len() - 1);
                        }
                    }
                }
                j = j + 1;
            }
            proof {
                assert(chol_rows(am, n as int, i + 1) == lrows.push(
                    chol_row(am, lrows, i as int, n as int),
                ));
                lemma_chol_row_prefix(am, lrows, i as int, n as int, n as int);
                assert((i + 1) * n == i * n + n) by (nonlinear_arith);
                assert forall|i2: int, j2: int|
                    0 <= i2 < i + 1 && 0 <= j2 < n implies lv@[i2 * n + j2] == #[trigger] chol_rows(
                    am,
                    n as int,
                    i + 1,
                )[i2][j2] by {
                    if i2 < i {
                        assert(lv@[i2 * n + j2] == chol_rows(am, n as int, i as int)[i2][j2]);
                        assert(chol_rows(am, n as int, i + 1)[i2] == chol_rows(
                            am,
                            n as int,
                            i as int,
                        )[i2]) by {
                            lemma_chol_rows_prefix(am, n as int, i as int, i + 1);
                        }
                    } else {
                        assert(chol_rows(am, n as int, i + 1)[i2] == chol_row(
                            am,
                            lrows,
                            i as int,
                            n as int,
                        ));
                        assert(lv@[i * n + j2] == chol_row(am, lrows, i as int, n as int)[j2]);
                    }
                }
            }
            i = i + 1;
        }
        let shape2: Vec<usize> = vec![n, n];
        proof {
            assert(shape2@ =~= seq![n, n]);
            assert(shape2@ =~= self.shape@);
            assert(counts_ok(shape2@)) by {
                assert forall|k: int|
                    0 <= k <= shape2@.len() implies #[trigger] product(
                    shape2@.subrange(k, shape2@.len() as int),
                ) <= crate::dim::count_limit() by {
                    if k == 0 {
                        assert(shape2@.subrange(0, 2) =~= self.shape@);
                    } else if k == 1 {
                        assert(shape2@.subrange(1, 2) =~= seq![n]);
                        assert(seq![n].drop_first() =~= Seq::<usize>::empty());
                        assert(product(Seq::<usize>::empty()) == 1);
                        assert(product(seq![n]) == n * 1);
                        assert(n * 1 == n as int) by (nonlinear_arith);
                    } else {
                        assert(shape2@.subrange(2, 2) =~= Seq::<usize>::empty());
                    }
                }
            }
            assert(lv@.len() == n * n) by {
                assert(i * n == n * n) by (nonlinear_arith)
                    requires
                        i == n,
                ;
            }
            assert(n * n == product(self.shape@)) by {
                lemma_product_pair(self.shape@);
            }
            assert(product(shape2@) == n * n);
        }
        let l = match Array::from_vec_dim(shape2, lv) {
            Ok(l) => l,
            Err(_) => {
                proof {
                    assert(false);
                }
                return Err(ArrayError::NotSolvable);
            },
        };
        proof {
            assert(chol_ok(am, n as int));
            lemma_chol_rows_prefix(am, n as int, n as int, n as int);
            assert(mat_of(l) =~= chol_model(am, n as int)) by {
                assert forall|i2: int| 0 <= i2 < n implies mat_of(l)[i2] =~= chol_model(
                    am,
                    n as int,
                )[i2] by {
                    assert forall|j2: int| 0 <= j2 < n implies mat_of(l)[i2][j2] == chol_model(
                        am,
                        n as int,
                    )[i2][j2] by {
                        assert(in_bounds(seq![i2, j2], l.shape@));
                        l.lemma_at_logical(seq![i2, j2]);
                        assert(flatten(seq![i2, j2], l.shape@) == i2 * (n as int) + j2) by {
                            lemma_flatten_pair(i2, j2, l.shape@);
                        }
                        assert(l.logical()[i2 * (n as int) + j2] == lv@[i2 * (n as int) + j2]);
                        assert(lv@[i2 * (n as int) + j2] == chol_rows(am, n as int, n as int)[
                            i2
                        ][j2]);
                    }
                    assert(mat_of(l)[i2].len() == n as int);
                    assert(chol_model(am, n as int)[i2].len() == n as int) by {
                        lemma_chol_rows_row_len(am, n as int, n as int);
                    }
                }
            }
            assert(chol_model(am, n as int).len() == n as int);
        }
        Ok(l)
    }
}


/// Entry `(i, j)` of a matrix product, over the first `m` terms (wrapping).
pub open spec fn mm_entry(a: Seq<Seq<i64>>, b: Seq<Seq<i64>>, i: int, j: int, m: int) -> i64
    decreases m,
{
    if m <= 0 {
        0
    } else {
        mm_entry(a, b, i, j, m - 1).wrapping_add(a[i][m - 1].wrapping_mul(b[m - 1][j]))
    }
}

/// Entry `i` of a matrix-vector product, over the first `m` terms
/// (wrapping).
pub open spec fn mv_entry(a: Seq<Seq<i64>>, x: Seq<i64>, i: int, m: int) -> i64
    decreases m,
{
    if m <= 0 {
        0
    } else {
        mv_entry(a, x, i, m - 1).wrapping_add(a[i][m - 1].wrapping_mul(x[m - 1]))
    }
}

/// The normal-equations matrix `transpose(A) * A` of an `m` by `n` matrix.
pub open spec fn normal_mat(a: Seq<Seq<i64>>, m: int, n: int) -> Seq<Seq<i64>> {
    Seq::new(
        n as nat,
        |i: int| Seq::new(n as nat, |j: int| mm_entry(transpose_of(a, m, n), a, i, j, m)),
    )
}

/// The normal-equations right-hand side `transpose(A) * b`.
pub open spec fn normal_rhs(a: Seq<Seq<i64>>, bv: Seq<i64>, m: int, n: int) -> Seq<i64> {
    Seq::new(n as nat, |i: int| mv_entry(transpose_of(a, m, n), bv, i, m))
}

/// A matrix product entry agrees with the model entry of the operands'
/// matrices.
proof fn lemma_dotprod_mm(x: Array, y: Array, i: int, j: int, t: int)
    requires
        x.shape@.len() == 2,
        y.shape@.len() == 2,
        0 <= i < x.shape@[0],
        0 <= j < y.shape@[1],
        t <= x.shape@[1],
        t <= y.shape@[0],
    ensures
        crate::ops::dotprod(x, y, i, j, t) == mm_entry(mat_of(x), mat_of(y), i, j, t),
    decreases t,
{
    if t > 0 {
        lemma_dotprod_mm(x, y, i, j, t - 1);
        assert(mat_of(x)[i][t - 1] == x.at(seq![i, t - 1]));
        assert(mat_of(y)[t - 1][j] == y.at(seq![t - 1, j]));
    }
}

/// A matrix-vector product entry, through a one-column matrix.
proof fn lemma_dotprod_mv(x: Array, y: Array, bv: Seq<i64>, i: int, t: int)
    requires
        x.shape@.len() == 2,
        y.shape@.len() == 2,
        y.shape@[1] == 1,
        0 <= i < x.shape@[0],
        t <= x.shape@[1],
        t <= y.shape@[0],
        forall|k: int| 0 <= k < y.shape@[0] ==> #[trigger] mat_of(y)[k][0] == bv[k],
    ensures
        crate::ops::dotprod(x, y, i, 0, t) == mv_entry(mat_of(x), bv, i, t),
    decreases t,
{
    if t > 0 {
        lemma_dotprod_mv(x, y, bv, i, t - 1);
        assert(mat_of(x)[i][t - 1] == x.at(seq![i, t - 1]));
        assert(mat_of(y)[t - 1][0] == y.at(seq![t - 1, 0]));
    }
}

impl Array {
    /// Solves the overdetermined system `self * x` close to `b` by the
    /// normal equations: forms `transpose(self) * self`, Cholesky-factors
    /// it, and recovers `x` by a forward then a backward substitution, all
    /// in the engine's wrapping 64-bit arithmetic. Fails with `NotSolvable`
    /// exactly when one of those stages does, and with `TooLarge` when the
    /// normal-equations matrix does not fit the index range.
    pub fn least_squares(&self, b: &Array) -> (r: Result<Array, ArrayError>)
        requires
            self.wf(),
            b.wf(),
            self.rank_spec() == 2,
            b.rank_spec() == 1,
            b.shape@[0] == self.shape@[0],
        ensures
            ({
                let m = self.shape@[0] as int;
                let n = self.shape@[1] as int;
                let am = mat_of(*self);
                let bv = col_of(*b);
                let ata = normal_mat(am, m, n);
                let lf = chol_model(ata, n);
                let rhs = normal_rhs(am, bv, m, n);
                let z = fw_seq(lf, rhs, n);
                let lt = transpose_of(lf, n, n);
                match r {
                    Ok(x) => {
                        &&& chol_ok(ata, n)
                        &&& fw_ok(lf, rhs, n)
                        &&& bw_ok(lt, z, n)
                        &&& x.wf()
                        &&& x.shape@ == seq![self.shape@[1]]
                        &&& col_of(x) == bw_seq(lt, z, n, n)
                    },
                    Err(e) => {
                        ||| (e == ArrayError::NotSolvable && !(chol_ok(ata, n) && fw_ok(lf, rhs, n)
                            && bw_ok(lt, z, n)))
                        ||| (e == ArrayError::TooLarge && !counts_ok(
                            seq![self.shape@[1], self.shape@[1]],
                        ))
                    },
                }
            }),
    {
        let m = self.shape[0];
        let n = self.shape[1];
        let ghost am = mat_of(*self);
        let ghost bv = col_of(*b);
        let mut at = self.clone();
        at.swap_axes(0, 1);
        proof {
            assert(at.shape@ =~= seq![n, m]);
            lemma_mat_transpose(self, &at);
        }
        let ata = match at.mat_mul(self) {
            Ok(v) => v,
            Err(_) => {
                return Err(ArrayError::TooLarge);
            },
        };
        proof {
            assert(ata.shape@ =~= seq![n, n]);
            assert(mat_of(ata) =~= normal_mat(am, m as int, n as int)) by {
                assert forall|i: int, j: int| 0 <= i < n && 0 <= j < n implies mat_of(ata)[i][j]
                    == normal_mat(am, m as int, n as int)[i][j] by {
                    assert(mat_of(ata)[i][j] == ata.at(seq![i, j]));
                    assert(ata.at(seq![i, j]) == crate::ops::dotprod(at, *self, i, j, m as int));
                    lemma_dotprod_mm(at, *self, i, j, m as int);
                    assert(mat_of(at) == transpose_of(am, m as int, n as int));
                }
                assert(mat_of(ata).len() == n as int);
                assert forall|i: int| 0 <= i < n implies mat_of(ata)[i] =~= normal_mat(
                    am,
                    m as int,
                    n as int,
                )[i] by {}
            }
        }
        let lf = match ata.cholesky() {
            Ok(v) => v,
            Err(_) => {
                return Err(ArrayError::NotSolvable);
            },
        };
        proof {
            assert(b.shape@ =~= seq![m]);
            lemma_product_single(b.shape@);
            assert(m <= crate::dim::count_limit());
        }
        let b2shape: Vec<usize> = vec![m, 1];
        proof {
            assert(b2shape@ =~= seq![m, 1usize]);
        }
        let b2 = match b.clone().reshape(b2shape) {
            Ok(v) => v,
            Err(_) => {
                proof {
                    lemma_b2_counts(m);
                    assert(product(b.shape@) == m);
                    assert(false);
                }
                return Err(ArrayError::TooLarge);
            },
        };
        proof {
            assert(b2.shape@ =~= seq![m, 1usize]);
            assert forall|k: int| 0 <= k < b2.shape@[0] implies #[trigger] mat_of(b2)[k][0]
                == bv[k] by {
                assert(mat_of(b2)[k][0] == b2.at(seq![k, 0]));
                assert(in_bounds(seq![k, 0], b2.shape@));
                b2.lemma_at_logical(seq![k, 0]);
                lemma_flatten_pair(k, 0, b2.shape@);
                assert(k * 1 == k) by (nonlinear_arith);
            }
        }
        proof {
            lemma_square_rows(&ata);
            assert(n <= crate::dim::count_limit());
        }
        let rhs2 = match at.mat_mul(&b2) {
            Ok(v) => v,
            Err(_) => {
                proof {
                    lemma_b2_counts(n);
                    assert(false);
                }
                return Err(ArrayError::TooLarge);
            },
        };
        let rshape: Vec<usize> = vec![n];
        proof {
            assert(rshape@ =~= seq![n]);
        }
        let rhs = match rhs2.reshape(rshape) {
            Ok(v) => v,
            Err(_) => {
                proof {
                    lemma_rhs_counts(n);
                    assert(rhs2.shape@ =~= seq![n, 1usize]);
                    lemma_product_pair(rhs2.shape@);
                    assert(n * 1 == n as int) by (nonlinear_arith);
                    assert(false);
                }
                return Err(ArrayError::TooLarge);
            },
        };
        proof {
            assert(rhs.shape@ =~= seq![n]);
            lemma_product_single(rhs.shape@);
            assert(col_of(rhs).len() == n);
            assert(rhs2.shape@ =~= seq![n, 1usize]);
            lemma_product_pair(rhs2.shape@);
            assert(n * 1 == n as int) by (nonlinear_arith);
            assert(col_of(rhs2).len() == n);
            assert(col_of(rhs) =~= normal_rhs(am, bv, m as int, n as int)) by {
                assert forall|i: int| 0 <= i < n implies col_of(rhs)[i] == normal_rhs(
                    am,
                    bv,
                    m as int,
                    n as int,
                )[i] by {
                    assert(col_of(rhs)[i] == col_of(rhs2)[i]) by {
                        assert(rhs.logical() == rhs2.logical());
                    }
                    assert(col_of(rhs2)[i] == rhs2.at(seq![i, 0])) by {
                        assert(rhs2.shape@ =~= seq![n, 1usize]);
                        assert(in_bounds(seq![i, 0], rhs2.shape@));
                        rhs2.lemma_at_logical(seq![i, 0]);
                        lemma_flatten_pair(i, 0, rhs2.shape@);
                        assert(i * 1 == i) by (nonlinear_arith);
                    }
                    assert(rhs2.at(seq![i, 0]) == crate::ops::dotprod(at, b2, i, 0, m as int));
                    lemma_dotprod_mv(at, b2, bv, i, m as int);
                    assert(mat_of(at) == transpose_of(am, m as int, n as int));
                }
            }
        }
        let z = match lf.subst_fw(&rhs) {
            Ok(v) => v,
            Err(_) => {
                return Err(ArrayError::NotSolvable);
            },
        };
        let mut lt = lf.clone();
        lt.swap_axes(0, 1);
        proof {
            assert(lt.shape@ =~= seq![n, n]);
            lemma_mat_transpose(&lf, &lt);
        }
        let x = match lt.subst_bw(&z) {
            Ok(v) => v,
            Err(_) => {
                return Err(ArrayError::NotSolvable);
            },
        };
        proof {
            assert(x.shape@ =~= seq![n]);
        }
        Ok(x)
    }
}

/// After exchanging the two axes, the view's matrix is the transpose.
proof fn lemma_mat_transpose(a: &Array, t: &Array)
    requires
        a.wf(),
        a.shape@.len() == 2,
        t.shape@.len() == 2,
        t.shape@[0] == a.shape@[1],
        t.shape@[1] == a.shape@[0],
        forall|idx: Seq<int>|
            in_bounds(idx, t.shape@) ==> #[trigger] t.at(idx) == a.at(
                crate::view::swap_seq(idx, 0, 1),
            ),
    ensures
        mat_of(*t) == transpose_of(mat_of(*a), a.shape@[0] as int, a.shape@[1] as int),
{
    let m = a.shape@[0] as int;
    let n = a.shape@[1] as int;
    assert(mat_of(*t) =~= transpose_of(mat_of(*a), m, n)) by {
        assert forall|i: int, j: int| 0 <= i < n && 0 <= j < m implies mat_of(*t)[i][j] == mat_of(
            *a,
        )[j][i] by {
            assert(in_bounds(seq![i, j], t.shape@));
            assert(t.at(seq![i, j]) == a.at(crate::view::swap_seq(seq![i, j], 0, 1)));
            assert(crate::view::swap_seq(seq![i, j], 0, 1) =~= seq![j, i]);
            assert(mat_of(*a)[j][i] == a.at(seq![j, i]));
        }
        assert forall|i: int| 0 <= i < n implies mat_of(*t)[i] =~= transpose_of(
            mat_of(*a),
            m,
            n,
        )[i] by {}
    }
}

/// The element count of a one-axis shape is its single axis length.
pub proof fn lemma_product_single(s: Seq<usize>)
    requires
        s.len() == 1,
    ensures
        product(s) == s[0],
{
    assert(s.drop_first() =~= Seq::<usize>::empty());
    assert(product(s.drop_first()) == 1);
    assert(product(s) == s[0] * 1);
    assert(s[0] * 1 == s[0] as int) by (nonlinear_arith);
}

/// A single-column shape always fits the index range when its row count
/// does.
proof fn lemma_b2_counts(m: usize)
    requires
        m <= crate::dim::count_limit(),
    ensures
        counts_ok(seq![m, 1usize]),
        product(seq![m, 1usize]) == m,
{
    let s: Seq<usize> = seq![m, 1usize];
    lemma_product_pair(s);
    assert(m * 1 == m as int) by (nonlinear_arith);
    assert forall|k: int| 0 <= k <= s.len() implies #[trigger] product(
        s.subrange(k, s.len() as int),
    ) <= crate::dim::count_limit() by {
        if k == 0 {
            assert(s.subrange(0, 2) =~= s);
        } else if k == 1 {
            assert(s.subrange(1, 2) =~= seq![1usize]);
            assert(seq![1usize].drop_first() =~= Seq::<usize>::empty());
            assert(product(Seq::<usize>::empty()) == 1);
            assert(product(seq![1usize]) == 1 * 1);
        } else {
            assert(s.subrange(2, 2) =~= Seq::<usize>::empty());
        }
    }
}

/// A vector shape fits when its length does.
proof fn lemma_rhs_counts(n: usize)
    requires
        n <= crate::dim::count_limit(),
    ensures
        counts_ok(seq![n]),
        product(seq![n]) == n,
{
    let v: Seq<usize> = seq![n];
    assert(v.drop_first() =~= Seq::<usize>::empty());
    assert(product(v.drop_first()) == 1);
    assert(product(v) == n * 1);
    assert(n * 1 == n as int) by (nonlinear_arith);
    assert forall|k: int| 0 <= k <= v.len() implies #[trigger] product(
        v.subrange(k, v.len() as int),
    ) <= crate::dim::count_limit() by {
        if k == 0 {
            assert(v.subrange(0, 1) =~= v);
        } else {
            assert(v.subrange(1, 1) =~= Seq::<usize>::empty());
        }
    }
}

} // verus!
