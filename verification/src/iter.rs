//! Elementwise iteration in row-major logical order, independent of the
//! memory strides. The iterator snapshots the view at creation (sharing the
//! storage cheaply) and reports the exact remaining count at every point.

use vstd::prelude::*;
use crate::array::Array;
use crate::dim::lemma_product_nonneg;

verus! {

/// An iterator over one array view's elements in logical order. It is
/// driven by `next` and reports the exact remaining count with `size_hint`;
/// after exhaustion `next` keeps returning `None`.
pub struct ArrayIter {
    pub arr: Array,
    pub pos: usize,
    pub total: usize,
}

impl ArrayIter {
    pub open spec fn wf(&self) -> bool {
        &&& self.arr.wf()
        &&& self.total == self.arr.count_spec()
        &&& self.pos <= self.total
    }

    /// The full element sequence this iterator walks.
    pub open spec fn seq(&self) -> Seq<i64> {
        self.arr.logical()
    }

    /// Exactly how many elements are still to come.
    pub open spec fn remaining(&self) -> int {
        self.total - self.pos
    }

    /// The next element in logical order, or `None` exactly when the
    /// iterator is exhausted. Re-calling after exhaustion stays `None`.
    pub fn next(&mut self) -> (r: Option<i64>)
        requires
            old(self).wf(),
        ensures
            final(self).wf(),
            final(self).seq() == old(self).seq(),
            final(self).total == old(self).total,
            old(self).pos < old(self).total ==> r == Some(old(self).seq()[old(self).pos as int])
                && final(self).pos == old(self).pos + 1,
            old(self).pos >= old(self).total ==> r is None && final(self).pos == old(self).pos,
    {
        if self.pos < self.total {
            let idx = self.arr.index_at(self.pos);
            let v = self.arr.get(&idx);
            self.pos = self.pos + 1;
            Some(v)
        } else {
            None
        }
    }

    /// The exact remaining count, as both the lower and the upper bound.
    pub fn size_hint(&self) -> (r: (usize, Option<usize>))
        requires
            self.wf(),
        ensures
            r.0 == self.remaining(),
            r.1 == Some((self.remaining()) as usize),
    {
        let n = self.total - self.pos;
        (n, Some(n))
    }
}

impl Array {
    /// An iterator over this view's elements in row-major logical order,
    /// honouring negative and permuted strides. It snapshots the view's
    /// shape, strides and offset and shares the storage, so later writes to
    /// this array do not disturb it.
    pub fn iter(&self) -> (it: ArrayIter)
        requires
            self.wf(),
        ensures
            it.wf(),
            it.pos == 0,
            it.total == self.count_spec(),
            it.seq() == self.logical(),
    {
        let arr = self.clone();
        let total = self.count();
        proof {
            lemma_product_nonneg(self.shape@);
        }
        ArrayIter { arr, pos: 0, total }
    }
}

} // verus!
