//! A shareable, reference-counted buffer of elements with copy-on-write
//! semantics: handles share one backing vector until a write arrives, and a
//! write through a shared handle first rebinds the handle to a private copy.

use vstd::prelude::*;
use std::rc::Rc;
use std::mem;

verus! {

/// A copy-on-write buffer of elements. Its view is the sequence of elements
/// it currently holds; sharing is invisible to the model, because no write
/// ever reaches a buffer that another live handle can still observe.
#[derive(Debug)]
pub struct Storage {
    buf: Rc<Vec<i64>>,
}

impl View for Storage {
    type V = Seq<i64>;

    closed spec fn view(&self) -> Seq<i64> {
        self.buf@
    }
}

impl Clone for Storage {
    /// Duplicates the handle: the clone observes the same elements.
    fn clone(&self) -> (r: Self)
        ensures
            r@ == self@,
    {
        Storage { buf: self.buf.clone() }
    }
}

impl Storage {
    /// A fresh, uniquely owned buffer of `n` copies of `fill`.
    pub fn allocate(n: usize, fill: i64) -> (r: Self)
        ensures
            r@ == Seq::new(n as nat, |i: int| fill),
    {
        let buf = vec![fill; n];
        proof {
            assert(buf@ =~= Seq::new(n as nat, |i: int| fill));
        }
        Storage { buf: Rc::new(buf) }
    }

    /// Wraps an existing vector of elements as a uniquely owned buffer.
    pub fn from_vec(v: Vec<i64>) -> (r: Self)
        ensures
            r@ == v@,
    {
        Storage { buf: Rc::new(v) }
    }

    pub fn len(&self) -> (r: usize)
        ensures
            r == self@.len(),
    {
        self.buf.len()
    }

    /// Reads the element at position `i`.
    pub fn read(&self, i: usize) -> (r: i64)
        requires
            i < self@.len(),
        ensures
            r == self@[i as int],
    {
        self.buf[i]
    }

    /// A fresh vector holding a copy of the buffer's elements, in order.
    pub fn to_vec(&self) -> (r: Vec<i64>)
        ensures
            r@ == self@,
    {
        (*self.buf).clone()
    }

    /// Rebinds this handle to a buffer it owns uniquely, copying the backing
    /// elements if any sibling handle still shares them. The observable
    /// contents do not change.
    pub fn ensure_unique(&mut self)
        ensures
            final(self)@ == old(self)@,
    {
        let mut taken: Rc<Vec<i64>> = Rc::new(Vec::new());
        mem::swap(&mut taken, &mut self.buf);
        let owned: Vec<i64> = match Rc::try_unwrap(taken) {
            Ok(v) => v,
            Err(shared) => (*shared).clone(),
        };
        self.buf = Rc::new(owned);
    }

    /// Writes `v` at position `i`, after re-establishing unique ownership, so
    /// that no sibling handle observes the write.
    pub fn write(&mut self, i: usize, v: i64)
        requires
            i < old(self)@.len(),
        ensures
            final(self)@ == old(self)@.update(i as int, v),
    {
        let mut taken: Rc<Vec<i64>> = Rc::new(Vec::new());
        mem::swap(&mut taken, &mut self.buf);
        let mut owned: Vec<i64> = match Rc::try_unwrap(taken) {
            Ok(v0) => v0,
            Err(shared) => (*shared).clone(),
        };
        owned.set(i, v);
        self.buf = Rc::new(owned);
    }
}

} // verus!
