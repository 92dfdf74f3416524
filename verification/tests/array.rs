use ndarray::{Array, ArrayError, Si};

fn fill_seq(a: &mut Array) {
    let total = a.count();
    for k in 0..total {
        let idx = a.index_at(k);
        a.set(&idx, k as i64);
    }
}

fn full() -> Si {
    Si::full()
}

fn si(start: i64, end: Option<i64>, step: i64) -> Si {
    Si { start, end, step }
}

#[test]
fn test_matmul_rcarray() {
    let mut a = Array::zeros(vec![2, 3]).unwrap();
    fill_seq(&mut a);
    let mut b = Array::zeros(vec![3, 4]).unwrap();
    fill_seq(&mut b);

    let c = a.mat_mul(&b).unwrap();
    let result = Array::from_vec_dim(vec![2, 4], vec![20, 23, 26, 29, 56, 68, 80, 92]).unwrap();
    assert_eq!(c.shape(), result.shape());
    let mut ic = c.iter();
    let mut ir = result.iter();
    loop {
        match (ic.next(), ir.next()) {
            (None, None) => break,
            (x, y) => assert_eq!(x, y),
        }
    }
    assert!(c.eq(&result));
}

#[test]
fn test_slice() {
    let mut a = Array::zeros(vec![3, 4]).unwrap();
    fill_seq(&mut a);

    let vi = a.slice(&vec![si(1, None, 1), si(0, None, 2)]).unwrap();
    assert_eq!(vi.shape(), &vec![2usize, 2]);
    let vi = a.slice(&vec![full(), full()]).unwrap();
    assert_eq!(vi.shape(), a.shape());
    let mut iv = vi.iter();
    let mut ia = a.iter();
    loop {
        match (iv.next(), ia.next()) {
            (None, None) => break,
            (x, y) => assert_eq!(x, y),
        }
    }
}

#[test]
fn test_index() {
    let mut a = Array::zeros(vec![2, 3]).unwrap();
    fill_seq(&mut a);

    let mut ait = a.iter();
    for i in 0..2usize {
        for j in 0..3usize {
            assert_eq!(ait.next().unwrap(), a.get(&vec![i, j]));
        }
    }

    let vi = a.slice(&vec![si(1, None, 1), si(0, None, 2)]).unwrap();
    let mut it = vi.iter();
    for i in 0..1usize {
        for j in 0..2usize {
            let x = it.next().unwrap();
            assert_eq!(x, vi.get(&vec![i, j]));
        }
    }
    assert!(it.next().is_none());
}

#[test]
fn test_add() {
    let mut a = Array::zeros(vec![2, 2]).unwrap();
    fill_seq(&mut a);

    let b = a.clone();
    a.iadd(&b).unwrap();
    assert_eq!(a.get(&vec![0, 0]), 0);
    assert_eq!(a.get(&vec![0, 1]), 2);
    assert_eq!(a.get(&vec![1, 0]), 4);
    assert_eq!(a.get(&vec![1, 1]), 6);
}

#[test]
fn test_multidim() {
    let mut mat = Array::zeros(vec![2 * 3 * 4 * 5 * 6])
        .unwrap()
        .reshape(vec![2, 3, 4, 5, 6])
        .unwrap();
    mat.set(&vec![0, 0, 0, 0, 0], 22);
    fill_seq(&mut mat);
    assert_eq!(mat.shape(), &vec![2usize, 3, 4, 5, 6]);
}

#[test]
fn test_negative_stride_rcarray() {
    let mut mat = Array::zeros(vec![2, 4, 2]).unwrap();
    mat.set(&vec![0, 0, 0], 1);
    fill_seq(&mut mat);

    {
        let vi = mat
            .slice(&vec![full(), si(0, None, -1), si(0, None, -1)])
            .unwrap();
        assert_eq!(vi.shape(), &vec![2usize, 4, 2]);
        // against the expected sequential order
        let seq = [
            7i64, 6, 5, 4, 3, 2, 1, 0, 15, 14, 13, 12, 11, 10, 9, 8,
        ];
        let mut it = vi.clone().iter();
        for expect in seq.iter() {
            assert_eq!(it.next().unwrap(), *expect);
        }
        assert!(it.next().is_none());
    }
    {
        let vi = mat.slice(&vec![full(), si(0, None, -5), full()]).unwrap();
        let seq = [6i64, 7, 14, 15];
        let mut it = vi.iter();
        for expect in seq.iter() {
            assert_eq!(it.next().unwrap(), *expect);
        }
        assert!(it.next().is_none());
    }
}

#[test]
fn test_cow() {
    let mut mat = Array::zeros(vec![2, 2]).unwrap();
    mat.set(&vec![0, 0], 1);
    let n = mat.clone();
    mat.set(&vec![0, 1], 2);
    mat.set(&vec![1, 0], 3);
    mat.set(&vec![1, 1], 4);
    assert_eq!(mat.get(&vec![0, 0]), 1);
    assert_eq!(mat.get(&vec![0, 1]), 2);
    assert_eq!(n.get(&vec![0, 0]), 1);
    assert_eq!(n.get(&vec![0, 1]), 0);
    let mut rev = mat
        .reshape(vec![4])
        .unwrap()
        .slice(&vec![si(0, None, -1)])
        .unwrap();
    assert_eq!(rev.get(&vec![0]), 4);
    assert_eq!(rev.get(&vec![1]), 3);
    assert_eq!(rev.get(&vec![2]), 2);
    assert_eq!(rev.get(&vec![3]), 1);
    let before = rev.clone();
    // mutation
    rev.set(&vec![0], 5);
    assert_eq!(rev.get(&vec![0]), 5);
    assert_eq!(rev.get(&vec![1]), 3);
    assert_eq!(rev.get(&vec![2]), 2);
    assert_eq!(rev.get(&vec![3]), 1);
    assert_eq!(before.get(&vec![0]), 4);
    assert_eq!(before.get(&vec![1]), 3);
    assert_eq!(before.get(&vec![2]), 2);
    assert_eq!(before.get(&vec![3]), 1);
}

#[test]
fn test_sub() {
    let mat = Array::from_vec((0..16).collect::<Vec<i64>>())
        .reshape(vec![2, 4, 2])
        .unwrap();
    let s1 = mat.subview(0, 0);
    let s2 = mat.subview(0, 1);
    assert_eq!(s1.shape(), &vec![4usize, 2]);
    assert_eq!(s2.shape(), &vec![4usize, 2]);
    let n = Array::from_vec((8..16).collect::<Vec<i64>>())
        .reshape(vec![4, 2])
        .unwrap();
    assert!(n.eq(&s2));
    let m = Array::from_vec(vec![2, 3, 10, 11]).reshape(vec![2, 2]).unwrap();
    assert!(m.eq(&mat.subview(1, 1)));
}

#[test]
fn diag() {
    let d = Array::from_vec_dim(vec![1, 3], vec![1, 2, 3]).unwrap().diag();
    assert_eq!(d.shape(), &vec![1usize]);
    let d = Array::from_vec_dim(vec![2, 3], vec![1, 2, 3, 0, 0, 0])
        .unwrap()
        .diag();
    assert_eq!(d.shape(), &vec![2usize]);
    let d = Array::from_vec_dim(vec![0, 0], vec![]).unwrap().diag();
    assert_eq!(d.shape(), &vec![0usize]);
    let d = Array::zeros(vec![]).unwrap().diag();
    assert_eq!(d.shape(), &vec![1usize]);
}

#[test]
fn swapaxes() {
    let mut a = Array::from_vec_dim(vec![2, 2], vec![1, 2, 3, 4]).unwrap();
    let b = Array::from_vec_dim(vec![2, 2], vec![1, 3, 2, 4]).unwrap();
    assert!(!a.eq(&b));
    a.swap_axes(0, 1);
    assert!(a.eq(&b));
    a.swap_axes(1, 1);
    assert!(a.eq(&b));
    assert_eq!(a.raw_data(), vec![1, 2, 3, 4]);
    assert_eq!(b.raw_data(), vec![1, 3, 2, 4]);
}

#[test]
fn standard_layout() {
    let mut a = Array::from_vec_dim(vec![2, 2], vec![1, 2, 3, 4]).unwrap();
    assert!(a.is_standard_layout());
    a.swap_axes(0, 1);
    assert!(!a.is_standard_layout());
    a.swap_axes(0, 1);
    assert!(a.is_standard_layout());
    let x1 = a.subview(0, 0);
    assert!(x1.is_standard_layout());
    let x2 = a.subview(1, 0);
    assert!(!x2.is_standard_layout());
}

#[test]
fn assign() {
    let mut a = Array::from_vec_dim(vec![2, 2], vec![1, 2, 3, 4]).unwrap();
    let b = Array::from_vec_dim(vec![2, 2], vec![1, 3, 2, 4]).unwrap();
    a.assign(&b).unwrap();
    assert!(a.eq(&b));

    // broadcasting
    a.assign(&Array::zeros(vec![1]).unwrap()).unwrap();
    assert!(a.eq(&Array::zeros(vec![2, 2]).unwrap()));
}

#[test]
fn dyn_dimension() {
    let a = Array::from_vec_dim(vec![2, 2], vec![1, 2, 3, 4])
        .unwrap()
        .reshape(vec![2, 2])
        .unwrap();
    assert!(a.sub(&a).unwrap().eq(&Array::zeros(vec![2, 2]).unwrap()));

    let mut dim = vec![1usize; 1024];
    dim[16] = 4;
    dim[17] = 3;
    let z = Array::zeros(dim.clone()).unwrap();
    assert_eq!(z.shape(), &dim);
}

#[test]
fn sum_mean() {
    let a = Array::from_vec_dim(vec![2, 2], vec![1, 2, 3, 4]).unwrap();
    assert!(a.sum(0).unwrap().eq(&Array::from_vec(vec![4, 6])));
    assert!(a.sum(1).unwrap().eq(&Array::from_vec(vec![3, 7])));
    assert!(a.mean(0).unwrap().eq(&Array::from_vec(vec![2, 3])));
    // integer elements: the averages 1.5 and 3.5 truncate towards zero
    assert!(a.mean(1).unwrap().eq(&Array::from_vec(vec![1, 3])));
    let total = a.sum(1).unwrap().sum(0).unwrap();
    assert!(total.eq(&Array::from_vec_dim(vec![], vec![10]).unwrap()));
}

#[test]
fn iter_size_hint() {
    let mut a = Array::from_vec_dim(vec![2, 2], vec![1, 2, 3, 4]).unwrap();
    {
        let mut it = a.iter();
        assert_eq!(it.size_hint(), (4, Some(4)));
        it.next();
        assert_eq!(it.size_hint().0, 3);
        it.next();
        assert_eq!(it.size_hint().0, 2);
        it.next();
        assert_eq!(it.size_hint().0, 1);
        it.next();
        assert_eq!(it.size_hint().0, 0);
        assert!(it.next().is_none());
        assert_eq!(it.size_hint().0, 0);
    }

    a.swap_axes(0, 1);
    {
        let mut it = a.iter();
        assert_eq!(it.size_hint(), (4, Some(4)));
        it.next();
        assert_eq!(it.size_hint().0, 3);
        it.next();
        assert_eq!(it.size_hint().0, 2);
        it.next();
        assert_eq!(it.size_hint().0, 1);
        it.next();
        assert_eq!(it.size_hint().0, 0);
        assert!(it.next().is_none());
        assert_eq!(it.size_hint().0, 0);
    }
}

#[test]
fn zero_axes() {
    let a = Array::from_vec(vec![]);
    let mut it = a.iter();
    assert!(it.next().is_none());
    let b = Array::from_vec_dim(vec![4, 0], vec![]).unwrap();
    assert_eq!(b.shape(), &vec![4usize, 0]);

    // a subview of an empty array still works
    let bsub = b.subview(0, 2);
    assert_eq!(bsub.shape(), &vec![0usize]);
}

#[test]
fn equality() {
    let a = Array::from_vec_dim(vec![2, 2], vec![1, 2, 3, 4]).unwrap();
    let mut b = Array::from_vec_dim(vec![2, 2], vec![1, 2, 2, 4]).unwrap();
    assert!(!a.eq(&b));
    b.set(&vec![1, 0], 3);
    assert!(a.eq(&b));

    // different shapes compare unequal without failure
    let c = Array::from_vec_dim(vec![1, 2], vec![1, 2]).unwrap();
    assert!(!a.eq(&c));
}

#[test]
fn map1() {
    let a = Array::from_vec_dim(vec![2, 2], vec![1, 2, 3, 4]).unwrap();
    let b = a.map(|x| x / 3);
    assert!(b.eq(&Array::from_vec_dim(vec![2, 2], vec![0, 0, 1, 1]).unwrap()));
}

#[test]
fn error_variants() {
    // an element count that cannot fit the index range
    let r = Array::zeros(vec![usize::MAX, usize::MAX]);
    assert_eq!(r.unwrap_err(), ArrayError::TooLarge);
    // reshape with a differing element count
    let a = Array::from_vec(vec![1, 2, 3, 4]);
    assert_eq!(a.reshape(vec![3]).unwrap_err(), ArrayError::ShapeMismatch);
    // slicing with a zero step, and out of range
    assert_eq!(
        a.slice(&vec![si(0, None, 0)]).unwrap_err(),
        ArrayError::ZeroStep
    );
    assert_eq!(
        a.slice(&vec![si(0, Some(9), 1)]).unwrap_err(),
        ArrayError::SliceOutOfRange
    );
    // an assignment that does not broadcast
    let mut b = Array::zeros(vec![2, 2]).unwrap();
    assert_eq!(
        b.assign(&Array::from_vec(vec![1, 2, 3])).unwrap_err(),
        ArrayError::ShapeMismatch
    );
    // elementwise sum of differing shapes
    assert_eq!(
        b.add(&Array::zeros(vec![3]).unwrap()).unwrap_err(),
        ArrayError::ShapeMismatch
    );
}

#[test]
fn slice_reverse_is_exact() {
    // a 1-D array [0,1,2,3] sliced with step -1 yields [3,2,1,0]
    let a = Array::from_vec(vec![0, 1, 2, 3]);
    let r = a.slice(&vec![si(0, None, -1)]).unwrap();
    assert!(r.eq(&Array::from_vec(vec![3, 2, 1, 0])));
}

#[test]
fn swap_axes_twice_is_identity() {
    let mut a = Array::from_vec_dim(vec![2, 3], vec![1, 2, 3, 4, 5, 6]).unwrap();
    let before = a.clone();
    let shape0 = a.shape().clone();
    let strides0 = a.strides().clone();
    a.swap_axes(0, 1);
    a.swap_axes(0, 1);
    assert_eq!(a.shape(), &shape0);
    assert_eq!(a.strides(), &strides0);
    assert!(a.eq(&before));
}

#[test]
fn zeros_are_zero() {
    let a = Array::zeros(vec![3, 2]).unwrap();
    assert_eq!(a.shape(), &vec![3usize, 2]);
    let mut it = a.iter();
    let mut count = 0;
    while let Some(v) = it.next() {
        assert_eq!(v, 0);
        count += 1;
    }
    assert_eq!(count, 6);
}

#[test]
fn iterator_is_exact_in_three_dimensions() {
    let mut a = Array::zeros(vec![2, 3, 2]).unwrap();
    fill_seq(&mut a);
    let mut it = a.iter();
    let mut steps = 0usize;
    loop {
        assert_eq!(it.size_hint(), (12 - steps, Some(12 - steps)));
        match it.next() {
            Some(_) => steps += 1,
            None => break,
        }
    }
    assert_eq!(steps, 12);
    assert!(it.next().is_none());
}

#[test]
fn reshape_of_noncontiguous_copies() {
    let mut a = Array::from_vec_dim(vec![2, 2], vec![1, 2, 3, 4]).unwrap();
    a.swap_axes(0, 1);
    assert!(!a.is_standard_layout());
    let r = a.reshape(vec![4]).unwrap();
    assert!(r.is_standard_layout());
    assert!(r.eq(&Array::from_vec(vec![1, 3, 2, 4])));
}
