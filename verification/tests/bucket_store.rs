use code_optimizer::bucket_store::{
    choose_backend, choose_backend_with_threshold, BackendKind, Bucket, BucketStore, FullBucket, SPARSE_THRESHOLD,
};

#[test]
fn choose_backend_threshold_boundary() {
    assert_eq!(choose_backend(SPARSE_THRESHOLD), BackendKind::Dense);
    assert_eq!(choose_backend(SPARSE_THRESHOLD + 1), BackendKind::Sparse);
    let code_base = 32usize;
    assert_eq!(choose_backend(code_base.pow(4)), BackendKind::Dense);
    assert_eq!(choose_backend(code_base.pow(5)), BackendKind::Sparse);
}

#[test]
fn prop1_empty_bucket_semantics_both_backends() {
    for &threshold in &[0usize, usize::MAX] {
        let mut s: BucketStore<FullBucket> = BucketStore::new_with_threshold(16, threshold);
        assert!(s.get(3).is_none());
        s.get_mut_or_insert(3).members.push(7);
        assert!(s.get(3).is_some());
        s.remove(3);
        assert!(s.get(3).is_none());
    }
}

#[test]
fn prop2_sparse_bounded_no_empty_residue() {
    let cap = 64usize;
    let mut sparse: BucketStore<FullBucket> = BucketStore::new_with_threshold(cap, 0);
    assert_eq!(sparse.backend_kind(), BackendKind::Sparse);
    for code in 0..20u32 {
        sparse.get_mut_or_insert(code).members.push(code);
    }
    for code in 0..8u32 {
        let b = sparse.get_mut(code).unwrap();
        b.members.clear();
        if b.is_empty() {
            sparse.remove(code);
        }
    }
    assert_eq!(sparse.nonempty_count(), 12);
    assert!(sparse.nonempty_count() <= 20);
}

#[test]
fn prop3_dense_sparse_observable_equivalence() {
    let cap = 128usize;
    let mut dense: BucketStore<FullBucket> = BucketStore::new_with_threshold(cap, usize::MAX);
    let mut sparse: BucketStore<FullBucket> = BucketStore::new_with_threshold(cap, 0);
    assert_eq!(dense.backend_kind(), BackendKind::Dense);
    assert_eq!(sparse.backend_kind(), BackendKind::Sparse);

    let ops: &[(u32, u64)] = &[(5, 10), (5, 20), (9, 3), (40, 100), (5, 0), (9, 7), (127, 1), (40, 2)];
    for &(code, v) in ops {
        for st in [&mut dense, &mut sparse] {
            let b = st.get_mut_or_insert(code);
            b.members.push(v as u32);
            b.freq_sum += v;
        }
    }
    for st in [&mut dense, &mut sparse] {
        let b = st.get_mut(9).unwrap();
        b.members.clear();
        b.freq_sum = 0;
        st.remove(9);
    }

    let mut d: Vec<(u32, Vec<u32>, u64)> =
        dense.iter_nonempty().into_iter().map(|(c, b)| (c, b.members.clone(), b.freq_sum)).collect();
    let mut s: Vec<(u32, Vec<u32>, u64)> =
        sparse.iter_nonempty().into_iter().map(|(c, b)| (c, b.members.clone(), b.freq_sum)).collect();
    d.sort_by_key(|t| t.0);
    s.sort_by_key(|t| t.0);
    assert_eq!(d, s);
    assert_eq!(dense.nonempty_count(), sparse.nonempty_count());
}

#[test]
fn full_bucket_default_is_empty_sentinel() {
    let b = FullBucket::default();
    assert!(b.is_empty());
    assert_eq!(b.first, u32::MAX);
    assert_eq!(b.freq_sum, 0);
    assert_eq!(b.max_freq, 0);
}

#[test]
fn backend_follows_threshold() {
    assert_eq!(choose_backend_with_threshold(7, 7), BackendKind::Dense);
    assert_eq!(choose_backend_with_threshold(8, 7), BackendKind::Sparse);
}

#[test]
fn a_function_is_called_on_every_bucket_and_on_nothing_else() {
    for &threshold in &[0usize, usize::MAX] {
        let mut s: BucketStore<FullBucket> = BucketStore::new_with_threshold(64, threshold);
        let seen: std::cell::RefCell<Vec<(u32, Vec<u32>)>> = std::cell::RefCell::new(Vec::new());
        s.for_each_nonempty(|code, b| seen.borrow_mut().push((code, b.members.clone())));
        assert!(seen.borrow().is_empty());
        for code in [40u32, 3, 17, 3] {
            s.get_mut_or_insert(code).members.push(code + 1);
        }
        s.remove(17);
        s.for_each_nonempty(|code, b| seen.borrow_mut().push((code, b.members.clone())));
        let mut calls = seen.borrow().clone();
        calls.sort();
        assert_eq!(calls, vec![(3, vec![4, 4]), (40, vec![41])]);
    }
}
