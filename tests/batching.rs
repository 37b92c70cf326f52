use swiftide_rag::batch::{attach_vectors, filter_errors, into_batches, BatchError};

#[test]
fn batches_are_full_but_the_last() {
    let batches = into_batches(vec![1, 2, 3, 4, 5], 2);
    assert_eq!(batches, vec![vec![1, 2], vec![3, 4], vec![5]]);
    let exact = into_batches(vec![1, 2, 3, 4], 2);
    assert_eq!(exact, vec![vec![1, 2], vec![3, 4]]);
    let none: Vec<Vec<u8>> = into_batches(Vec::new(), 3);
    assert!(none.is_empty());
    assert_eq!(into_batches(vec![7], 100), vec![vec![7]]);
}

#[test]
fn vectors_pair_with_units_in_order() {
    let r = attach_vectors(vec!["a", "b", "c"], Ok::<_, ()>(vec![vec![0.5f32], vec![1.5], vec![2.5]]));
    assert_eq!(r.len(), 3);
    let pairs: Vec<(&str, f32)> = r.into_iter().map(|e| {
        let e = e.unwrap();
        (e.unit, e.vector[0])
    }).collect();
    assert_eq!(pairs, vec![("a", 0.5), ("b", 1.5), ("c", 2.5)]);
}

#[test]
fn failed_call_fails_whole_batch() {
    let r = attach_vectors(vec![1, 2, 3], Err::<Vec<u8>, &str>("timeout"));
    assert_eq!(r.len(), 3);
    assert!(r.iter().all(|e| matches!(e, Err(BatchError::CallFailed))));
}

#[test]
fn wrong_vector_count_fails_whole_batch() {
    let r = attach_vectors(vec![1, 2, 3], Ok::<_, ()>(vec![10u8, 20]));
    assert_eq!(r.len(), 3);
    assert!(r.iter().all(|e| matches!(e, Err(BatchError::WrongCount))));
}

#[test]
fn error_sink_forwards_successes_and_counts_failures() {
    let outcomes: Vec<Result<u8, &str>> = vec![Ok(1), Err("x"), Ok(2), Err("y"), Err("z")];
    let (oks, errors) = filter_errors(outcomes);
    assert_eq!(oks, vec![1, 2]);
    assert_eq!(errors, 3);
}
