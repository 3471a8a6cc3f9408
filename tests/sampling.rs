use graph_distances::sampling::{select_random_sample, select_sample_at, SampleError};

#[test]
fn test_select_random_sample() {
    let nodes = vec![1, 2, 3, 4, 5];
    let result = select_random_sample(&nodes, 3).unwrap();
    assert_eq!(result.len(), 3);
}

#[test]
fn sample_is_distinct_members() {
    let nodes: Vec<usize> = (0..50).map(|i| i * 3).collect();
    for k in [0usize, 1, 7, 49, 50] {
        let sample = select_random_sample(&nodes, k).unwrap();
        assert_eq!(sample.len(), k);
        for (i, a) in sample.iter().enumerate() {
            assert!(nodes.contains(a));
            for b in &sample[i + 1..] {
                assert_ne!(a, b);
            }
        }
    }
}

#[test]
fn sample_larger_than_population_fails() {
    let nodes = vec![0, 1, 2];
    assert_eq!(select_random_sample(&nodes, 4), Err(SampleError::InsufficientPopulation));
}

#[test]
fn sample_at_given_positions() {
    let nodes = vec![10, 20, 30, 40];
    assert_eq!(select_sample_at(&nodes, &vec![3, 0, 2]), vec![40, 10, 30]);
    assert_eq!(select_sample_at(&nodes, &vec![]), Vec::<usize>::new());
}
