use symmetrica::number_theory::partitions::{generate_partitions, partition_count, partition_count_distinct, partition_count_k_parts, partition_count_odd_parts};


#[test]
fn test_partition_count_small() {
    assert_eq!(partition_count(0), 1); // Empty partition
    assert_eq!(partition_count(1), 1); // {1}
    assert_eq!(partition_count(2), 2); // {2}, {1,1}
    assert_eq!(partition_count(3), 3); // {3}, {2,1}, {1,1,1}
    assert_eq!(partition_count(4), 5); // {4}, {3,1}, {2,2}, {2,1,1}, {1,1,1,1}
    assert_eq!(partition_count(5), 7);
}

#[test]
fn test_partition_count_larger() {
    assert_eq!(partition_count(10), 42);
    assert_eq!(partition_count(15), 176);
    assert_eq!(partition_count(20), 627);
}

#[test]
fn test_generate_partitions_small() {
    let partitions = generate_partitions(4);
    assert_eq!(partitions.len(), 5);
    assert!(partitions.contains(&vec![4]));
    assert!(partitions.contains(&vec![3, 1]));
    assert!(partitions.contains(&vec![2, 2]));
    assert!(partitions.contains(&vec![2, 1, 1]));
    assert!(partitions.contains(&vec![1, 1, 1, 1]));
}

#[test]
fn test_generate_partitions_verify_count() {
    for n in 1..=7 {
        let partitions = generate_partitions(n);
        assert_eq!(partitions.len() as u64, partition_count(n));
    }
}

#[test]
fn test_partition_count_k_parts() {
    // p(5, 2) = 2: {4,1}, {3,2}
    assert_eq!(partition_count_k_parts(5, 2), 2);

    // p(6, 3) = 3: {4,1,1}, {3,2,1}, {2,2,2}
    assert_eq!(partition_count_k_parts(6, 3), 3);

    // p(n, 1) = 1 for all n > 0
    assert_eq!(partition_count_k_parts(10, 1), 1);

    // p(n, n) = 1 for all n > 0 (all 1's)
    assert_eq!(partition_count_k_parts(5, 5), 1);
}

#[test]
fn test_partition_count_distinct() {
    // Partitions of 5 into distinct parts: {5}, {4,1}, {3,2}
    assert_eq!(partition_count_distinct(5), 3);

    // Partitions of 6 into distinct parts: {6}, {5,1}, {4,2}, {3,2,1}
    assert_eq!(partition_count_distinct(6), 4);

    assert_eq!(partition_count_distinct(10), 10);
}

#[test]
fn test_partition_count_odd_parts() {
    // Partitions of 5 into odd parts: {5}, {3,1,1}, {1,1,1,1,1}
    assert_eq!(partition_count_odd_parts(5), 3);

    // Partitions of 6 into odd parts: {5,1}, {3,3}, {3,1,1,1}, {1,1,1,1,1,1}
    assert_eq!(partition_count_odd_parts(6), 4);
}

#[test]
fn test_euler_theorem() {
    // Euler's theorem: number of partitions into distinct parts
    // equals number of partitions into odd parts
    for n in 1..=15 {
        assert_eq!(
            partition_count_distinct(n),
            partition_count_odd_parts(n),
            "Euler's theorem failed for n={}",
            n
        );
    }
}

