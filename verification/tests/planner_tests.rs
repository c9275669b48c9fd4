use reduce::plan_partitions;
use reduce::resolve_parallelism;
use reduce::Partition;
use reduce::DEFAULT_PARALLELISM;

#[test]
fn resolve_uses_queried_value() {
    assert_eq!(resolve_parallelism(Some(8), DEFAULT_PARALLELISM), 8);
    assert_eq!(resolve_parallelism(Some(1), DEFAULT_PARALLELISM), 1);
}

#[test]
fn resolve_falls_back_when_unknown() {
    assert_eq!(resolve_parallelism(None, DEFAULT_PARALLELISM), 16);
    assert_eq!(resolve_parallelism(None, 3), 3);
}

#[test]
fn resolve_falls_back_on_zero() {
    assert_eq!(resolve_parallelism(Some(0), DEFAULT_PARALLELISM), 16);
}

#[test]
fn plan_seven_elements_four_workers() {
    let parts = plan_partitions(7, 4);
    assert_eq!(
        parts,
        vec![
            Partition { start: 0, end: 2 },
            Partition { start: 2, end: 4 },
            Partition { start: 4, end: 6 },
            Partition { start: 6, end: 7 },
        ]
    );
}

#[test]
fn plan_empty_sequence() {
    let parts = plan_partitions(0, 3);
    assert_eq!(
        parts,
        vec![
            Partition { start: 0, end: 0 },
            Partition { start: 0, end: 0 },
            Partition { start: 0, end: 0 },
        ]
    );
}

#[test]
fn plan_fewer_elements_than_workers() {
    let parts = plan_partitions(2, 5);
    assert_eq!(parts.len(), 5);
    assert_eq!(parts[0], Partition { start: 0, end: 1 });
    assert_eq!(parts[1], Partition { start: 1, end: 2 });
    for i in 2..5 {
        assert_eq!(parts[i].start, 2);
        assert_eq!(parts[i].end, 2);
    }
}

#[test]
fn plan_is_deterministic() {
    for &(n, p) in &[(0, 1), (7, 4), (100, 16), (5, 5), (3, 8)] {
        assert_eq!(plan_partitions(n, p), plan_partitions(n, p));
    }
}

#[test]
fn plan_covers_each_index_exactly_once() {
    for &(n, p) in &[(7usize, 4usize), (0, 2), (10, 3), (100, 16), (4, 9)] {
        let parts = plan_partitions(n, p);
        assert_eq!(parts.len(), p);
        for k in 0..n {
            let owners = parts
                .iter()
                .filter(|part| part.start <= k && k < part.end)
                .count();
            assert_eq!(owners, 1);
        }
        for part in &parts {
            assert!(part.start <= part.end && part.end <= n);
        }
    }
}

#[test]
fn plan_sizes_differ_by_at_most_one() {
    for &(n, p) in &[(7usize, 4usize), (10, 3), (100, 16), (2, 5)] {
        let parts = plan_partitions(n, p);
        let min = parts.iter().map(|part| part.end - part.start).min().unwrap();
        let max = parts.iter().map(|part| part.end - part.start).max().unwrap();
        assert!(max - min <= 1);
    }
}

#[test]
fn plan_ten_elements_three_workers() {
    let parts = plan_partitions(10, 3);
    let sizes: Vec<usize> = parts.iter().map(|part| part.end - part.start).collect();
    assert_eq!(sizes, vec![4, 3, 3]);
}
