use colliding_particles::partition::{partition, Chunk};

fn check_cover(n: usize, w: usize) {
    let chunks = partition(n, w);
    let size = (n + w - 1) / w;
    let mut seen = vec![0usize; n];
    let mut next = 0usize;
    for c in &chunks {
        assert_eq!(c.start, next);
        assert!(c.start < c.end);
        assert!(c.end - c.start <= size);
        for i in c.start..c.end {
            seen[i] += 1;
        }
        next = c.end;
    }
    assert_eq!(next, n);
    assert!(seen.iter().all(|&count| count == 1));
    assert!(chunks.len() <= w);
    if n == 0 {
        assert!(chunks.is_empty());
    } else {
        assert_eq!(chunks.len(), (n + size - 1) / size);
        for c in &chunks[..chunks.len() - 1] {
            assert_eq!(c.end - c.start, size);
        }
    }
}

#[test]
fn partition_covers_each_index_once() {
    for &n in &[0usize, 1, 7, 100] {
        for &w in &[1usize, 3, 4] {
            check_cover(n, w);
        }
    }
}

#[test]
fn partition_covers_small_ranges_for_all_worker_counts() {
    for n in 0..60usize {
        for w in 1..12usize {
            check_cover(n, w);
        }
    }
}

#[test]
fn partition_of_seven_among_three() {
    assert_eq!(
        partition(7, 3),
        vec![
            Chunk { start: 0, end: 3 },
            Chunk { start: 3, end: 6 },
            Chunk { start: 6, end: 7 },
        ]
    );
}

#[test]
fn partition_of_a_hundred_among_four() {
    assert_eq!(
        partition(100, 4),
        vec![
            Chunk { start: 0, end: 25 },
            Chunk { start: 25, end: 50 },
            Chunk { start: 50, end: 75 },
            Chunk { start: 75, end: 100 },
        ]
    );
}

#[test]
fn partition_of_a_hundred_among_three() {
    assert_eq!(
        partition(100, 3),
        vec![
            Chunk { start: 0, end: 34 },
            Chunk { start: 34, end: 68 },
            Chunk { start: 68, end: 100 },
        ]
    );
}

#[test]
fn partition_for_one_worker_is_one_chunk() {
    assert_eq!(partition(100, 1), vec![Chunk { start: 0, end: 100 }]);
    assert_eq!(partition(1, 1), vec![Chunk { start: 0, end: 1 }]);
}

#[test]
fn partition_of_nothing_is_empty() {
    assert!(partition(0, 1).is_empty());
    assert!(partition(0, 4).is_empty());
}

#[test]
fn partition_with_more_workers_than_items() {
    assert_eq!(partition(1, 4), vec![Chunk { start: 0, end: 1 }]);
    assert_eq!(
        partition(3, 8),
        vec![
            Chunk { start: 0, end: 1 },
            Chunk { start: 1, end: 2 },
            Chunk { start: 2, end: 3 },
        ]
    );
}

#[test]
fn partition_may_use_fewer_chunks_than_workers() {
    // Five items among four workers: chunks of two, so three chunks.
    assert_eq!(
        partition(5, 4),
        vec![
            Chunk { start: 0, end: 2 },
            Chunk { start: 2, end: 4 },
            Chunk { start: 4, end: 5 },
        ]
    );
}

#[test]
fn partition_of_the_largest_range() {
    let chunks = partition(usize::MAX, 2);
    let half = usize::MAX / 2 + 1;
    assert_eq!(
        chunks,
        vec![Chunk { start: 0, end: half }, Chunk { start: half, end: usize::MAX }]
    );
}
