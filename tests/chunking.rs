use flockcore::dispatch::{chunk_bounds, CHUNK_SIZE};

#[test]
fn chunks_of_a_thousand() {
    assert_eq!(chunk_bounds(1000, 512), vec![(0, 512), (512, 1000)]);
    assert_eq!(chunk_bounds(1024, 512), vec![(0, 512), (512, 1024)]);
    assert_eq!(chunk_bounds(3, 1), vec![(0, 1), (1, 2), (2, 3)]);
}

#[test]
fn no_agents_no_chunks() {
    assert!(chunk_bounds(0, CHUNK_SIZE).is_empty());
}

#[test]
fn every_slot_is_written_exactly_once_for_any_chunk_size() {
    for count in [0usize, 1, 511, 512, 513, 10_000] {
        for size in [1usize, 7, 256, 512, 4096, 20_000] {
            let mut hits = vec![0u32; count];
            for (start, end) in chunk_bounds(count, size) {
                assert!(start < end && end - start <= size);
                for i in start..end {
                    hits[i] += 1;
                }
            }
            assert!(hits.iter().all(|&h| h == 1));
        }
    }
}
