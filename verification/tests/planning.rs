use partdl::errors::DownloadError;
use partdl::planner::{plan, ByteRange};

#[test]
fn four_parts_of_one_hundred() {
    let ranges = plan(100, 4).unwrap();
    let expected = vec![
        ByteRange { index: 0, start: 0, end: 24 },
        ByteRange { index: 1, start: 25, end: 49 },
        ByteRange { index: 2, start: 50, end: 74 },
        ByteRange { index: 3, start: 75, end: 99 },
    ];
    assert_eq!(ranges, expected);
}

#[test]
fn four_parts_of_one_hundred_one_last_absorbs_remainder() {
    let ranges = plan(101, 4).unwrap();
    let expected = vec![
        ByteRange { index: 0, start: 0, end: 24 },
        ByteRange { index: 1, start: 25, end: 49 },
        ByteRange { index: 2, start: 50, end: 74 },
        ByteRange { index: 3, start: 75, end: 100 },
    ];
    assert_eq!(ranges, expected);
}

#[test]
fn one_part_spans_the_whole_resource() {
    let ranges = plan(12345, 1).unwrap();
    assert_eq!(ranges.len(), 1);
    assert_eq!(ranges[0], ByteRange { index: 0, start: 0, end: 12344 });
}

#[test]
fn ranges_partition_the_resource() {
    // every offset lies in exactly one range, and the ranges stand in
    // ascending, contiguous index order
    for (total, parts) in [(10u64, 3usize), (100, 7), (97, 4), (5, 5), (1, 1)] {
        let ranges = plan(total, parts).unwrap();
        for (i, r) in ranges.iter().enumerate() {
            assert_eq!(r.index, i);
            assert!(r.start <= r.end);
        }
        assert_eq!(ranges[0].start, 0);
        assert_eq!(ranges[ranges.len() - 1].end, total - 1);
        for w in ranges.windows(2) {
            assert_eq!(w[0].end + 1, w[1].start);
        }
        for off in 0..total {
            let holders = ranges.iter().filter(|r| r.start <= off && off <= r.end).count();
            assert_eq!(holders, 1);
        }
        // every part but the last has the common chunk size; the last
        // absorbs the remainder, never shrinking below the chunk size
        let chunk_size = total / ranges.len() as u64;
        for r in &ranges[..ranges.len() - 1] {
            assert_eq!(r.end + 1 - r.start, chunk_size);
        }
        let last = &ranges[ranges.len() - 1];
        let last_len = last.end + 1 - last.start;
        assert!(chunk_size <= last_len && last_len < chunk_size + parts as u64);
    }
}

#[test]
fn part_count_above_total_size_is_clamped() {
    let ranges = plan(3, 10).unwrap();
    assert_eq!(ranges.len(), 3);
    for (i, r) in ranges.iter().enumerate() {
        assert_eq!(r.start, i as u64);
        assert_eq!(r.end, i as u64);
    }
}

#[test]
fn zero_total_size_is_invalid_input() {
    // rejected before any range is computed: plan is pure and never
    // touches the network
    assert_eq!(plan(0, 4), Err(DownloadError::InvalidInput));
}

#[test]
fn zero_part_count_is_invalid_input() {
    assert_eq!(plan(100, 0), Err(DownloadError::InvalidInput));
}
