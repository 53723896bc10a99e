use partdl::assembler::assemble;
use partdl::chunk::ChunkResult;
use partdl::errors::{ChunkFailure, DownloadError, FetchFailure};
use partdl::orchestrator::{aggregate, finish};
use partdl::planner::plan;

fn resource(len: u64) -> Vec<u8> {
    (0..len).map(|i| (i % 251) as u8).collect()
}

fn slice_chunks(data: &[u8], total: u64, parts: usize) -> Vec<ChunkResult> {
    plan(total, parts)
        .unwrap()
        .iter()
        .map(|r| ChunkResult::Payload {
            index: r.index,
            bytes: data[r.start as usize..=r.end as usize].to_vec(),
        })
        .collect()
}

#[test]
fn round_trip_reproduces_the_resource() {
    // concatenating the chunk payloads in index order gives back the
    // resource byte for byte, for several partitionings
    for (total, parts) in [(101u64, 4usize), (100, 4), (97, 3), (10, 10), (1, 1), (1000, 7)] {
        let data = resource(total);
        let results = slice_chunks(&data, total, parts);
        let bytes = finish(&results).unwrap();
        assert_eq!(bytes, data);
    }
}

#[test]
fn reassembly_order_is_index_order_not_completion_order() {
    // all fetches succeed but the results stand in reverse completion
    // order; the output is still ordered by range index
    let data = resource(101);
    let mut results = slice_chunks(&data, 101, 4);
    results.reverse();
    let bytes = finish(&results).unwrap();
    assert_eq!(bytes, data);
}

#[test]
fn one_failed_chunk_fails_the_whole_download() {
    let data = resource(100);
    let mut results = slice_chunks(&data, 100, 4);
    results[2] = ChunkResult::Failed { index: 2, reason: FetchFailure::BadStatus(503) };
    let err = finish(&results).unwrap_err();
    let expected = vec![ChunkFailure { index: 2, reason: FetchFailure::BadStatus(503) }];
    assert_eq!(err, DownloadError::DownloadFailed(expected));
}

#[test]
fn every_failed_chunk_is_reported() {
    let data = resource(100);
    let mut results = slice_chunks(&data, 100, 4);
    results[1] = ChunkResult::Failed { index: 1, reason: FetchFailure::Transport };
    results[3] = ChunkResult::Failed { index: 3, reason: FetchFailure::PayloadRead };
    match aggregate(&results).unwrap_err() {
        DownloadError::DownloadFailed(failures) => {
            assert_eq!(
                failures,
                vec![
                    ChunkFailure { index: 1, reason: FetchFailure::Transport },
                    ChunkFailure { index: 3, reason: FetchFailure::PayloadRead },
                ]
            );
        }
        other => panic!("expected DownloadFailed, got {:?}", other),
    }
}

#[test]
fn aggregate_orders_payloads_by_index() {
    let results = vec![
        ChunkResult::Payload { index: 2, bytes: vec![5, 6] },
        ChunkResult::Payload { index: 0, bytes: vec![1, 2] },
        ChunkResult::Payload { index: 1, bytes: vec![3, 4] },
    ];
    let payloads = aggregate(&results).unwrap();
    assert_eq!(payloads, vec![vec![1, 2], vec![3, 4], vec![5, 6]]);
}

#[test]
fn assemble_concatenates_in_order() {
    let payloads = vec![vec![1u8, 2], vec![], vec![3, 4, 5]];
    assert_eq!(assemble(&payloads), vec![1, 2, 3, 4, 5]);
}

#[test]
fn assemble_of_nothing_is_empty() {
    let payloads: Vec<Vec<u8>> = Vec::new();
    assert_eq!(assemble(&payloads), Vec::<u8>::new());
}
