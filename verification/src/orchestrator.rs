use vstd::prelude::*;
use vstd::set_lib::{set_int_range, lemma_int_range};
use crate::assembler::{assemble, concat_all, lemma_round_trip};
use crate::chunk::{ChunkResult, failures_of, lemma_no_failures};
use crate::errors::{ChunkFailure, DownloadError};
use crate::planner::{ByteRange, is_planned};

verus! {

/// The part indices of the results, in the order the results stand.
pub open spec fn indices_of(results: Seq<ChunkResult>) -> Seq<int> {
    results.map_values(|r: ChunkResult| r.part_index() as int)
}

/// Exactly one result stands for every part: each result's index is below
/// the count of results, and no two results share an index.
pub open spec fn one_result_per_part(results: Seq<ChunkResult>) -> bool {
    &&& forall|k: int|
        0 <= k < results.len() ==> (#[trigger] results[k]).part_index() < results.len()
    &&& forall|k: int, l: int|
        0 <= k < l < results.len() ==> (#[trigger] results[k].part_index())
            != (#[trigger] results[l].part_index())
}

/// `n` distinct values below `n` cover every value below `n`.
proof fn lemma_distinct_indices_cover(s: Seq<int>, n: int)
    requires
        s.len() == n,
        forall|k: int| 0 <= k < n ==> 0 <= #[trigger] s[k] < n,
        s.no_duplicates(),
    ensures
        forall|i: int| 0 <= i < n ==> #[trigger] s.contains(i),
{
    s.unique_seq_to_set();
    lemma_int_range(0, n);
    assert forall|x: int| s.to_set().contains(x) implies set_int_range(0, n).contains(x) by {
        assert(s.contains(x));
        let k = choose|k: int| 0 <= k < s.len() && s[k] == x;
        assert(0 <= s[k] < n);
    }
    assert(s.to_set().subset_of(set_int_range(0, n)));
    assert forall|i: int| 0 <= i < n implies #[trigger] s.contains(i) by {
        if !s.to_set().contains(i) {
            s.to_set().lemma_subset_not_in_lt(set_int_range(0, n), i);
        }
        assert(s.to_set().contains(i));
    }
}

/// With one result per part, every part index below the count occurs among
/// the results.
pub proof fn lemma_parts_covered(results: Seq<ChunkResult>)
    requires
        one_result_per_part(results),
    ensures
        forall|i: int| 0 <= i < results.len() ==> #[trigger] indices_of(results).contains(i),
{
    let n = results.len() as int;
    let idxs = indices_of(results);
    assert forall|k: int| 0 <= k < n implies 0 <= #[trigger] idxs[k] < n by {
        assert(idxs[k] == results[k].part_index() as int);
    }
    assert forall|k: int, l: int|
        0 <= k < idxs.len() && 0 <= l < idxs.len() && k != l implies idxs[k] != idxs[l] by {
        assert(idxs[k] == results[k].part_index() as int);
        assert(idxs[l] == results[l].part_index() as int);
        if k < l {
            assert(results[k].part_index() != results[l].part_index());
        } else {
            assert(results[l].part_index() != results[k].part_index());
        }
    }
    assert(idxs.no_duplicates());
    lemma_distinct_indices_cover(idxs, n);
}

/// The payload of the result whose part index is `i`.
pub open spec fn payload_for(results: Seq<ChunkResult>, i: int) -> Seq<u8> {
    let k = choose|k: int|
        0 <= k < results.len() && (#[trigger] results[k]).part_index() as int == i;
    results[k].payload()
}

/// The payloads of the results, arranged in ascending part-index order.
pub open spec fn ordered_payloads(results: Seq<ChunkResult>) -> Seq<Seq<u8>> {
    Seq::new(results.len(), |i: int| payload_for(results, i))
}

/// Copy the bytes of a borrowed payload into an owned vector.
fn copy_bytes(src: &Vec<u8>) -> (r: Vec<u8>)
    ensures
        r@ == src@,
{
    let mut out: Vec<u8> = Vec::new();
    let len = src.len();
    for k in 0..len
        invariant
            len == src@.len(),
            out@ == src@.take(k as int),
    {
        out.push(src[k]);
        proof {
            assert(out@ =~= src@.take(k as int + 1));
        }
    }
    proof {
        assert(src@.take(len as int) =~= src@);
    }
    out
}

/// Decide the outcome of one fan-out from the collected chunk results.
/// If any chunk failed, the whole download failed: the error lists exactly
/// the failed chunks, in the order the results stand, and every payload is
/// discarded. If every chunk succeeded, the payloads are handed back in
/// ascending range-index order, whatever order the fetches completed in.
pub fn aggregate(results: &Vec<ChunkResult>) -> (r: Result<Vec<Vec<u8>>, DownloadError>)
    requires
        one_result_per_part(results@),
    ensures
        r is Err <==> failures_of(results@).len() > 0,
        r matches Err(e) ==> (e matches DownloadError::DownloadFailed(fs) && fs@ == failures_of(
            results@,
        )),
        r matches Ok(payloads) ==> {
            &&& payloads@.len() == results@.len()
            &&& forall|k: int| 0 <= k < results@.len() ==> (#[trigger] results@[k]).is_payload()
            &&& forall|k: int|
                0 <= k < results@.len() ==> payloads@[(#[trigger] results@[k]).part_index() as int]@
                    == results@[k].payload()
        },
{
    let n = results.len();
    let mut failures: Vec<ChunkFailure> = Vec::new();
    for k in 0..n
        invariant
            n == results@.len(),
            failures@ == failures_of(results@.take(k as int)),
    {
        match &results[k] {
            ChunkResult::Failed { index, reason } => {
                failures.push(ChunkFailure { index: *index, reason: *reason });
            },
            ChunkResult::Payload { .. } => {},
        }
        proof {
            assert(results@.take(k as int + 1).drop_last() =~= results@.take(k as int));
            assert(results@.take(k as int + 1).last() == results@[k as int]);
            assert(failures@ =~= failures_of(results@.take(k as int + 1)));
        }
    }
    proof {
        assert(results@.take(n as int) =~= results@);
    }
    if failures.len() > 0 {
        return Err(DownloadError::DownloadFailed(failures));
    }
    proof {
        lemma_no_failures(results@);
        lemma_parts_covered(results@);
    }
    let mut out: Vec<Vec<u8>> = Vec::new();
    for i in 0..n
        invariant
            n == results@.len(),
            one_result_per_part(results@),
            forall|k: int| 0 <= k < n as int ==> (#[trigger] results@[k]).is_payload(),
            forall|i2: int| 0 <= i2 < n as int ==> #[trigger] indices_of(results@).contains(i2),
            out@.len() == i,
            forall|k: int|
                0 <= k < n as int && (#[trigger] results@[k]).part_index() < i
                    ==> out@[results@[k].part_index() as int]@ == results@[k].payload(),
    {
        let mut k: usize = 0;
        let mut bytes_i: Vec<u8> = Vec::new();
        let mut found: bool = false;
        while k < n && !found
            invariant
                n == results@.len(),
                k <= n,
                i < n,
                forall|i2: int| 0 <= i2 < n as int ==> #[trigger] indices_of(results@).contains(
                    i2,
                ),
                forall|kk: int| 0 <= kk < n as int ==> (#[trigger] results@[kk]).is_payload(),
                !found ==> forall|kk: int|
                    0 <= kk < k as int ==> (#[trigger] results@[kk]).part_index() != i,
                found ==> exists|kk: int|
                    0 <= kk < n as int && (#[trigger] results@[kk]).part_index() == i && bytes_i@
                        == results@[kk].payload(),
            decreases n - k + (if found { 0int } else { 1int }),
        {
            match &results[k] {
                ChunkResult::Payload { index, bytes } => {
                    if *index == i {
                        bytes_i = copy_bytes(bytes);
                        found = true;
                        proof {
                            assert(results@[k as int].part_index() == i);
                            assert(bytes_i@ == results@[k as int].payload());
                        }
                    } else {
                        k = k + 1;
                    }
                },
                ChunkResult::Failed { .. } => {
                    proof {
                        assert(results@[k as int].is_payload());
                        assert(false);
                    }
                },
            }
        }
        proof {
            if !found {
                assert(indices_of(results@).contains(i as int));
                let kk = choose|kk: int|
                    0 <= kk < indices_of(results@).len() && indices_of(results@)[kk] == i as int;
                assert(results@[kk].part_index() == i);
                assert(false);
            }
        }
        let ghost pre_out = out@;
        out.push(bytes_i);
        proof {
            let kk = choose|kk: int|
                0 <= kk < n as int && (#[trigger] results@[kk]).part_index() == i && bytes_i@
                    == results@[kk].payload();
            assert forall|k2: int|
                0 <= k2 < n as int && (#[trigger] results@[k2]).part_index() < i + 1
                    implies out@[results@[k2].part_index() as int]@ == results@[k2].payload() by {
                if results@[k2].part_index() == i {
                    if k2 != kk {
                        if k2 < kk {
                            assert(results@[k2].part_index() != results@[kk].part_index());
                        } else {
                            assert(results@[kk].part_index() != results@[k2].part_index());
                        }
                    }
                    assert(out@[i as int]@ == bytes_i@);
                } else {
                    assert(results@[k2].part_index() < i);
                    assert(out@[results@[k2].part_index() as int]
                        == pre_out[results@[k2].part_index() as int]);
                }
            }
        }
    }
    Ok(out)
}

/// The whole post-barrier decision of one download. If any chunk failed, the
/// download failed with exactly those failures and every payload is
/// discarded. If every chunk succeeded, the assembled artifact is the
/// payloads concatenated in ascending part-index order, whatever order the
/// fetches completed in.
pub fn finish(results: &Vec<ChunkResult>) -> (r: Result<Vec<u8>, DownloadError>)
    requires
        one_result_per_part(results@),
    ensures
        r is Err <==> failures_of(results@).len() > 0,
        r matches Err(e) ==> (e matches DownloadError::DownloadFailed(fs) && fs@ == failures_of(
            results@,
        )),
        r matches Ok(bytes) ==> bytes@ == concat_all(ordered_payloads(results@)),
{
    match aggregate(results) {
        Err(e) => Err(e),
        Ok(payloads) => {
            proof {
                lemma_parts_covered(results@);
                let n = results@.len() as int;
                assert forall|i: int|
                    0 <= i < n implies payloads.deep_view()[i] == ordered_payloads(results@)[i] by {
                    assert(indices_of(results@).contains(i));
                    let kw = choose|kw: int|
                        0 <= kw < indices_of(results@).len() && indices_of(results@)[kw] == i;
                    assert(indices_of(results@)[kw] == results@[kw].part_index() as int);
                    assert(payloads@[i]@ == results@[kw].payload());
                    assert(0 <= kw < results@.len() && (#[trigger] results@[kw]).part_index() as int
                        == i);
                    let k0 = choose|k: int|
                        0 <= k < results@.len() && (#[trigger] results@[k]).part_index() as int
                            == i;
                    assert(0 <= k0 < results@.len() && results@[k0].part_index() as int == i);
                    if k0 != kw {
                        if k0 < kw {
                            assert(results@[k0].part_index() != results@[kw].part_index());
                        } else {
                            assert(results@[kw].part_index() != results@[k0].part_index());
                        }
                    }
                    assert(ordered_payloads(results@)[i] == results@[k0].payload());
                    assert(payloads.deep_view()[i] == payloads@[i]@);
                }
                assert(payloads.deep_view() =~= ordered_payloads(results@));
            }
            Ok(assemble(&payloads))
        },
    }
}

/// A whole download round-trips. If every result carries exactly the bytes
/// of its planned range, then the payloads in ascending part-index order
/// concatenate to the resource byte for byte — in whatever order the
/// results stand, for any partitioning the planner produced.
pub proof fn lemma_download_round_trip(
    data: Seq<u8>,
    ranges: Seq<ByteRange>,
    results: Seq<ChunkResult>,
    total_size: u64,
    part_count: usize,
)
    requires
        total_size > 0,
        part_count > 0,
        is_planned(ranges, total_size, part_count),
        data.len() == total_size,
        results.len() == ranges.len(),
        one_result_per_part(results),
        forall|k: int|
            0 <= k < results.len() ==> (#[trigger] results[k]).payload() == data.subrange(
                ranges[results[k].part_index() as int].start as int,
                ranges[results[k].part_index() as int].end as int + 1,
            ),
    ensures
        concat_all(ordered_payloads(results)) == data,
{
    let n = results.len() as int;
    lemma_parts_covered(results);
    let chunks = Seq::new(results.len(), |i: int|
        data.subrange(ranges[i].start as int, ranges[i].end as int + 1));
    assert forall|i: int| 0 <= i < n implies ordered_payloads(results)[i] == chunks[i] by {
        assert(indices_of(results).contains(i));
        let kw = choose|kw: int|
            0 <= kw < indices_of(results).len() && indices_of(results)[kw] == i;
        assert(indices_of(results)[kw] == results[kw].part_index() as int);
        assert(0 <= kw < results.len() && (#[trigger] results[kw]).part_index() as int == i);
        let k0 = choose|k: int|
            0 <= k < results.len() && (#[trigger] results[k]).part_index() as int == i;
        assert(0 <= k0 < results.len() && results[k0].part_index() as int == i);
        assert(ordered_payloads(results)[i] == results[k0].payload());
    }
    assert(ordered_payloads(results) =~= chunks);
    lemma_round_trip(data, ranges, chunks, total_size, part_count);
}

} // verus!
