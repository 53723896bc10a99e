use vstd::prelude::*;
use crate::planner::{ByteRange, is_planned, lemma_plan_partitions};

verus! {

/// The concatenation of the chunks, in the order they stand.
pub open spec fn concat_all(chunks: Seq<Seq<u8>>) -> Seq<u8>
    decreases chunks.len(),
{
    if chunks.len() == 0 {
        Seq::<u8>::empty()
    } else {
        concat_all(chunks.drop_last()) + chunks.last()
    }
}

/// Assemble the artifact: append every payload in the order given, so the
/// result is their concatenation. The caller hands the payloads in ascending
/// range-index order; writing them out and reporting progress is the
/// caller's side of the work.
pub fn assemble(payloads: &Vec<Vec<u8>>) -> (r: Vec<u8>)
    ensures
        r@ == concat_all(payloads.deep_view()),
{
    let mut out: Vec<u8> = Vec::new();
    let n = payloads.len();
    for i in 0..n
        invariant
            n == payloads@.len(),
            out@ == concat_all(payloads.deep_view().take(i as int)),
    {
        let ghost pre = out@;
        let chunk = &payloads[i];
        let m = chunk.len();
        for j in 0..m
            invariant
                n == payloads@.len(),
                i < n,
                m == chunk@.len(),
                chunk == payloads@[i as int],
                out@ == pre + chunk@.take(j as int),
        {
            out.push(chunk[j]);
            proof {
                assert(out@ =~= pre + chunk@.take(j as int + 1));
            }
        }
        proof {
            assert(chunk@.take(m as int) =~= chunk@);
            assert(payloads.deep_view().take(i as int + 1).drop_last() =~= payloads.deep_view()
                .take(i as int));
            assert(payloads.deep_view().take(i as int + 1).last() == payloads.deep_view()[i as int]);
            assert(payloads.deep_view()[i as int] == payloads@[i as int]@);
            assert(out@ =~= concat_all(payloads.deep_view().take(i as int + 1)));
        }
    }
    proof {
        assert(payloads.deep_view().take(n as int) =~= payloads.deep_view());
    }
    out
}

/// The concatenation of the first `k` chunks of a plan reproduces the
/// resource up to the end of the `k`-th range.
proof fn lemma_round_trip_prefix(
    data: Seq<u8>,
    ranges: Seq<ByteRange>,
    chunks: Seq<Seq<u8>>,
    total_size: u64,
    part_count: usize,
    k: int,
)
    requires
        total_size > 0,
        part_count > 0,
        is_planned(ranges, total_size, part_count),
        data.len() == total_size,
        chunks.len() == ranges.len(),
        forall|i: int|
            0 <= i < ranges.len() ==> #[trigger] chunks[i] == data.subrange(
                ranges[i].start as int,
                ranges[i].end as int + 1,
            ),
        0 <= k <= ranges.len(),
    ensures
        k == 0 ==> concat_all(chunks.take(k)) == Seq::<u8>::empty(),
        k > 0 ==> concat_all(chunks.take(k)) == data.take(ranges[k - 1].end as int + 1),
    decreases k,
{
    lemma_plan_partitions(ranges, total_size, part_count);
    if k == 0 {
        assert(chunks.take(0) =~= Seq::<Seq<u8>>::empty());
    } else {
        lemma_round_trip_prefix(data, ranges, chunks, total_size, part_count, k - 1);
        assert(chunks.take(k).drop_last() =~= chunks.take(k - 1));
        assert(chunks.take(k).last() == chunks[k - 1]);
        if k == 1 {
            assert(ranges[0].start == 0);
            assert(concat_all(chunks.take(1)) =~= data.take(ranges[0].end as int + 1));
        } else {
            assert(ranges[k - 2].end + 1 == ranges[k - 1].start);
            assert(data.take(ranges[k - 2].end as int + 1) + data.subrange(
                ranges[k - 1].start as int,
                ranges[k - 1].end as int + 1,
            ) =~= data.take(ranges[k - 1].end as int + 1));
        }
    }
}

/// Concatenating the chunk payloads of a plan in ascending index order
/// reproduces the resource byte for byte, whatever partitioning the planner
/// produced.
pub proof fn lemma_round_trip(
    data: Seq<u8>,
    ranges: Seq<ByteRange>,
    chunks: Seq<Seq<u8>>,
    total_size: u64,
    part_count: usize,
)
    requires
        total_size > 0,
        part_count > 0,
        is_planned(ranges, total_size, part_count),
        data.len() == total_size,
        chunks.len() == ranges.len(),
        forall|i: int|
            0 <= i < ranges.len() ==> #[trigger] chunks[i] == data.subrange(
                ranges[i].start as int,
                ranges[i].end as int + 1,
            ),
    ensures
        concat_all(chunks) == data,
{
    lemma_plan_partitions(ranges, total_size, part_count);
    lemma_round_trip_prefix(data, ranges, chunks, total_size, part_count, ranges.len() as int);
    assert(chunks.take(ranges.len() as int) =~= chunks);
    assert(data.take(ranges[ranges.len() - 1].end as int + 1) =~= data);
}

} // verus!
