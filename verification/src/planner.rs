use vstd::prelude::*;
use vstd::arithmetic::div_mod::{
    lemma_fundamental_div_mod,
    lemma_div_is_ordered,
    lemma_div_by_self,
    lemma_div_pos_is_pos,
    lemma_mod_division_less_than_divisor,
};
use vstd::arithmetic::mul::lemma_mul_inequality;
use crate::errors::DownloadError;

verus! {

/// A contiguous inclusive span of bytes: the `index`-th part of a resource.
/// `start` and `end` are both inclusive offsets into the resource.
#[derive(Clone, Copy, Debug, PartialEq, Eq, Structural)]
pub struct ByteRange {
    pub index: usize,
    pub start: u64,
    pub end: u64,
}

/// How many parts the planner produces: the requested count, clamped to the
/// total size so that every planned part holds at least one byte.
pub open spec fn part_total(total_size: u64, part_count: usize) -> int {
    if part_count as int <= total_size as int {
        part_count as int
    } else {
        total_size as int
    }
}

/// The length shared by every planned part except possibly the last.
pub open spec fn part_size(total_size: u64, part_count: usize) -> int {
    total_size as int / part_total(total_size, part_count)
}

/// The inclusive start offset of part `i`.
pub open spec fn planned_start(total_size: u64, part_count: usize, i: int) -> int {
    i * part_size(total_size, part_count)
}

/// The inclusive end offset of part `i`: the last part runs to the end of the
/// resource and so absorbs the remainder of the integer division.
pub open spec fn planned_end(total_size: u64, part_count: usize, i: int) -> int {
    if i == part_total(total_size, part_count) - 1 {
        total_size as int - 1
    } else {
        planned_start(total_size, part_count, i) + part_size(total_size, part_count) - 1
    }
}

/// The sequence of ranges is exactly the plan for `total_size` and `part_count`.
pub open spec fn is_planned(ranges: Seq<ByteRange>, total_size: u64, part_count: usize) -> bool {
    &&& ranges.len() == part_total(total_size, part_count)
    &&& forall|i: int| 0 <= i < ranges.len() ==> (#[trigger] ranges[i]).index == i
    &&& forall|i: int|
        0 <= i < ranges.len() ==> (#[trigger] ranges[i]).start == planned_start(
            total_size,
            part_count,
            i,
        )
    &&& forall|i: int|
        0 <= i < ranges.len() ==> (#[trigger] ranges[i]).end == planned_end(
            total_size,
            part_count,
            i,
        )
}

/// Split `[0, total_size - 1]` into `part_count` contiguous inclusive ranges in
/// ascending index order. Every part but the last has length
/// `total_size / part_count`; the last runs to `total_size - 1` and absorbs the
/// remainder. A part count above the total size is clamped to the total size,
/// so no planned range is ever empty. A zero total size or a zero part count
/// is rejected before any range is computed.
pub fn plan(total_size: u64, part_count: usize) -> (r: Result<Vec<ByteRange>, DownloadError>)
    ensures
        total_size > 0 && part_count > 0 ==> (r matches Ok(ranges) && is_planned(
            ranges@,
            total_size,
            part_count,
        )),
        total_size == 0 || part_count == 0 ==> (r matches Err(e) && e is InvalidInput),
{
    if total_size == 0 || part_count == 0 {
        return Err(DownloadError::InvalidInput);
    }
    let n64: u64 = if part_count as u64 <= total_size {
        part_count as u64
    } else {
        total_size
    };
    let n: usize = n64 as usize;
    let chunk_size: u64 = total_size / n64;
    proof {
        assert(n as int == part_total(total_size, part_count));
        assert(chunk_size as int == part_size(total_size, part_count));
        lemma_fundamental_div_mod(total_size as int, n as int);
        lemma_mod_division_less_than_divisor(total_size as int, n as int);
        lemma_div_is_ordered(n as int, total_size as int, n as int);
        lemma_div_by_self(n as int);
        assert(chunk_size >= 1);
        assert(n as int * chunk_size as int <= total_size as int);
    }
    let mut ranges: Vec<ByteRange> = Vec::new();
    for i in 0..n
        invariant
            1 <= n64 <= total_size,
            n == n64,
            n as int == part_total(total_size, part_count),
            chunk_size as int == part_size(total_size, part_count),
            1 <= chunk_size,
            n as int * chunk_size as int <= total_size as int,
            ranges@.len() == i,
            forall|j: int| 0 <= j < i ==> (#[trigger] ranges@[j]).index == j,
            forall|j: int|
                0 <= j < i ==> (#[trigger] ranges@[j]).start == planned_start(
                    total_size,
                    part_count,
                    j,
                ),
            forall|j: int|
                0 <= j < i ==> (#[trigger] ranges@[j]).end == planned_end(
                    total_size,
                    part_count,
                    j,
                ),
    {
        proof {
            lemma_mul_inequality(i as int + 1, n as int, chunk_size as int);
            assert((i as int + 1) * chunk_size as int == i as int * chunk_size as int
                + chunk_size as int) by (nonlinear_arith);
            assert(i as int * chunk_size as int + chunk_size as int <= total_size as int);
        }
        let start: u64 = (i as u64) * chunk_size;
        let end: u64 = if i == n - 1 {
            total_size - 1
        } else {
            start + chunk_size - 1
        };
        ranges.push(ByteRange { index: i, start, end });
    }
    Ok(ranges)
}

/// The offset `off` lies inside the range `r`.
pub open spec fn in_range(r: ByteRange, off: int) -> bool {
    r.start <= off <= r.end
}

/// Some range of the sequence holds the offset `off`.
pub open spec fn covered(ranges: Seq<ByteRange>, off: int) -> bool {
    exists|i: int| 0 <= i < ranges.len() && in_range(#[trigger] ranges[i], off)
}

/// A plan is a partition of the resource: the ranges stand in ascending,
/// contiguous index order, none is empty, no two overlap, the first starts at
/// offset zero, the last ends at the last byte, and every offset of
/// `[0, total_size - 1]` lies in exactly one range.
pub proof fn lemma_plan_partitions(ranges: Seq<ByteRange>, total_size: u64, part_count: usize)
    requires
        total_size > 0,
        part_count > 0,
        is_planned(ranges, total_size, part_count),
    ensures
        1 <= ranges.len() <= part_count,
        ranges[0].start == 0,
        ranges[ranges.len() - 1].end == total_size - 1,
        forall|i: int| 0 <= i < ranges.len() ==> (#[trigger] ranges[i]).start <= ranges[i].end,
        forall|i: int|
            0 <= i < ranges.len() - 1 ==> (#[trigger] ranges[i]).end + 1 == ranges[i + 1].start,
        forall|i: int, j: int|
            0 <= i < j < ranges.len() ==> (#[trigger] ranges[i]).end < (#[trigger] ranges[j]).start,
        forall|off: int| 0 <= off < total_size ==> #[trigger] covered(ranges, off),
        forall|i: int|
            0 <= i < ranges.len() - 1 ==> (#[trigger] ranges[i]).end + 1 - ranges[i].start
                == part_size(total_size, part_count),
        part_size(total_size, part_count) <= ranges[ranges.len() - 1].end + 1
            - ranges[ranges.len() - 1].start < part_size(total_size, part_count) + part_count,
{
    let n = part_total(total_size, part_count);
    let cs = part_size(total_size, part_count);
    lemma_fundamental_div_mod(total_size as int, n);
    lemma_mod_division_less_than_divisor(total_size as int, n);
    lemma_div_is_ordered(n, total_size as int, n);
    lemma_div_by_self(n);
    assert(cs >= 1);
    assert(n * cs <= total_size as int);
    assert forall|i: int| 0 <= i < ranges.len() implies (#[trigger] ranges[i]).start
        <= ranges[i].end by {
        if i < n - 1 {
            assert(ranges[i].end == i * cs + cs - 1);
        } else {
            lemma_mul_inequality(i, n - 1, cs);
            assert((n - 1) * cs == n * cs - cs) by (nonlinear_arith);
        }
    }
    assert forall|i: int| 0 <= i < ranges.len() - 1 implies (#[trigger] ranges[i]).end + 1
        == ranges[i + 1].start by {
        assert(i * cs + cs == (i + 1) * cs) by (nonlinear_arith);
    }
    assert forall|i: int, j: int| 0 <= i < j < ranges.len() implies (#[trigger] ranges[i]).end < (
    #[trigger] ranges[j]).start by {
        lemma_mul_inequality(i + 1, j, cs);
        assert(i * cs + cs == (i + 1) * cs) by (nonlinear_arith);
        if j == n - 1 {
            lemma_mul_inequality(j, n - 1, cs);
        }
    }
    assert(ranges[ranges.len() - 1].start == (n - 1) * cs);
    assert((n - 1) * cs == n * cs - cs) by (nonlinear_arith);
    assert forall|off: int| 0 <= off < total_size implies #[trigger] covered(ranges, off) by {
        lemma_fundamental_div_mod(off, cs);
        lemma_mod_division_less_than_divisor(off, cs);
        lemma_div_pos_is_pos(off, cs);
        let q = off / cs;
        if q < n - 1 {
            assert(ranges[q].start == q * cs);
            assert(ranges[q].end == q * cs + cs - 1);
            assert(in_range(ranges[q], off));
        } else {
            lemma_mul_inequality(n - 1, q, cs);
            assert((n - 1) * cs <= q * cs);
            assert(in_range(ranges[n - 1], off));
        }
    }
}

/// With a part count of one, the plan is a single range spanning the whole
/// resource.
pub proof fn lemma_single_part_plan(ranges: Seq<ByteRange>, total_size: u64)
    requires
        total_size > 0,
        is_planned(ranges, total_size, 1),
    ensures
        ranges.len() == 1,
        ranges[0].index == 0,
        ranges[0].start == 0,
        ranges[0].end == total_size - 1,
{
}

} // verus!
