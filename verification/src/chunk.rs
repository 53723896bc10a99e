use vstd::prelude::*;
use crate::errors::{ChunkFailure, FetchFailure};

verus! {

/// What one chunk fetch produced: the payload bytes of its range, or the
/// reason the fetch failed. Either way the result carries the ordinal
/// position of the range it was fetched for.
#[derive(Debug)]
pub enum ChunkResult {
    Payload { index: usize, bytes: Vec<u8> },
    Failed { index: usize, reason: FetchFailure },
}

impl ChunkResult {
    /// The ordinal position of the range this result belongs to.
    pub open spec fn part_index(self) -> usize {
        match self {
            ChunkResult::Payload { index, .. } => index,
            ChunkResult::Failed { index, .. } => index,
        }
    }

    /// Whether the fetch succeeded.
    pub open spec fn is_payload(self) -> bool {
        self is Payload
    }

    /// The payload bytes of a successful fetch; empty for a failed one.
    pub open spec fn payload(self) -> Seq<u8> {
        match self {
            ChunkResult::Payload { bytes, .. } => bytes@,
            ChunkResult::Failed { .. } => Seq::<u8>::empty(),
        }
    }
}

/// The failures among the results, in the order the results stand, each as
/// its index and reason.
pub open spec fn failures_of(results: Seq<ChunkResult>) -> Seq<ChunkFailure>
    decreases results.len(),
{
    if results.len() == 0 {
        Seq::<ChunkFailure>::empty()
    } else {
        failures_of(results.drop_last()) + (match results.last() {
            ChunkResult::Failed { index, reason } => seq![ChunkFailure { index, reason }],
            ChunkResult::Payload { .. } => Seq::<ChunkFailure>::empty(),
        })
    }
}

/// There are no failures among the results exactly when every result is a
/// payload.
pub proof fn lemma_no_failures(results: Seq<ChunkResult>)
    ensures
        failures_of(results).len() == 0 <==> (forall|k: int|
            0 <= k < results.len() ==> (#[trigger] results[k]).is_payload()),
    decreases results.len(),
{
    if results.len() > 0 {
        lemma_no_failures(results.drop_last());
        assert(forall|k: int|
            0 <= k < results.len() - 1 ==> results.drop_last()[k] == #[trigger] results[k]);
        assert(results.last() == results[results.len() - 1]);
    }
}

/// The ASCII byte of the decimal digit `d`.
pub open spec fn ascii_digit(d: int) -> u8 {
    (48 + d) as u8
}

/// The decimal digits of `n`, most significant first, as ASCII bytes.
pub open spec fn dec_digits(n: nat) -> Seq<u8>
    decreases n,
{
    if n < 10 {
        seq![ascii_digit(n as int)]
    } else {
        dec_digits(n / 10) + seq![ascii_digit((n % 10) as int)]
    }
}

/// Append the decimal digits of `n`, most significant first.
fn push_dec_digits(n: u64, out: &mut Vec<u8>)
    ensures
        final(out)@ == old(out)@ + dec_digits(n as nat),
    decreases n,
{
    if n >= 10 {
        let ghost prefix = out@;
        push_dec_digits(n / 10, out);
        out.push(48 + (n % 10) as u8);
        proof {
            assert(out@ =~= prefix + dec_digits(n as nat));
        }
    } else {
        out.push(48 + n as u8);
        proof {
            assert(out@ =~= old(out)@ + dec_digits(n as nat));
        }
    }
}

/// The value of an HTTP range header asking for the inclusive span
/// `start..=end`: the ASCII bytes of `bytes=`, the decimal start, `-`, the
/// decimal end.
pub open spec fn range_header(start: u64, end: u64) -> Seq<u8> {
    seq![98u8, 121u8, 116u8, 101u8, 115u8, 61u8] + dec_digits(start as nat) + seq![45u8]
        + dec_digits(end as nat)
}

/// Format the HTTP range header value for the inclusive span `start..=end`.
pub fn range_header_value(start: u64, end: u64) -> (r: Vec<u8>)
    ensures
        r@ == range_header(start, end),
{
    let mut out: Vec<u8> = Vec::new();
    out.push(98);
    out.push(121);
    out.push(116);
    out.push(101);
    out.push(115);
    out.push(61);
    proof {
        assert(out@ =~= seq![98u8, 121u8, 116u8, 101u8, 115u8, 61u8]);
    }
    push_dec_digits(start, &mut out);
    out.push(45);
    push_dec_digits(end, &mut out);
    proof {
        assert(out@ =~= range_header(start, end));
    }
    out
}

/// Whether an HTTP status code counts as success: the 2xx class.
pub fn is_success_status(status: u16) -> (r: bool)
    ensures
        r == (200 <= status < 300),
{
    200 <= status && status < 300
}

} // verus!
