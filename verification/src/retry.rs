use vstd::prelude::*;
use vstd::arithmetic::power2::pow2;

verus! {

/// Blocks fetched from a database per query.
pub const FETCH_BATCH_SIZE: u64 = 7200;

/// Attempts at a chunk before the run fails.
pub const MAX_CHUNK_ATTEMPTS: u32 = 20;

/// The progress of fetching `[current_start, end)` from a database in
/// batches of `FETCH_BATCH_SIZE` blocks, retrying a failed batch.
#[derive(Clone, Copy, Debug)]
pub struct BatchCursor {
    pub current_start: u64,
    pub end: u64,
    pub attempts: u32,
    pub completed_batches: u64,
}

/// What to do next while fetching.
#[derive(Clone, Copy, Debug, PartialEq, Eq, Structural)]
pub enum BatchStep {
    /// Query the blocks `[start, end)`.
    Request { start: u64, end: u64 },
    /// Every block has been fetched.
    Finished,
}

/// The end of the batch that starts at `start`.
pub open spec fn spec_batch_end(start: u64, end: u64) -> u64 {
    if start + FETCH_BATCH_SIZE < end { (start + FETCH_BATCH_SIZE) as u64 } else { end }
}

impl BatchCursor {
    /// A cursor at the start of `[chunk_start, chunk_end)`.
    pub fn new(chunk_start: u64, chunk_end: u64) -> (r: Self)
        ensures
            r.current_start == chunk_start,
            r.end == chunk_end,
            r.attempts == 0,
            r.completed_batches == 0,
    {
        BatchCursor { current_start: chunk_start, end: chunk_end, attempts: 0, completed_batches: 0 }
    }

    /// The next query: the batch at the cursor, counting one more attempt
    /// at it, or `Finished` when the cursor has reached the end.
    pub fn next_batch(&mut self) -> (r: BatchStep)
        requires
            old(self).end <= u64::MAX - FETCH_BATCH_SIZE,
            old(self).attempts < u32::MAX,
        ensures
            old(self).current_start < old(self).end ==> {
                &&& r == BatchStep::Request {
                    start: old(self).current_start,
                    end: spec_batch_end(old(self).current_start, old(self).end),
                }
                &&& final(self).attempts == old(self).attempts + 1
            },
            old(self).current_start >= old(self).end ==> r == BatchStep::Finished && final(self).attempts
                == old(self).attempts,
            final(self).current_start == old(self).current_start,
            final(self).end == old(self).end,
            final(self).completed_batches == old(self).completed_batches,
    {
        if self.current_start < self.end {
            self.attempts = self.attempts + 1;
            let next = self.current_start + FETCH_BATCH_SIZE;
            let batch_end = if next < self.end { next } else { self.end };
            BatchStep::Request { start: self.current_start, end: batch_end }
        } else {
            BatchStep::Finished
        }
    }

    /// Records that the batch ending at `batch_end` was fetched: the cursor
    /// moves past it and the attempts start again.
    pub fn batch_succeeded(&mut self, batch_end: u64)
        requires
            old(self).current_start < old(self).end,
            batch_end == spec_batch_end(old(self).current_start, old(self).end),
            old(self).completed_batches < u64::MAX,
        ensures
            final(self).current_start == batch_end,
            final(self).current_start > old(self).current_start,
            final(self).current_start <= old(self).end,
            final(self).end == old(self).end,
            final(self).attempts == 0,
            final(self).completed_batches == old(self).completed_batches + 1,
    {
        self.current_start = batch_end;
        self.attempts = 0;
        self.completed_batches = self.completed_batches + 1;
    }

    /// Whether a failed batch ends the fetch: after `max_attempts`
    /// attempts at it.
    pub fn gives_up(&self, max_attempts: u32) -> (r: bool)
        ensures
            r == (self.attempts >= max_attempts),
    {
        self.attempts >= max_attempts
    }
}

/// The delay, in seconds, before attempt `attempt + 1` at a chunk whose
/// attempt `attempt` failed, or `None` when `max_attempts` attempts have
/// failed: five seconds per attempt made.
pub fn chunk_retry_delay(attempt: u32, max_attempts: u32) -> (r: Option<u64>)
    ensures
        r == (if attempt >= max_attempts { None::<u64> } else { Some((5 * attempt) as u64) }),
{
    if attempt >= max_attempts {
        None
    } else {
        Some(5 * (attempt as u64))
    }
}

/// After a failed write when `retries` retries were made: the number of
/// retries and the delay, in seconds, before the next write (two to the
/// power of that number), or `None` when the last of `max_retries` writes
/// failed.
pub fn write_retry_delay(retries: u32, max_retries: u32) -> (r: Option<(u32, u64)>)
    requires
        retries < max_retries,
        retries + 1 < max_retries ==> retries + 1 < 64,
    ensures
        r == (if retries + 1 < max_retries {
            Some(((retries + 1) as u32, pow2((retries + 1) as nat) as u64))
        } else {
            None::<(u32, u64)>
        }),
{
    if retries < max_retries - 1 {
        let next = retries + 1;
        let mut delay: u64 = 1;
        let mut k: u32 = 0;
        proof {
            vstd::arithmetic::power2::lemma2_to64();
        }
        while k < next
            invariant
                k <= next,
                next < 64,
                delay == pow2(k as nat),
            decreases next - k,
        {
            proof {
                vstd::arithmetic::power2::lemma_pow2_unfold((k + 1) as nat);
                vstd::arithmetic::power2::lemma_pow2_strictly_increases(k as nat, 63);
                vstd::arithmetic::power2::lemma2_to64_rest();
            }
            delay = delay * 2;
            k = k + 1;
        }
        Some((next, delay))
    } else {
        None
    }
}

/// Each successful batch moves the cursor to the end of the batch it
/// asked for, so the batches tile the range and the cursor reaches its end
/// after at most one batch per `FETCH_BATCH_SIZE` blocks.
pub proof fn lemma_batches_progress(start: u64, end: u64)
    requires
        start < end,
    ensures
        start < spec_batch_end(start, end) <= end,
        spec_batch_end(start, end) - start <= FETCH_BATCH_SIZE,
        spec_batch_end(start, end) < end ==> spec_batch_end(start, end) - start == FETCH_BATCH_SIZE,
{
}

} // verus!
