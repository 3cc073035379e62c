//! The decisions of a streaming input reader: which commands change what,
//! when to park, which queued batches a `Queue` command flushes, and how a
//! replay accounts for the bytes read.  The thread, the byte source, the
//! parser and the consumer stand outside; they perform the actions and
//! report the events.
use vstd::prelude::*;

verus! {

/// A batch of parsed records waiting to be flushed, with the stream
/// offsets `start..end` it was parsed from.
#[derive(Clone, Copy, Debug, PartialEq, Eq)]
pub struct QueuedBatch {
    pub start: u64,
    pub end: u64,
    pub records: usize,
}

/// What a `Queue` command flushes: the first `batches` queued batches,
/// holding `total` records, parsed from offsets `start..end`.
#[derive(Clone, Copy, Debug, PartialEq, Eq)]
pub struct Flush {
    pub batches: usize,
    pub total: u64,
    pub start: u64,
    pub end: u64,
}

/// What to do after a read from the byte source.
#[derive(Clone, Copy, Debug, PartialEq, Eq)]
pub enum AfterRead {
    /// Go on reading.
    Continue,
    /// The input has ended: emit the final chunk and report end of input.
    EndOfInput,
    /// Nothing new yet in follow mode: wait before reading again.
    Wait,
}

/// A replay whose source ended before the requested range did.
#[derive(Clone, Copy, Debug, PartialEq, Eq)]
pub struct ReplayTruncated {
    pub missing: u64,
}

/// The sum of the records of the first `k` batches.
pub open spec fn records_prefix(q: Seq<QueuedBatch>, k: int) -> int
    decreases k,
{
    if k <= 0 {
        0
    } else {
        records_prefix(q, k - 1) + q[k - 1].records
    }
}

/// The number of batches taken after `k` have been: up to the first
/// prefix whose records reach `limit`, or all.
pub open spec fn flush_count_from(q: Seq<QueuedBatch>, limit: int, k: int) -> int
    decreases q.len() - k,
{
    if k >= q.len() {
        q.len() as int
    } else if records_prefix(q, k + 1) >= limit {
        k + 1
    } else {
        flush_count_from(q, limit, k + 1)
    }
}

/// The number of batches that a `Queue` command with `limit` flushes:
/// batches are taken, at least one, until their records reach `limit` or
/// none is left.
pub open spec fn flush_count(q: Seq<QueuedBatch>, limit: int) -> int {
    flush_count_from(q, limit, 0)
}

proof fn lemma_records_prefix_mono(q: Seq<QueuedBatch>, a: int, b: int)
    requires
        0 <= a <= b,
    ensures
        records_prefix(q, a) <= records_prefix(q, b),
    decreases b - a,
{
    if a < b {
        lemma_records_prefix_mono(q, a, b - 1);
    }
}

/// The state of a reader.
pub struct ReaderState {
    extending: bool,
    eof: bool,
    follow: bool,
    queue: Vec<QueuedBatch>,
    n_queued: u64,
}

impl ReaderState {
    pub closed spec fn extending(&self) -> bool {
        self.extending
    }

    pub closed spec fn eof(&self) -> bool {
        self.eof
    }

    pub closed spec fn follow(&self) -> bool {
        self.follow
    }

    /// The batches waiting, oldest first.
    pub closed spec fn queued(&self) -> Seq<QueuedBatch> {
        self.queue@
    }

    /// The records waiting.
    pub closed spec fn n_queued(&self) -> u64 {
        self.n_queued
    }

    /// The count of waiting records is their sum.
    pub closed spec fn well_formed(&self) -> bool {
        self.n_queued == records_prefix(self.queue@, self.queue@.len() as int)
    }

    /// The number of records waiting.
    pub fn queued_records(&self) -> (r: u64)
        ensures
            r == self.n_queued(),
    {
        self.n_queued
    }

    /// A paused reader: not extending, not at end of input, nothing queued.
    pub fn new(follow: bool) -> (r: Self)
        ensures
            r.well_formed(),
            !r.extending() && !r.eof() && r.follow() == follow,
            r.queued() == Seq::<QueuedBatch>::empty(),
            r.n_queued() == 0,
    {
        ReaderState { extending: false, eof: false, follow, queue: Vec::new(), n_queued: 0 }
    }

    /// The `Extend` command: start (or keep) reading.
    pub fn extend(&mut self)
        requires
            old(self).well_formed(),
        ensures
            final(self).well_formed(),
            final(self).extending(),
            final(self).eof() == old(self).eof() && final(self).follow() == old(self).follow(),
            final(self).queued() == old(self).queued() && final(self).n_queued() == old(self).n_queued(),
    {
        self.extending = true;
    }

    /// Whether the reader should park rather than read: it is not
    /// extending, or the input has ended, or `max_queued` records wait.
    pub fn should_park(&self, max_queued: u64) -> (r: bool)
        ensures
            r == (!self.extending() || self.eof() || self.n_queued() >= max_queued),
    {
        !self.extending || self.eof || self.n_queued >= max_queued
    }

    /// Appends a batch parsed from offsets `start..end`.
    pub fn push_batch(&mut self, start: u64, end: u64, records: usize)
        requires
            old(self).well_formed(),
            old(self).n_queued() + records <= u64::MAX,
        ensures
            final(self).well_formed(),
            final(self).extending() == old(self).extending() && final(self).eof() == old(self).eof() && final(self).follow() == old(self).follow(),
            final(self).queued() == old(self).queued().push(QueuedBatch { start, end, records }),
            final(self).n_queued() == old(self).n_queued() + records,
    {
        let ghost q = self.queue@;
        self.queue.push(QueuedBatch { start, end, records });
        self.n_queued = self.n_queued + records as u64;
        proof {
            assert(self.queue@.len() == q.len() + 1);
            lemma_records_prefix_same(q, self.queue@, q.len() as int);
        }
    }

    /// Decides what follows a read of `n` bytes: at the end of the source
    /// the input ends, unless the reader follows the source, which then
    /// waits before reading again.
    pub fn after_read(&mut self, n: usize) -> (r: AfterRead)
        requires
            old(self).well_formed(),
        ensures
            final(self).well_formed(),
            final(self).extending() == old(self).extending() && final(self).follow() == old(self).follow(),
            final(self).queued() == old(self).queued() && final(self).n_queued() == old(self).n_queued(),
            r == if n > 0 {
                AfterRead::Continue
            } else if !old(self).follow() {
                AfterRead::EndOfInput
            } else {
                AfterRead::Wait
            },
            final(self).eof() == (old(self).eof() || (n == 0 && !old(self).follow())),
    {
        if n > 0 {
            AfterRead::Continue
        } else if !self.follow {
            self.eof = true;
            AfterRead::EndOfInput
        } else {
            AfterRead::Wait
        }
    }

    /// The `Queue` command: takes batches, oldest first, at least one,
    /// until their records reach `limit` or none is left, and reports them.
    pub fn queue(&mut self, limit: usize) -> (r: Flush)
        requires
            old(self).well_formed(),
        ensures
            final(self).well_formed(),
            final(self).extending() == old(self).extending() && final(self).eof() == old(self).eof() && final(self).follow() == old(self).follow(),
            ({
                let q = old(self).queued();
                let k = flush_count(q, limit as int);
                &&& r.batches == k
                &&& r.total == records_prefix(q, k)
                &&& final(self).queued() == q.subrange(k, q.len() as int)
                &&& (k == 0 ==> r.start == 0 && r.end == 0)
                &&& (k > 0 ==> r.start == q[0].start && r.end == q[k - 1].end)
                &&& final(self).n_queued() == old(self).n_queued() - r.total
            }),
    {
        let ghost q = self.queue@;
        let ghost f = flush_count(q, limit as int);
        let n = self.queue.len();
        let mut k: usize = 0;
        let mut total: u64 = 0;
        proof {
            lemma_records_prefix_mono(q, 0, n as int);
        }
        while k < n && (k == 0 || total < limit as u64)
            invariant
                k <= n,
                n == q.len(),
                q == self.queue@,
                self.n_queued == records_prefix(q, n as int),
                total == records_prefix(q, k as int),
                f == flush_count(q, limit as int),
                f == if k > 0 && total >= limit {
                    k as int
                } else {
                    flush_count_from(q, limit as int, k as int)
                },
            decreases n - k,
        {
            proof {
                lemma_records_prefix_mono(q, k + 1, n as int);
            }
            total = total + self.queue[k].records as u64;
            k = k + 1;
        }
        let start = if k > 0 { self.queue[0].start } else { 0 };
        let end = if k > 0 { self.queue[k - 1].end } else { 0 };
        proof {
            lemma_records_prefix_mono(q, k as int, n as int);
            lemma_records_prefix_split(q, k as int, n as int);
        }
        // drop the flushed batches
        let mut rest: Vec<QueuedBatch> = Vec::new();
        let mut i: usize = k;
        while i < n
            invariant
                k <= i <= n,
                n == q.len(),
                q == self.queue@,
                rest@ == q.subrange(k as int, i as int),
            decreases n - i,
        {
            rest.push(self.queue[i]);
            i = i + 1;
            assert(rest@ =~= q.subrange(k as int, i as int));
        }
        self.queue = rest;
        self.n_queued = self.n_queued - total;
        Flush { batches: k, total, start, end }
    }
}

proof fn lemma_records_prefix_same(a: Seq<QueuedBatch>, b: Seq<QueuedBatch>, k: int)
    requires
        0 <= k <= a.len(),
        k <= b.len(),
        forall|i: int| 0 <= i < k ==> a[i] == b[i],
    ensures
        records_prefix(a, k) == records_prefix(b, k),
    decreases k,
{
    if k > 0 {
        lemma_records_prefix_same(a, b, k - 1);
    }
}

/// The records of `q[k..n]` are those of `q[..n]` less those of `q[..k]`.
proof fn lemma_records_prefix_split(q: Seq<QueuedBatch>, k: int, n: int)
    requires
        0 <= k <= n <= q.len(),
    ensures
        records_prefix(q.subrange(k, n), n - k) == records_prefix(q, n) - records_prefix(q, k),
    decreases n - k,
{
    if k < n {
        lemma_records_prefix_split(q, k, n - 1);
        let s1 = q.subrange(k, n);
        let s0 = q.subrange(k, n - 1);
        lemma_records_prefix_same(s1, s0, n - 1 - k);
    }
}

/// Accounts for `n` bytes read during a replay with `remainder` bytes still
/// to read: the source may not end before the range does.
pub fn replay_progress(remainder: u64, n: usize) -> (r: Result<u64, ReplayTruncated>)
    ensures
        match r {
            Ok(rest) => (n > 0 || remainder == 0) && rest == if n as int >= remainder { 0 } else { remainder - n },
            Err(e) => n == 0 && remainder > 0 && e.missing == remainder,
        },
{
    if n == 0 {
        if remainder > 0 {
            Err(ReplayTruncated { missing: remainder })
        } else {
            Ok(0)
        }
    } else if n as u64 >= remainder {
        Ok(0)
    } else {
        Ok(remainder - n as u64)
    }
}

} // verus!
