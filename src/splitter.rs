//! The streaming splitter: turns byte fragments, as they arrive, into
//! record-aligned chunks.
use vstd::prelude::*;

verus! {

/// Finds where records end in a byte stream.
pub trait Splitter {
    /// Offered the next bytes of the stream, reports whether a record ends
    /// within them: `Some(n)` when the first `n` bytes complete one.
    fn input(&mut self, data: &[u8]) -> (r: Option<usize>)
        ensures
            r matches Some(n) ==> 0 < n <= data@.len(),
    ;

    /// Forgets all bytes offered so far.
    fn clear(&mut self);
}

/// Splits a stream into lines: each record ends with a newline byte.
pub struct LineSplitter;

impl LineSplitter {
    pub fn new() -> (r: Self) {
        LineSplitter
    }
}

impl Splitter for LineSplitter {

    fn input(&mut self, data: &[u8]) -> (r: Option<usize>)
        ensures
            r matches Some(n) ==> data@[n - 1] == 10u8 && forall|i: int| 0 <= i < n - 1 ==> data@[i] != 10u8,
            r is None ==> forall|i: int| 0 <= i < data@.len() ==> data@[i] != 10u8,
    {
        let mut i: usize = 0;
        while i < data.len()
            invariant
                i <= data@.len(),
                forall|j: int| 0 <= j < i ==> data@[j] != 10u8,
            decreases data@.len() - i,
        {
            if data[i] == 10u8 {
                return Some(i + 1);
            }
            i = i + 1;
        }
        None
    }

    fn clear(&mut self) {
    }
}

/// Copies `buf[a..b]`.
fn copy_range(buf: &Vec<u8>, a: usize, b: usize) -> (r: Vec<u8>)
    requires
        a <= b <= buf@.len(),
    ensures
        r@ == buf@.subrange(a as int, b as int),
{
    let mut out: Vec<u8> = Vec::new();
    let mut i: usize = a;
    while i < b
        invariant
            a <= i <= b,
            b <= buf@.len(),
            out@ == buf@.subrange(a as int, i as int),
        decreases b - i,
    {
        out.push(buf[i]);
        i = i + 1;
        assert(out@ =~= buf@.subrange(a as int, i as int));
    }
    out
}

/// A growable byte buffer over a stream.  `start` is the stream offset of
/// the buffer's first byte; `buffer[frag_start..frag_end]` holds the bytes
/// read and not yet emitted, of which `buffer[frag_start..fed]` have been
/// offered to the splitter.
pub struct StreamingSplitter<S> {
    buffer: Vec<u8>,
    start: u64,
    frag_start: usize,
    frag_end: usize,
    fed: usize,
    splitter: S,
    /// The offset of the last seek.
    origin: Ghost<nat>,
    /// Every byte read since the last seek.
    stream: Ghost<Seq<u8>>,
    /// The byte runs offered to the splitter since it was last cleared.
    offered: Ghost<Seq<Seq<u8>>>,
}

impl<S: Splitter> StreamingSplitter<S> {
    /// The stream offset of the next record.
    pub closed spec fn pos(&self) -> nat {
        (self.start + self.frag_start) as nat
    }

    /// The stream offset of the last seek.
    pub closed spec fn origin(&self) -> nat {
        self.origin@
    }

    /// Every byte read since the last seek.
    pub closed spec fn stream(&self) -> Seq<u8> {
        self.stream@
    }

    /// The bytes read and not yet emitted.
    pub closed spec fn pending(&self) -> Seq<u8> {
        self.buffer@.subrange(self.frag_start as int, self.frag_end as int)
    }

    /// The pending bytes not yet offered to the splitter: a suffix of
    /// `pending()`.
    pub closed spec fn unfed(&self) -> Seq<u8> {
        self.buffer@.subrange(self.fed as int, self.frag_end as int)
    }

    /// What the splitter has been offered, in order, since it was last
    /// cleared (since construction, for a new splitter).
    pub closed spec fn oracle_log(&self) -> Seq<Seq<u8>> {
        self.offered@
    }

    /// The size of the buffer.
    pub closed spec fn buffer_len(&self) -> nat {
        self.buffer@.len()
    }

    /// Room left at the end of the buffer.
    pub closed spec fn spare(&self) -> nat {
        (self.buffer@.len() - self.frag_end) as nat
    }

    pub closed spec fn well_formed(&self) -> bool {
        &&& self.frag_start <= self.fed <= self.frag_end <= self.buffer@.len()
        &&& self.buffer@.len() > 0
        &&& self.origin@ <= self.start + self.frag_start
        &&& self.start + self.frag_end <= u64::MAX
        &&& self.start + self.frag_end == self.origin@ + self.stream@.len()
        &&& self.pending() == self.stream@.subrange(
            self.start + self.frag_start - self.origin@,
            self.stream@.len() as int,
        )
    }

    /// Where the pending and unfed bytes lie in the stream.
    pub proof fn lemma_pending_in_stream(&self)
        requires
            self.well_formed(),
        ensures
            self.origin() <= self.pos(),
            self.pos() + self.pending().len() == self.origin() + self.stream().len(),
            self.pending() == self.stream().subrange(
                self.pos() - self.origin(),
                self.stream().len() as int,
            ),
            self.unfed().len() <= self.pending().len(),
            self.unfed() == self.pending().subrange(
                self.pending().len() - self.unfed().len(),
                self.pending().len() as int,
            ),
    {
        assert(self.unfed() =~= self.pending().subrange(
            self.pending().len() - self.unfed().len(),
            self.pending().len() as int,
        ));
    }

    /// A splitter at offset 0 with a buffer of `buffer_size` bytes (8192
    /// where that is 0).
    pub fn new(splitter: S, buffer_size: usize) -> (r: Self)
        ensures
            r.well_formed(),
            r.pos() == 0,
            r.origin() == 0,
            r.stream() == Seq::<u8>::empty(),
            r.pending() == Seq::<u8>::empty(),
            r.unfed() == Seq::<u8>::empty(),
            r.oracle_log() == Seq::<Seq<u8>>::empty(),
            r.spare() == if buffer_size == 0 {
                8192
            } else {
                buffer_size
            },
    {
        let size = if buffer_size == 0 {
            8192
        } else {
            buffer_size
        };
        let buffer = vec![0u8; size];
        let r = StreamingSplitter {
            buffer,
            start: 0,
            frag_start: 0,
            frag_end: 0,
            fed: 0,
            splitter,
            origin: Ghost(0),
            stream: Ghost(Seq::empty()),
            offered: Ghost(Seq::empty()),
        };
        assert(r.pending() =~= Seq::<u8>::empty());
        assert(r.unfed() =~= Seq::<u8>::empty());
        assert(r.stream@.subrange(0, 0) =~= Seq::<u8>::empty());
        r
    }

    /// Acts on the splitter's answer for the unfed bytes: `Some(n)` ends a
    /// record `n` bytes into them, and the record, from the first pending
    /// byte, is taken; `None` marks every pending byte as offered.
    pub fn take_record(&mut self, answer: Option<usize>) -> (r: Option<Vec<u8>>)
        requires
            old(self).well_formed(),
            answer matches Some(n) ==> 0 < n <= old(self).unfed().len(),
        ensures
            final(self).well_formed(),
            final(self).origin() == old(self).origin(),
            final(self).stream() == old(self).stream(),
            final(self).spare() == old(self).spare(),
            final(self).oracle_log() == old(self).oracle_log(),
            match answer {
                Some(n) => {
                    let len = old(self).pending().len() - old(self).unfed().len() + n;
                    &&& r matches Some(c) && c@ == old(self).pending().subrange(0, len)
                    &&& final(self).pos() == old(self).pos() + len
                    &&& final(self).pending() == old(self).pending().subrange(len, old(self).pending().len() as int)
                    &&& final(self).unfed() == final(self).pending()
                },
                None => r is None && final(self).pos() == old(self).pos() && final(self).pending()
                    == old(self).pending() && final(self).unfed() == Seq::<u8>::empty(),
            },
    {
        match answer {
            Some(n) => {
                let end = self.fed + n;
                let chunk = copy_range(&self.buffer, self.frag_start, end);
                let ghost old_pending = self.pending();
                self.fed = end;
                self.frag_start = end;
                proof {
                    let c = (end - old(self).frag_start) as int;
                    assert(chunk@ =~= old_pending.subrange(0, c));
                    assert(self.pending() =~= old_pending.subrange(c, old_pending.len() as int));
                    assert(self.unfed() =~= self.pending());
                    let s = self.stream@;
                    let o = self.origin@;
                    assert(self.pending() =~= s.subrange(self.start + self.frag_start - o, s.len() as int));
                }
                Some(chunk)
            },
            None => {
                self.fed = self.frag_end;
                assert(self.unfed() =~= Seq::<u8>::empty());
                None
            },
        }
    }

    /// Offers the unfed bytes to the splitter and takes the record it
    /// finds, if any.
    pub fn next(&mut self) -> (r: Option<Vec<u8>>)
        requires
            old(self).well_formed(),
        ensures
            final(self).well_formed(),
            final(self).origin() == old(self).origin(),
            final(self).stream() == old(self).stream(),
            final(self).spare() == old(self).spare(),
            final(self).oracle_log() == old(self).oracle_log().push(old(self).unfed()),
            match r {
                Some(c) => old(self).pending().len() - old(self).unfed().len() < c@.len()
                    && c@ == old(self).pending().subrange(0, c@.len() as int)
                    && final(self).pos() == old(self).pos() + c@.len() && final(self).pending()
                    == old(self).pending().subrange(c@.len() as int, old(self).pending().len() as int)
                    && final(self).unfed() == final(self).pending(),
                None => final(self).pos() == old(self).pos() && final(self).pending() == old(
                    self,
                ).pending() && final(self).unfed() == Seq::<u8>::empty(),
            },
    {
        let data = &self.buffer.as_slice()[self.fed..self.frag_end];
        let answer = self.splitter.input(data);
        proof {
            assert(data@ =~= old(self).unfed());
            old(self).lemma_pending_in_stream();
            self.offered@ = self.offered@.push(data@);
        }
        self.take_record(answer)
    }

    /// The stream offset of the next record.
    pub fn position(&self) -> (r: u64)
        requires
            self.well_formed(),
        ensures
            r == self.pos(),
    {
        self.start + self.frag_start as u64
    }

    /// The stream offset one past the last byte read.
    pub fn stream_end(&self) -> (r: u64)
        requires
            self.well_formed(),
        ensures
            r == self.pos() + self.pending().len(),
    {
        self.start + self.frag_end as u64
    }

    /// The size of the buffer.
    pub fn capacity(&self) -> (r: usize)
        ensures
            r == self.buffer_len(),
    {
        self.buffer.len()
    }

    /// At the end of input: the bytes read and not yet emitted, as a last
    /// record, if there are any.
    pub fn final_chunk(&mut self) -> (r: Option<Vec<u8>>)
        requires
            old(self).well_formed(),
        ensures
            final(self).well_formed(),
            final(self).origin() == old(self).origin(),
            final(self).stream() == old(self).stream(),
            final(self).spare() == old(self).spare(),
            final(self).oracle_log() == old(self).oracle_log(),
            final(self).pos() == old(self).pos() + old(self).pending().len(),
            final(self).pending() == Seq::<u8>::empty(),
            final(self).unfed() == Seq::<u8>::empty(),
            match r {
                Some(c) => old(self).pending().len() > 0 && c@ == old(self).pending(),
                None => old(self).pending().len() == 0,
            },
    {
        if self.frag_start < self.frag_end {
            let chunk = copy_range(&self.buffer, self.frag_start, self.frag_end);
            self.frag_start = self.frag_end;
            self.fed = self.frag_end;
            proof {
                assert(self.pending() =~= Seq::<u8>::empty());
                assert(self.unfed() =~= Seq::<u8>::empty());
                let s = self.stream@;
                assert(s.subrange(s.len() as int, s.len() as int) =~= Seq::<u8>::empty());
            }
            Some(chunk)
        } else {
            self.fed = self.frag_end;
            assert(self.pending() =~= Seq::<u8>::empty());
            assert(self.unfed() =~= Seq::<u8>::empty());
            None
        }
    }

    /// Moves the pending bytes to the front of the buffer and, if they fill
    /// it, doubles the buffer.  Returns the room left after them.
    pub fn make_room(&mut self) -> (r: usize)
        requires
            old(self).well_formed(),
            old(self).buffer_len() * 2 <= usize::MAX,
        ensures
            final(self).well_formed(),
            final(self).origin() == old(self).origin(),
            final(self).stream() == old(self).stream(),
            final(self).pos() == old(self).pos(),
            final(self).pending() == old(self).pending(),
            final(self).unfed() == old(self).unfed(),
            final(self).oracle_log() == old(self).oracle_log(),
            final(self).buffer_len() == if old(self).pending().len() == old(self).buffer_len() {
                2 * old(self).buffer_len()
            } else {
                old(self).buffer_len()
            },
            r == final(self).buffer_len() - old(self).pending().len(),
            r == final(self).spare(),
            r > 0,
    {
        proof {
            old(self).lemma_pending_in_stream();
        }
        let len = self.frag_end - self.frag_start;
        let ghost pend = self.pending();
        let mut i: usize = 0;
        while i < len
            invariant
                self.frag_start + len == self.frag_end,
                self.frag_end <= self.buffer@.len(),
                i <= len,
                i <= self.frag_start + i,
                self.buffer@.len() == old(self).buffer@.len(),
                self.frag_start == old(self).frag_start,
                self.frag_end == old(self).frag_end,
                self.start == old(self).start,
                self.fed == old(self).fed,
                self.splitter == old(self).splitter,
                self.offered == old(self).offered,
                self.origin == old(self).origin,
                self.stream == old(self).stream,
                pend == old(self).pending(),
                forall|j: int| 0 <= j < i ==> #[trigger] self.buffer@[j] == pend[j],
                forall|j: int| i + self.frag_start <= j < self.frag_end ==> #[trigger] self.buffer@[j] == pend[j - self.frag_start],
            decreases len - i,
        {
            let b = self.buffer[self.frag_start + i];
            self.buffer.set(i, b);
            i = i + 1;
        }
        self.start = self.start + self.frag_start as u64;
        self.fed = self.fed - self.frag_start;
        self.frag_start = 0;
        self.frag_end = len;
        proof {
            assert(self.pending() =~= pend);
            assert(self.unfed() =~= old(self).unfed());
        }
        if len == self.buffer.len() {
            let size = self.buffer.len() * 2;
            self.buffer.resize(size, 0u8);
            proof {
                assert(self.pending() =~= pend);
                assert(self.unfed() =~= old(self).unfed());
            }
        }
        self.buffer.len() - self.frag_end
    }

    /// Appends bytes read from the stream.
    pub fn added_data(&mut self, data: &[u8])
        requires
            old(self).well_formed(),
            data@.len() <= old(self).spare(),
            old(self).pos() + old(self).pending().len() + data@.len() <= u64::MAX,
        ensures
            final(self).well_formed(),
            final(self).origin() == old(self).origin(),
            final(self).stream() == old(self).stream() + data@,
            final(self).pos() == old(self).pos(),
            final(self).pending() == old(self).pending() + data@,
            final(self).unfed() == old(self).unfed() + data@,
            final(self).oracle_log() == old(self).oracle_log(),
            final(self).buffer_len() == old(self).buffer_len(),
            final(self).spare() == old(self).spare() - data@.len(),
    {
        let n = data.len();
        let ghost pend = self.pending();
        let blen = self.buffer.len();
        let mut i: usize = 0;
        while i < n
            invariant
                i <= n,
                blen == self.buffer@.len(),
                pend == old(self).pending(),
                n == data@.len(),
                self.frag_end + n <= self.buffer@.len(),
                self.buffer@.len() == old(self).buffer@.len(),
                self.frag_start == old(self).frag_start,
                self.frag_end == old(self).frag_end,
                self.start == old(self).start,
                self.fed == old(self).fed,
                self.splitter == old(self).splitter,
                self.offered == old(self).offered,
                self.origin == old(self).origin,
                self.stream == old(self).stream,
                forall|j: int| 0 <= j < self.frag_end ==> #[trigger] self.buffer@[j] == old(self).buffer@[j],
                forall|j: int| 0 <= j < i ==> #[trigger] self.buffer@[self.frag_end + j] == data@[j],
            decreases n - i,
        {
            self.buffer.set(self.frag_end + i, data[i]);
            i = i + 1;
        }
        self.frag_end = self.frag_end + n;
        proof {
            assert forall|j: int| 0 <= j < self.frag_end - self.frag_start implies #[trigger] self.pending()[j] == (pend + data@)[j] by {
                if j < pend.len() {
                    assert(self.buffer@[self.frag_start + j] == old(self).buffer@[self.frag_start + j]);
                } else {
                    let k = j - pend.len();
                    assert(self.buffer@[old(self).frag_end + k] == data@[k]);
                }
            }
            assert(pend.len() == old(self).frag_end - old(self).frag_start);
            assert(self.pending().len() == pend.len() + data@.len());
            assert(self.pending() =~= pend + data@);
            old(self).lemma_pending_in_stream();
            let u = old(self).unfed();
            assert forall|j: int| 0 <= j < self.frag_end - self.fed implies #[trigger] self.unfed()[j] == (u + data@)[j] by {
                let o = self.fed - self.frag_start;
                assert(self.unfed()[j] == self.pending()[o + j]);
                if j < u.len() {
                    assert(u[j] == pend[o + j]);
                }
            }
            assert(self.unfed() =~= u + data@);
            self.stream@ = self.stream@ + data@;
            let s = self.stream@;
            let o = self.origin@;
            assert(self.pending() =~= s.subrange(self.start + self.frag_start - o, s.len() as int));
        }
    }

    /// Jumps to stream offset `offset`, dropping the buffered bytes.
    pub fn seek(&mut self, offset: u64)
        requires
            old(self).well_formed(),
        ensures
            final(self).well_formed(),
            final(self).pos() == offset,
            final(self).origin() == offset,
            final(self).stream() == Seq::<u8>::empty(),
            final(self).pending() == Seq::<u8>::empty(),
            final(self).unfed() == Seq::<u8>::empty(),
            final(self).oracle_log() == Seq::<Seq<u8>>::empty(),
            final(self).buffer_len() == old(self).buffer_len(),
            final(self).spare() == old(self).buffer_len(),
    {
        self.start = offset;
        self.frag_start = 0;
        self.frag_end = 0;
        self.fed = 0;
        self.splitter.clear();
        proof {
            self.offered@ = Seq::empty();
            self.origin@ = offset as nat;
            self.stream@ = Seq::empty();
            assert(self.pending() =~= Seq::<u8>::empty());
            assert(self.unfed() =~= Seq::<u8>::empty());
            assert(self.stream@.subrange(0, 0) =~= Seq::<u8>::empty());
        }
    }
}

} // verus!
