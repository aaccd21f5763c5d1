//! Cutting a byte stream into chunks of a fixed size.

use crate::join::contents;
use vstd::prelude::*;
use vstd::slice::{slice_subrange, slice_to_vec};

verus! {

/// How many chunks of `chunk_size` bytes it takes to hold `size` bytes: the
/// quotient rounded up.
pub open spec fn chunk_count(size: nat, chunk_size: nat) -> nat
    recommends
        chunk_size > 0,
{
    ((size + chunk_size - 1) / (chunk_size as int)) as nat
}

/// Where chunk number `i`, counted from 0, ends in a stream of `size` bytes.
pub open spec fn chunk_end(size: nat, chunk_size: nat, i: nat) -> nat {
    if (i + 1) * chunk_size <= size {
        (i + 1) * chunk_size
    } else {
        size
    }
}

/// Chunk number `i`, counted from 0, of `data`.
pub open spec fn chunk(data: Seq<u8>, chunk_size: nat, i: nat) -> Seq<u8>
    recommends
        chunk_size > 0,
        i < chunk_count(data.len(), chunk_size),
{
    data.subrange((i * chunk_size) as int, chunk_end(data.len(), chunk_size, i) as int)
}

/// The chunks of `data`, in order.
pub open spec fn chunks(data: Seq<u8>, chunk_size: nat) -> Seq<Seq<u8>>
    recommends
        chunk_size > 0,
{
    Seq::new(chunk_count(data.len(), chunk_size), |i: int| chunk(data, chunk_size, i as nat))
}

/// The count of chunks is the one number `k` for which `k` chunks hold the
/// stream and `k - 1` do not.
pub proof fn lemma_chunk_count_bounds(size: nat, chunk_size: nat, k: nat)
    requires
        chunk_size > 0,
    ensures
        (k == chunk_count(size, chunk_size)) <==> (k * chunk_size >= size && (k == 0 || (k - 1)
            * chunk_size < size)),
{
    let c = chunk_size as int;
    let n = chunk_count(size, chunk_size) as int;
    let t = size + c - 1;
    assert(t == c * (t / c) + t % c && 0 <= t % c < c) by {
        vstd::arithmetic::div_mod::lemma_fundamental_div_mod(t, c);
        vstd::arithmetic::div_mod::lemma_mod_bound(t, c);
    }
    assert(t / c >= 0) by {
        vstd::arithmetic::div_mod::lemma_div_pos_is_pos(t, c);
    }
    assert(n * c >= size && (n - 1) * c < size) by (nonlinear_arith)
        requires
            t == c * n + t % c,
            0 <= t % c < c,
            t == size + c - 1,
    ;
    if k * chunk_size >= size && (k == 0 || (k - 1) * chunk_size < size) {
        assert(k == n) by (nonlinear_arith)
            requires
                c > 0,
                n >= 0,
                k * c >= size,
                k == 0 || (k - 1) * c < size,
                n * c >= size,
                (n - 1) * c < size,
                size >= 0,
        ;
    }
}

/// Every chunk but the last is full, the last holds what is left, and an
/// empty stream has no chunk.
pub proof fn lemma_chunk_lengths(data: Seq<u8>, chunk_size: nat)
    requires
        chunk_size > 0,
    ensures
        chunks(data, chunk_size).len() == chunk_count(data.len(), chunk_size),
        data.len() == 0 ==> chunks(data, chunk_size).len() == 0,
        forall|i: int|
            0 <= i < chunk_count(data.len(), chunk_size) - 1 ==> (#[trigger] chunks(
                data,
                chunk_size,
            )[i]).len() == chunk_size,
        data.len() > 0 ==> chunks(data, chunk_size).last().len() == data.len() - chunk_size * (
        chunk_count(data.len(), chunk_size) - 1),
        data.len() > 0 ==> 0 < chunks(data, chunk_size).last().len() <= chunk_size,
{
    let size = data.len();
    let n = chunk_count(size, chunk_size);
    lemma_chunk_count_bounds(size, chunk_size, n);
    assert forall|i: int| 0 <= i < n - 1 implies (#[trigger] chunks(data, chunk_size)[i]).len()
        == chunk_size by {
        lemma_chunk_span(size, chunk_size, n, i as nat);
    }
    if size > 0 {
        lemma_chunk_span(size, chunk_size, n, (n - 1) as nat);
        assert(chunk_size * (n - 1) == (n - 1) * chunk_size) by (nonlinear_arith);
    }
}

/// Where chunk `i` of `n` begins and ends: full chunks up to the last, which
/// ends with the stream.
proof fn lemma_chunk_span(size: nat, chunk_size: nat, n: nat, i: nat)
    requires
        chunk_size > 0,
        n == chunk_count(size, chunk_size),
        i < n,
    ensures
        i * chunk_size < size,
        i + 1 < n ==> chunk_end(size, chunk_size, i) == i * chunk_size + chunk_size,
        i + 1 == n ==> chunk_end(size, chunk_size, i) == size,
        i * chunk_size < chunk_end(size, chunk_size, i) <= size,
        chunk_end(size, chunk_size, i) - i * chunk_size <= chunk_size,
{
    lemma_chunk_count_bounds(size, chunk_size, n);
    let c = chunk_size as int;
    assert((i + 1) * c == i * c + c) by (nonlinear_arith);
    assert(i * c <= (n - 1) * c) by (nonlinear_arith)
        requires
            i <= n - 1,
            c > 0,
    ;
    if i + 1 < n {
        assert((i + 1) * c <= (n - 1) * c) by (nonlinear_arith)
            requires
                i + 1 <= n - 1,
                c > 0,
        ;
    } else {
        assert((i + 1) * c == n * c);
    }
}

/// The first `k` chunks, joined, are the beginning of the stream up to the
/// end of chunk `k - 1`.
proof fn lemma_chunks_flatten_prefix(data: Seq<u8>, chunk_size: nat, k: nat)
    requires
        chunk_size > 0,
        k <= chunk_count(data.len(), chunk_size),
    ensures
        chunks(data, chunk_size).take(k as int).flatten() == data.take(
            if k == 0 {
                0
            } else {
                chunk_end(data.len(), chunk_size, (k - 1) as nat) as int
            },
        ),
    decreases k,
{
    let all = chunks(data, chunk_size);
    let n = chunk_count(data.len(), chunk_size);
    if k == 0 {
        assert(all.take(0).flatten() =~= data.take(0));
    } else {
        let i = (k - 1) as nat;
        lemma_chunks_flatten_prefix(data, chunk_size, i);
        lemma_chunk_span(data.len(), chunk_size, n, i);
        if i > 0 {
            lemma_chunk_span(data.len(), chunk_size, n, (i - 1) as nat);
            assert((i - 1) * chunk_size + chunk_size == i * chunk_size) by (nonlinear_arith);
        }
        assert(all.take(k as int) =~= all.take(i as int).push(all[i as int]));
        all.take(i as int).lemma_flatten_push(all[i as int]);
        assert(all.take(k as int).flatten() =~= data.take(
            chunk_end(data.len(), chunk_size, i) as int,
        ));
    }
}

/// The chunks of a stream, joined in order, are the stream.
pub proof fn lemma_split_then_join(data: Seq<u8>, chunk_size: nat)
    requires
        chunk_size > 0,
    ensures
        chunks(data, chunk_size).flatten() == data,
{
    let all = chunks(data, chunk_size);
    let n = chunk_count(data.len(), chunk_size);
    lemma_chunks_flatten_prefix(data, chunk_size, n);
    assert(all.take(n as int) =~= all);
    if n == 0 {
        lemma_chunk_count_bounds(data.len(), chunk_size, 0);
        assert(data.take(0) =~= data);
    } else {
        lemma_chunk_span(data.len(), chunk_size, n, (n - 1) as nat);
        assert(data.take(data.len() as int) =~= data);
    }
}

/// Cuts `data` into chunks of `chunk_size` bytes, the last one shorter where
/// the size is not a multiple. A chunk size of 0 is refused.
pub fn split_bytes(data: &[u8], chunk_size: usize) -> (parts: Option<Vec<Vec<u8>>>)
    ensures
        parts is None <==> chunk_size == 0,
        parts matches Some(p) ==> contents(p@) == chunks(data@, chunk_size as nat),
{
    if chunk_size == 0 {
        return None;
    }
    let size = data.len();
    let ghost n = chunk_count(size as nat, chunk_size as nat);
    let mut parts: Vec<Vec<u8>> = Vec::new();
    let mut start: usize = 0;
    proof {
        lemma_chunk_count_bounds(size as nat, chunk_size as nat, 0);
    }
    while start < size
        invariant
            chunk_size > 0,
            size == data@.len(),
            n == chunk_count(size as nat, chunk_size as nat),
            parts@.len() <= n,
            start <= size,
            parts@.len() < n ==> start == parts@.len() * chunk_size,
            parts@.len() == n ==> start == size,
            forall|i: int|
                0 <= i < parts@.len() ==> (#[trigger] parts@[i])@ == chunk(
                    data@,
                    chunk_size as nat,
                    i as nat,
                ),
        decreases size - start,
    {
        let ghost k = parts@.len();
        proof {
            lemma_chunk_span(size as nat, chunk_size as nat, n, k);
            assert((k + 1) * chunk_size == k * chunk_size + chunk_size) by (nonlinear_arith);
        }
        let end: usize = if size - start > chunk_size {
            start + chunk_size
        } else {
            size
        };
        let part = slice_to_vec(slice_subrange(data, start, end));
        parts.push(part);
        start = end;
    }
    proof {
        if parts@.len() < n {
            lemma_chunk_span(size as nat, chunk_size as nat, n, parts@.len());
        }
        assert(contents(parts@) =~= chunks(data@, chunk_size as nat));
    }
    Some(parts)
}

/// What the caller of a `Splitter` does next.
#[derive(Clone, Copy, Debug, PartialEq, Eq)]
pub enum SplitStep {
    /// Read again, into the buffer from `offset` on.
    Fill { offset: usize },
    /// Write the first `len` bytes of the buffer as part number `index`;
    /// after the `last` part stop, otherwise read again from the buffer's
    /// start.
    Write { index: u64, len: usize, last: bool },
    /// The stream has ended and every part is written.
    Done,
    /// The next part's number does not fit in 64 bits.
    TooManyParts,
}

/// The state of a split, as numbers.
pub struct SplitState {
    /// The size of a full part.
    pub chunk_size: nat,
    /// How many parts were handed out for writing.
    pub written: nat,
    /// How many bytes wait in the buffer.
    pub buffered: nat,
    /// Whether the split has ended.
    pub finished: bool,
}

impl SplitState {
    /// How many bytes of the stream were taken so far.
    pub open spec fn consumed(self) -> nat {
        self.written * self.chunk_size + self.buffered
    }

    /// The buffer is never full between two reads.
    pub open spec fn wf(self) -> bool {
        self.buffered < self.chunk_size && self.written <= u64::MAX && self.chunk_size
            <= usize::MAX
    }

    /// The state in which nothing more happens.
    pub open spec fn ended(self) -> SplitState {
        SplitState { buffered: 0, finished: true, ..self }
    }

    /// The state and the step after a read that returned `n` bytes. A read
    /// of nothing ends the stream: what waits in the buffer is the last,
    /// short part. Otherwise the part is written once the buffer is full.
    pub open spec fn after_read(self, n: nat) -> (SplitState, SplitStep) {
        let held = self.buffered + n;
        let complete = n == 0 || held == self.chunk_size;
        if self.finished {
            (self, SplitStep::Done)
        } else if held == 0 {
            (self.ended(), SplitStep::Done)
        } else if !complete {
            (SplitState { buffered: held, ..self }, SplitStep::Fill { offset: held as usize })
        } else if self.written == u64::MAX {
            (self.ended(), SplitStep::TooManyParts)
        } else {
            (
                SplitState { written: self.written + 1, buffered: 0, finished: n == 0, ..self },
                SplitStep::Write {
                    index: (self.written + 1) as u64,
                    len: held as usize,
                    last: n == 0,
                },
            )
        }
    }
}

/// Drives the cutting of a stream that is read piece by piece: it is told how
/// many bytes each read returned and says when a part is to be written.
#[derive(Clone, Debug)]
pub struct Splitter {
    chunk_size: usize,
    written: u64,
    buffered: usize,
    finished: bool,
}

impl Splitter {
    /// The state as numbers.
    pub closed spec fn view(&self) -> SplitState {
        SplitState {
            chunk_size: self.chunk_size as nat,
            written: self.written as nat,
            buffered: self.buffered as nat,
            finished: self.finished,
        }
    }

    /// A splitter for parts of `chunk_size` bytes, at the start of a stream.
    /// A chunk size of 0 is refused.
    pub fn new(chunk_size: usize) -> (r: Option<Splitter>)
        ensures
            r is None <==> chunk_size == 0,
            r matches Some(s) ==> s@ == (SplitState {
                chunk_size: chunk_size as nat,
                written: 0,
                buffered: 0,
                finished: false,
            }) && s@.wf(),
    {
        if chunk_size == 0 {
            None
        } else {
            Some(Splitter { chunk_size, written: 0, buffered: 0, finished: false })
        }
    }

    /// The size of a full part, which is also the size of the buffer.
    pub fn chunk_size(&self) -> (c: usize)
        ensures
            c == self@.chunk_size,
    {
        self.chunk_size
    }

    /// How many parts were handed out for writing.
    pub fn parts_written(&self) -> (k: u64)
        ensures
            k == self@.written,
    {
        self.written
    }

    /// How many bytes wait in the buffer.
    pub fn buffered(&self) -> (b: usize)
        ensures
            b == self@.buffered,
    {
        self.buffered
    }

    /// Whether the split has ended.
    pub fn is_finished(&self) -> (f: bool)
        ensures
            f == self@.finished,
    {
        self.finished
    }

    /// Takes note that a read into the free end of the buffer returned `n`
    /// bytes, and says what to do next.
    pub fn on_read(&mut self, n: usize) -> (step: SplitStep)
        requires
            old(self)@.wf(),
            n <= old(self)@.chunk_size - old(self)@.buffered,
        ensures
            final(self)@.wf(),
            (final(self)@, step) == old(self)@.after_read(n as nat),
    {
        if self.finished {
            return SplitStep::Done;
        }
        let held: usize = self.buffered + n;
        if held == 0 {
            self.finished = true;
            return SplitStep::Done;
        }
        if n != 0 && held < self.chunk_size {
            self.buffered = held;
            return SplitStep::Fill { offset: held };
        }
        self.buffered = 0;
        if self.written == u64::MAX {
            self.finished = true;
            return SplitStep::TooManyParts;
        }
        self.written = self.written + 1;
        self.finished = n == 0;
        SplitStep::Write { index: self.written, len: held, last: n == 0 }
    }
}

/// What a step of the splitter means for the stream `data` that is being
/// read. Let the reads so far have taken the first `s.consumed()` bytes of
/// `data`, and let the next read return `n` more, nothing only at the end of
/// `data`. Then a part handed out for writing is the next chunk of `data`,
/// it is the run of bytes that the buffer holds, the last part is the last
/// chunk, and the split is done only when every chunk was
/// handed out. While the split goes on, the state keeps count of the bytes
/// taken.
pub proof fn lemma_step_follows_chunks(data: Seq<u8>, s: SplitState, n: nat)
    requires
        s.wf(),
        !s.finished,
        n <= s.chunk_size - s.buffered,
        s.consumed() + n <= data.len(),
        n == 0 ==> s.consumed() == data.len(),
    ensures
        ({
            let (t, step) = s.after_read(n);
            let count = chunk_count(data.len(), s.chunk_size);
            let from = s.written * s.chunk_size;
            &&& !t.finished ==> t.consumed() == s.consumed() + n
            &&& match step {
                SplitStep::Fill { offset } => {
                    &&& from + offset == s.consumed() + n
                    &&& 0 < offset < s.chunk_size
                    &&& !t.finished
                },
                SplitStep::Write { index, len, last } => {
                    &&& index == s.written + 1
                    &&& index <= count
                    &&& last ==> index == count
                    &&& from + len == s.consumed() + n
                    &&& data.subrange(from as int, from + len) == chunk(
                        data,
                        s.chunk_size,
                        s.written,
                    )
                    &&& t.finished == last
                },
                SplitStep::Done => s.written == count && t.finished,
                SplitStep::TooManyParts => s.written == u64::MAX && s.written < count,
            }
        }),
{
    let c = s.chunk_size;
    let size = data.len();
    let k = s.written;
    let held = s.buffered + n;
    assert((k + 1) * c == k * c + c) by (nonlinear_arith);
    lemma_chunk_count_bounds(size, c, k);
    lemma_chunk_count_bounds(size, c, k + 1);
    lemma_chunk_count_bounds(size, c, chunk_count(size, c));
    let count = chunk_count(size, c);
    let (t, step) = s.after_read(n);
    if held == 0 {
        assert((k - 1) * c == k * c - c) by (nonlinear_arith);
        assert(k == count);
    } else if n != 0 && held < c {
        assert(step == SplitStep::Fill { offset: held as usize });
    } else {
        assert(k * c < size);
        assert(k < count) by (nonlinear_arith)
            requires
                count * c >= size,
                k * c < size,
                c > 0,
        ;
        if n == 0 {
            assert(k + 1 == count);
        }
        assert(chunk_end(size, c, k) == k * c + held);
        if k < u64::MAX {
            assert(step == SplitStep::Write {
                index: (k + 1) as u64,
                len: held as usize,
                last: n == 0,
            });
        }
    }
}

} // verus!
