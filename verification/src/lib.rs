//! Pull-style byte sources, and readers stacked on them: one that fills a buffer
//! or reports the short read, one that counts the bytes passing through, and, in
//! `conv`, one that replaces a pattern in the stream while it passes.
//!
//! Every source has a model, the sequence of bytes it has yet to deliver, and the
//! contracts say of each pull which of those bytes it hands out.
use std::sync::atomic::{AtomicUsize, Ordering};
use std::sync::Arc;
use vstd::prelude::*;

pub mod conv;

verus! {

/// `std::io::Error`, declared so that a failure can be handed on as it came.
/// Nothing is claimed of what it holds.
#[verifier::external_type_specification]
#[verifier::external_body]
pub struct ExIoError(std::io::Error);

/// A stream of bytes, as the contracts speak of it.
pub type Stream = Seq<u8>;

/// A pull-style byte source: each `read` hands out the next bytes of a stream.
pub trait ByteSource {
    /// The bytes that the source has yet to deliver, in order.
    spec fn remaining(&self) -> Stream;

    /// Whether a pull from the source may report a failure.
    spec fn can_fail(&self) -> bool;

    /// Well-formedness of the source.
    spec fn inv(&self) -> bool;

    /// Pulls the next bytes of the stream into the front of `buf` and returns how
    /// many they are: at most `buf.len()`, and none only if `buf` is empty or the
    /// stream is at its end. A failure says nothing of what became of the stream.
    fn read(&mut self, buf: &mut [u8]) -> (res: Result<usize, std::io::Error>)
        requires
            old(self).inv(),
        ensures
            final(self).inv(),
            final(self).can_fail() == old(self).can_fail(),
            final(buf)@.len() == old(buf)@.len(),
            res is Err ==> old(self).can_fail(),
            res matches Ok(n) ==> {
                &&& n <= old(buf)@.len()
                &&& n <= old(self).remaining().len()
                &&& (n == 0 ==> old(buf)@.len() == 0 || old(self).remaining().len() == 0)
                &&& final(buf)@.take(n as int) == old(self).remaining().take(n as int)
                &&& final(self).remaining() == old(self).remaining().skip(n as int)
            },
    ;
}

/// A slice is a source of its own bytes; reading from it shortens it from the front.
impl<'a> ByteSource for &'a [u8] {
    open spec fn remaining(&self) -> Stream {
        (*self)@
    }

    open spec fn can_fail(&self) -> bool {
        false
    }

    open spec fn inv(&self) -> bool {
        true
    }

    /// Hands out as much of the slice as `buf` holds, and keeps the rest.
    fn read(&mut self, buf: &mut [u8]) -> (res: Result<usize, std::io::Error>)
        ensures
            res matches Ok(n) && n == if old(buf)@.len() < old(self)@.len() {
                old(buf)@.len()
            } else {
                old(self)@.len()
            },
            res matches Ok(n) ==> final(buf)@.skip(n as int) == old(buf)@.skip(n as int),
    {
        let n: usize = if buf.len() < self.len() { buf.len() } else { self.len() };
        let mut i: usize = 0;
        while i < n
            invariant
                i <= n,
                n <= buf@.len(),
                n <= (*self)@.len(),
                buf@.len() == old(buf)@.len(),
                *self == *old(self),
                forall|j: int| 0 <= j < i ==> buf@[j] == (*self)@[j],
                forall|j: int| i <= j < buf@.len() ==> buf@[j] == old(buf)@[j],
            decreases n - i,
        {
            buf[i] = self[i];
            i += 1;
        }
        *self = vstd::slice::slice_subrange(*self, n, self.len());
        Ok(n)
    }
}

/// Pulls from `r` until `buffer` is full or `r` is at its end, and returns how
/// many bytes were placed: `buffer.len()` where the stream had that many left,
/// and all that was left where it had fewer. The first failure of `r` is handed
/// on, without the count of what had been placed before it.
pub fn read_full<R: ByteSource>(buffer: &mut [u8], r: &mut R) -> (res: Result<
    usize,
    std::io::Error,
>)
    requires
        old(r).inv(),
    ensures
        final(r).inv(),
        final(r).can_fail() == old(r).can_fail(),
        final(buffer)@.len() == old(buffer)@.len(),
        res is Err ==> old(r).can_fail(),
        res matches Ok(n) ==> {
            &&& n == old(buffer)@.len() || n == old(r).remaining().len()
            &&& n <= old(buffer)@.len()
            &&& n <= old(r).remaining().len()
            &&& final(buffer)@.take(n as int) == old(r).remaining().take(n as int)
            &&& final(r).remaining() == old(r).remaining().skip(n as int)
        },
{
    let mut len_read: usize = 0;
    let total: usize = buffer.len();
    loop
        invariant
            r.inv(),
            r.can_fail() == old(r).can_fail(),
            buffer@.len() == old(buffer)@.len(),
            total == buffer@.len(),
            len_read <= total,
            len_read <= old(r).remaining().len(),
            buffer@.take(len_read as int) == old(r).remaining().take(len_read as int),
            r.remaining() == old(r).remaining().skip(len_read as int),
        decreases total - len_read, r.remaining().len(),
    {
        let ghost before = r.remaining();
        let (_head, tail) = buffer.split_at_mut(len_read);
        match r.read(tail) {
            Ok(size) => {
                proof {
                    let stream = old(r).remaining();
                    assert(buffer@.take(len_read + size) =~= stream.take(len_read + size)) by {
                        assert forall|j: int| 0 <= j < len_read + size implies buffer@[j]
                            == stream[j] by {
                            if j >= len_read {
                                assert(stream[j] == before.take(size as int)[j - len_read]);
                            }
                        }
                    }
                }
                len_read += size;
                if size == 0 || total == len_read {
                    return Ok(len_read);
                }
            },
            Err(e) => {
                return Err(e);
            },
        }
    }
}

/// Pulls `r` dry and appends everything it delivers to `out`. Returns how many
/// bytes that were. Where `r` fails, `out` keeps what had been delivered until then.
pub fn read_to_end<R: ByteSource>(r: &mut R, out: &mut Vec<u8>) -> (res: Result<
    usize,
    std::io::Error,
>)
    requires
        old(r).inv(),
    ensures
        final(r).inv(),
        final(r).can_fail() == old(r).can_fail(),
        res is Err ==> old(r).can_fail(),
        res matches Ok(n) ==> {
            &&& n == old(r).remaining().len()
            &&& final(out)@ == old(out)@ + old(r).remaining()
            &&& final(r).remaining().len() == 0
        },
        res is Err ==> exists|k: int|
            0 <= k <= old(r).remaining().len() && final(out)@ == old(out)@
                + #[trigger] old(r).remaining().take(k),
{
    let mut chunk: Vec<u8> = Vec::new();
    while chunk.len() < 32
        invariant
            chunk@.len() <= 32,
        decreases 32 - chunk@.len(),
    {
        chunk.push(0);
    }
    let start = out.len();
    loop
        invariant
            r.inv(),
            r.can_fail() == old(r).can_fail(),
            chunk@.len() == 32,
            start == old(out)@.len(),
            start <= out@.len() <= start + old(r).remaining().len(),
            out@ == old(out)@ + old(r).remaining().take(out@.len() - start),
            r.remaining() == old(r).remaining().skip(out@.len() - start),
        decreases r.remaining().len(),
    {
        let ghost before = r.remaining();
        let ghost gathered = out@;
        match r.read(chunk.as_mut_slice()) {
            Ok(size) => {
                if size == 0 {
                    return Ok(out.len() - start);
                }
                let mut i: usize = 0;
                while i < size
                    invariant
                        i <= size <= chunk@.len(),
                        size <= before.len(),
                        chunk@.take(size as int) == before.take(size as int),
                        out@ == gathered + before.take(i as int),
                    decreases size - i,
                {
                    out.push(chunk[i]);
                    i += 1;
                }
            },
            Err(e) => {
                return Err(e);
            },
        }
    }
}

/// A sink that accepts every byte and keeps none.
pub struct BlackHole {}

impl BlackHole {
    /// Takes all of `buf`.
    pub fn write(&mut self, buf: &[u8]) -> (res: Result<usize, std::io::Error>)
        ensures
            res matches Ok(n) && n == buf@.len(),
    {
        Ok(buf.len())
    }

    /// Has nothing to flush.
    pub fn flush(&mut self) -> (res: Result<(), std::io::Error>)
        ensures
            res is Ok,
    {
        Ok(())
    }
}

/// The sum of two machine words, reduced modulo the word size.
pub open spec fn wrapped_sum(a: usize, b: usize) -> usize {
    if a + b <= usize::MAX {
        (a + b) as usize
    } else {
        (a + b - usize::MAX - 1) as usize
    }
}

/// Adds `size` to the shared cell.
fn publish(counter: &Arc<AtomicUsize>, size: usize) {
    counter.fetch_add(size, Ordering::Relaxed);
}

/// The reading end of a `MeteringReader`: a byte source that counts what it hands on.
pub struct MeteringReaderHandle<'a, R: ByteSource> {
    underlying_reader: &'a mut R,
    /// The running total that the contracts speak of.
    total: usize,
    /// The shared cell to which every pull adds its bytes, for whoever holds it.
    counter: Arc<AtomicUsize>,
}

impl<'a, R: ByteSource> MeteringReaderHandle<'a, R> {
    /// How many bytes have passed through, modulo the word size.
    pub closed spec fn count(&self) -> usize {
        self.total
    }

    /// The shared cell to which every pull adds its bytes. It is one and the same
    /// for as long as the handle lives.
    pub closed spec fn cell(&self) -> Arc<AtomicUsize> {
        self.counter
    }
}

impl<'a, R: ByteSource> ByteSource for MeteringReaderHandle<'a, R> {
    closed spec fn remaining(&self) -> Stream {
        self.underlying_reader.remaining()
    }

    closed spec fn can_fail(&self) -> bool {
        self.underlying_reader.can_fail()
    }

    closed spec fn inv(&self) -> bool {
        self.underlying_reader.inv()
    }

    /// Hands on what upstream delivers and adds its length to the total.
    fn read(&mut self, buf: &mut [u8]) -> (res: Result<usize, std::io::Error>)
        ensures
            final(self).cell() == old(self).cell(),
            res matches Ok(n) ==> final(self).count() == wrapped_sum(old(self).count(), n),
            res is Err ==> final(self).count() == old(self).count(),
    {
        match self.underlying_reader.read(buf) {
            Ok(size) => {
                self.total = self.total.wrapping_add(size);
                publish(&self.counter, size);
                Ok(size)
            },
            Err(e) => Err(e),
        }
    }
}

/// Wraps a byte source and keeps a running total of the bytes that pass through it.
///
/// `as_reader` gives the source to read from; `get_counter` gives the total. The total
/// is also published to a shared cell, which `counter` hands out and which lives as
/// long as anyone holds it.
pub struct MeteringReader<'a, R: ByteSource> {
    inner: MeteringReaderHandle<'a, R>,
}

impl<'a, R: ByteSource> MeteringReader<'a, R> {
    /// The reading end, as a value.
    pub closed spec fn handle(&self) -> MeteringReaderHandle<'a, R> {
        self.inner
    }

    /// Wraps `r` with the total at zero. Nothing is pulled from `r` yet.
    pub fn new(r: &'a mut R) -> (m: Self)
        requires
            old(r).inv(),
        ensures
            m.handle().inv(),
            m.handle().remaining() == old(r).remaining(),
            m.handle().can_fail() == old(r).can_fail(),
            m.handle().count() == 0,
    {
        let counter = Arc::new(AtomicUsize::new(0));
        MeteringReader { inner: MeteringReaderHandle { underlying_reader: r, total: 0, counter } }
    }

    /// The end to read from.
    pub fn as_reader(&mut self) -> (h: &mut MeteringReaderHandle<'a, R>)
        ensures
            *h == old(self).handle(),
            final(self).handle() == *final(h),
    {
        &mut self.inner
    }

    /// How many bytes have passed through so far, modulo the word size.
    pub fn get_counter(&self) -> (c: usize)
        ensures
            c == self.handle().count(),
    {
        self.inner.total
    }

    /// The shared cell to which the reading end adds the bytes of every pull: the
    /// same cell at every call, whatever has been read in between.
    pub fn counter(&self) -> (cell: &Arc<AtomicUsize>)
        ensures
            *cell == self.handle().cell(),
    {
        &self.inner.counter
    }
}

} // verus!
