//! A reader that rewrites a byte stream while it is pulled.
//!
//! `replace` says what the rewritten stream is; `ring` describes the buffer that
//! the reader keeps; this file holds the reader and the proof that what it
//! delivers, pull after pull, is the rewritten stream.
use crate::conv::replace::{
    lemma_occurs_append, lemma_occurs_skip, lemma_replace_verbatim, none_before, occurs_at,
    replace_all,
};
use crate::conv::ring::{lemma_span_piece, ring_index, ring_span};
use crate::{read_full, ByteSource, Stream};
use vstd::prelude::*;

pub mod replace;
pub mod ring;

verus! {

/// Which half of the ring was filled last.
enum ReplacingReaderState {
    /// Nothing has been pulled from upstream yet.
    NotInitialized,
    /// The upper half is the newer one: the stream runs through the ring from its start.
    LastReadIsMiddle,
    /// The lower half is the newer one: the stream runs from the upper half on into the lower.
    LastReadIsStart,
}

/// Wraps a byte source and replaces, while the bytes pass, every occurrence of one
/// pattern by another. It holds a ring of twice the search pattern's length and
/// never more of the stream than that.
///
/// Occurrences are taken from the left: where two overlap, the one that starts
/// first is replaced and the search goes on behind it. What comes out is
/// `replace_all` of what comes in.
pub struct ReplacingReader<'a, R: ByteSource> {
    underlying_reader: &'a mut R,
    /// The ring, in two halves of the search pattern's length each.
    buffer: Vec<u8>,
    old_pattern: &'a [u8],
    new_pattern: &'a [u8],
    /// Where in the ring the next byte to deliver stands.
    read_ptr: usize,
    state: ReplacingReaderState,
    /// Where in the ring the stream ends, once upstream has run dry.
    eof_position: Option<usize>,
    /// Where in the ring the next occurrence starts, if one is known.
    next_match_ptr: Option<usize>,
    /// How much of the replacement has been delivered, while one is being delivered.
    serve_new_ptr: Option<usize>,
}

/// Copies `count` bytes of `src`, from `from` on, to the front of `dst`.
fn copy_span(src: &[u8], from: usize, dst: &mut [u8], count: usize)
    requires
        from + count <= src@.len(),
        count <= old(dst)@.len(),
    ensures
        final(dst)@.len() == old(dst)@.len(),
        final(dst)@.take(count as int) == src@.subrange(from as int, from + count),
        final(dst)@.skip(count as int) == old(dst)@.skip(count as int),
{
    let mut i: usize = 0;
    while i < count
        invariant
            i <= count,
            from + count <= src.len(),
            count <= dst@.len(),
            dst@.len() == old(dst)@.len(),
            forall|j: int| 0 <= j < i ==> dst@[j] == src@[from + j],
            forall|j: int| i <= j < dst@.len() ==> dst@[j] == old(dst)@[j],
        decreases count - i,
    {
        dst[i] = src[from + i];
        i += 1;
    }
}

impl<'a, R: ByteSource> ReplacingReader<'a, R> {
    /// The upstream source, as the reader holds it.
    pub closed spec fn source(&self) -> R {
        *self.underlying_reader
    }

    /// The pattern that is searched for.
    pub closed spec fn search(&self) -> Seq<u8> {
        self.old_pattern@
    }

    /// The pattern that takes its place.
    pub closed spec fn replacement(&self) -> Seq<u8> {
        self.new_pattern@
    }

    /// Whether upstream has reported the end of its stream.
    pub closed spec fn upstream_dry(&self) -> bool {
        self.eof_position is Some
    }

    /// The bytes pulled from upstream that stand in the ring, undelivered, in
    /// stream order.
    pub closed spec fn held(&self) -> Seq<u8> {
        ring_span(self.buffer@, self.read_ptr as int, self.buffered())
    }

    /// What is left to deliver of a replacement under way.
    pub closed spec fn replacement_left(&self) -> Seq<u8> {
        match self.serve_new_ptr {
            Some(k) => self.new_pattern@.skip(k as int),
            None => Seq::empty(),
        }
    }

    /// What the reader would deliver if `upstream` were all that its source had
    /// left: the rest of a replacement under way, then the replacement of what it
    /// holds and of `upstream`.
    pub closed spec fn would_deliver(&self, upstream: Stream) -> Stream {
        self.replacement_left() + replace_all(
            self.held() + upstream,
            self.old_pattern@,
            self.new_pattern@,
        )
    }

    /// The length of the search pattern, which is half the ring.
    spec fn half(&self) -> int {
        self.old_pattern@.len() as int
    }

    /// The size of the ring.
    spec fn cap(&self) -> int {
        self.buffer@.len() as int
    }

    /// How many bytes of the stream stand in the ring, undelivered.
    spec fn buffered(&self) -> int {
        let rp = self.read_ptr as int;
        match self.state {
            ReplacingReaderState::NotInitialized => 0,
            ReplacingReaderState::LastReadIsMiddle => match self.eof_position {
                Some(e) => if rp <= e { e - rp } else { self.cap() - rp + e },
                None => self.cap() - rp,
            },
            ReplacingReaderState::LastReadIsStart => match self.eof_position {
                Some(e) => if rp <= e { e - rp } else { self.cap() - rp + e },
                None => if rp >= self.half() { self.cap() - rp + self.half() } else { self.half() - rp },
            },
        }
    }

    /// How many of the undelivered bytes are known to start no occurrence
    /// when none is recorded.
    spec fn servable(&self) -> int {
        let rp = self.read_ptr as int;
        match self.state {
            ReplacingReaderState::NotInitialized => 0,
            ReplacingReaderState::LastReadIsMiddle => match self.eof_position {
                Some(_) => self.buffered(),
                None => if rp < self.half() { self.half() - rp } else { 0 },
            },
            ReplacingReaderState::LastReadIsStart => match self.eof_position {
                Some(_) => self.buffered(),
                None => if rp >= self.half() { self.cap() - rp } else { 0 },
            },
        }
    }

    /// The input that has not been delivered, replaced or dropped yet.
    spec fn input_rest(&self) -> Seq<u8> {
        self.held() + self.underlying_reader.remaining()
    }

    /// The cursors fit the ring and each other.
    spec fn structural(&self) -> bool {
        let rp = self.read_ptr as int;
        &&& self.half() >= 1
        &&& self.cap() == 2 * self.half()
        &&& self.cap() <= usize::MAX
        &&& rp < self.cap()
        &&& 0 <= self.buffered() <= self.cap()
        &&& (self.serve_new_ptr matches Some(k) ==> k <= self.new_pattern@.len())
        &&& (self.eof_position matches Some(e) ==> e < self.cap() && self.buffered() < self.cap()
            && !(self.state is NotInitialized))
        &&& (self.state is NotInitialized ==> self.next_match_ptr is None && rp == 0)
        &&& (self.next_match_ptr matches Some(m) ==> {
            &&& rp <= m < self.cap()
            &&& m - rp + self.half() <= self.buffered()
            &&& self.eof_position is None && self.state is LastReadIsMiddle ==> m < self.half()
            &&& self.eof_position is None && self.state is LastReadIsStart ==> m >= self.half()
        })
    }

    /// What the scans have established of the undelivered input.
    spec fn scanned(&self) -> bool {
        &&& (self.eof_position is Some ==> self.underlying_reader.remaining().len() == 0)
        &&& match self.next_match_ptr {
            Some(m) => {
                &&& occurs_at(self.input_rest(), self.old_pattern@, m - self.read_ptr)
                &&& none_before(self.input_rest(), self.old_pattern@, m - self.read_ptr)
            },
            None => none_before(self.input_rest(), self.old_pattern@, self.servable()),
        }
    }

    /// A step that pulls nothing has left the patterns, the upstream source and
    /// what is known of its end as they were in `before`.
    spec fn unmoved(&self, before: &Self) -> bool {
        &&& self.old_pattern == before.old_pattern
        &&& self.new_pattern == before.new_pattern
        &&& self.eof_position == before.eof_position
        &&& self.underlying_reader == before.underlying_reader
    }

    /// The cursors and the phase are those of `before`.
    spec fn cursors_of(&self, before: &Self) -> bool {
        &&& self.state == before.state
        &&& self.read_ptr == before.read_ptr
        &&& self.eof_position == before.eof_position
        &&& self.next_match_ptr == before.next_match_ptr
        &&& self.serve_new_ptr == before.serve_new_ptr
    }

    /// How many steps a pull may still take before it delivers or the input shrinks.
    spec fn rank(&self) -> nat {
        if self.serve_new_ptr is Some {
            2
        } else if self.next_match_ptr is None && (self.state is NotInitialized || (
        self.eof_position is None && self.servable() == 0)) {
            1
        } else {
            0
        }
    }

    /// Wraps `r` so that every occurrence of `old_pattern` in its stream comes out
    /// as `new_pattern`. Nothing is pulled from `r` before the first `read`.
    pub fn new(r: &'a mut R, old_pattern: &'a [u8], new_pattern: &'a [u8]) -> (reader: Self)
        requires
            old(r).inv(),
            old_pattern@.len() >= 1,
            2 * old_pattern@.len() <= usize::MAX,
        ensures
            reader.inv(),
            reader.source() == *old(r),
            reader.search() == old_pattern@,
            reader.replacement() == new_pattern@,
            !reader.upstream_dry(),
            reader.can_fail() == old(r).can_fail(),
            reader.remaining() == replace_all(old(r).remaining(), old_pattern@, new_pattern@),
    {
        let mut buffer: Vec<u8> = Vec::new();
        let cap: usize = 2 * old_pattern.len();
        while buffer.len() < cap
            invariant
                buffer@.len() <= cap,
                cap == 2 * old_pattern@.len(),
            decreases cap - buffer@.len(),
        {
            buffer.push(0);
        }
        ReplacingReader {
            underlying_reader: r,
            old_pattern,
            new_pattern,
            read_ptr: 0,
            buffer,
            state: ReplacingReaderState::NotInitialized,
            eof_position: None,
            next_match_ptr: None,
            serve_new_ptr: None,
        }
    }

    /// A reader never holds more of the stream than twice the search pattern's
    /// length. What it has yet to deliver is what is left of a replacement under
    /// way, and then the replacement of all it holds and all upstream has yet to
    /// deliver.
    pub proof fn lemma_bounded_window(&self)
        requires
            self.inv(),
        ensures
            self.search().len() >= 1,
            self.held().len() <= 2 * self.search().len(),
            self.replacement_left().len() <= self.replacement().len(),
            self.upstream_dry() ==> self.source().remaining().len() == 0,
            self.remaining() == self.would_deliver(self.source().remaining()),
            forall|upstream: Stream| #[trigger]
                self.would_deliver(upstream) == self.replacement_left() + replace_all(
                    self.held() + upstream,
                    self.search(),
                    self.replacement(),
                ),
    {
    }

    /// Whether the search pattern stands in the ring from `start` on, going round.
    fn try_match_from(&self, start: usize) -> (matched: bool)
        requires
            self.structural(),
            start < self.cap(),
        ensures
            matched == (ring_span(self.buffer@, start as int, self.half()) == self.old_pattern@),
    {
        let mut ptr = start;
        let mut match_len = 0usize;
        loop
            invariant
                self.structural(),
                start < self.cap(),
                match_len <= self.half(),
                ptr < self.cap(),
                ptr == ring_index(self.cap(), start as int, match_len as int),
                forall|i: int|
                    0 <= i < match_len ==> self.buffer@[ring_index(self.cap(), start as int, i)]
                        == self.old_pattern@[i],
            decreases self.half() - match_len,
        {
            if match_len == self.old_pattern.len() {
                assert(ring_span(self.buffer@, start as int, self.half()) =~= self.old_pattern@);
                return true;
            }
            if self.buffer[ptr] == self.old_pattern[match_len] {
                match_len += 1;
                ptr += 1;
                if ptr == self.buffer.len() {
                    ptr = 0;
                }
            } else {
                return false;
            }
        }
    }

    /// The first of the `count` ring positions from `from` on at which the search
    /// pattern stands.
    fn find_match(&self, from: usize, count: usize) -> (found: Option<usize>)
        requires
            self.structural(),
            from + count <= self.cap(),
        ensures
            match found {
                Some(m) => {
                    &&& from <= m < from + count
                    &&& ring_span(self.buffer@, m as int, self.half()) == self.old_pattern@
                    &&& forall|s: int|
                        from <= s < m ==> ring_span(self.buffer@, s, self.half())
                            != self.old_pattern@
                },
                None => forall|s: int|
                    from <= s < from + count ==> ring_span(self.buffer@, s, self.half())
                        != self.old_pattern@,
            },
    {
        let mut guess_start = from;
        let end = from + count;
        while guess_start < end
            invariant
                self.structural(),
                from <= guess_start <= end,
                end == from + count,
                end <= self.cap(),
                forall|s: int|
                    from <= s < guess_start ==> ring_span(self.buffer@, s, self.half())
                        != self.old_pattern@,
            decreases end - guess_start,
        {
            if self.try_match_from(guess_start) {
                return Some(guess_start);
            }
            guess_start += 1;
        }
        None
    }

    /// A position `j` bytes past the read cursor starts an occurrence in the
    /// undelivered input exactly if the pattern stands there in the ring.
    proof fn lemma_window_occurs(&self, j: int)
        requires
            self.structural(),
            0 <= j,
            j + self.half() <= self.buffered(),
            self.read_ptr + j < self.cap(),
        ensures
            occurs_at(self.input_rest(), self.old_pattern@, j) == (ring_span(
                self.buffer@,
                self.read_ptr + j,
                self.half(),
            ) == self.old_pattern@),
    {
        lemma_occurs_append(
            self.held(),
            self.underlying_reader.remaining(),
            self.old_pattern@,
            j,
        );
        lemma_span_piece(self.buffer@, self.read_ptr as int, self.buffered(), j, self.half());
    }

    /// Moving the read cursor `n` places on drops `n` bytes from the undelivered input.
    proof fn lemma_advance(before: &Self, after: &Self, n: int)
        requires
            before.structural(),
            0 <= n <= before.buffered(),
            after.buffer == before.buffer,
            after.underlying_reader == before.underlying_reader,
            after.read_ptr == ring_index(before.cap(), before.read_ptr as int, n),
            after.buffered() == before.buffered() - n,
        ensures
            after.held() == before.held().skip(n),
            after.input_rest() == before.input_rest().skip(n),
    {
    }

    /// Delivers what is left of the replacement, as far as `buf` has room.
    fn serve_replacement(&mut self, buf: &mut [u8], new_ptr: usize) -> (n: usize)
        requires
            old(self).inv(),
            old(self).serve_new_ptr == Some(new_ptr),
            new_ptr < old(self).new_pattern@.len(),
        ensures
            final(self).inv(),
            final(self).can_fail() == old(self).can_fail(),
            final(buf)@.len() == old(buf)@.len(),
            n <= old(buf)@.len(),
            n <= old(self).remaining().len(),
            n == 0 ==> old(buf)@.len() == 0,
            final(buf)@.take(n as int) == old(self).remaining().take(n as int),
            final(buf)@.skip(n as int) == old(buf)@.skip(n as int),
            final(self).remaining() == old(self).remaining().skip(n as int),
            final(self).unmoved(old(self)),
    {
        let buf_available = buf.len();
        let remaining_new_pattern_len = self.new_pattern.len() - new_ptr;
        if remaining_new_pattern_len > buf_available {
            copy_span(self.new_pattern, new_ptr, buf, buf_available);
            self.serve_new_ptr = Some(new_ptr + buf_available);
            buf_available
        } else {
            copy_span(self.new_pattern, new_ptr, buf, remaining_new_pattern_len);
            self.serve_new_ptr = None;
            remaining_new_pattern_len
        }
    }

    /// Delivers up to `limit` bytes from the read cursor on as they stand.
    fn serve_verbatim(&mut self, buf: &mut [u8], limit: usize) -> (n: usize)
        requires
            old(self).inv(),
            old(self).serve_new_ptr is None,
            old(self).read_ptr + limit <= old(self).cap(),
            match old(self).next_match_ptr {
                Some(m) => limit <= m - old(self).read_ptr,
                None => limit <= old(self).servable(),
            },
        ensures
            final(self).inv(),
            final(self).can_fail() == old(self).can_fail(),
            final(buf)@.len() == old(buf)@.len(),
            n == if old(buf)@.len() < limit { old(buf)@.len() } else { limit as nat },
            n <= old(self).remaining().len(),
            final(buf)@.take(n as int) == old(self).remaining().take(n as int),
            final(buf)@.skip(n as int) == old(buf)@.skip(n as int),
            final(self).remaining() == old(self).remaining().skip(n as int),
            final(self).read_ptr == ring_index(old(self).cap(), old(self).read_ptr as int, n as int),
            final(self).next_match_ptr == old(self).next_match_ptr,
            final(self).serve_new_ptr is None,
            final(self).buffered() == old(self).buffered() - n,
            final(self).input_rest() == old(self).input_rest().skip(n as int),
            final(self).unmoved(old(self)),
    {
        let buf_available = buf.len();
        let n = if buf_available < limit { buf_available } else { limit };
        let ghost before = *self;
        copy_span(self.buffer.as_slice(), self.read_ptr, buf, n);
        self.read_ptr += n;
        if self.read_ptr == self.buffer.len() {
            self.read_ptr = 0;
        }
        proof {
            let rest = before.input_rest();
            let pat = self.old_pattern@;
            Self::lemma_advance(&before, self, n as int);
            lemma_replace_verbatim(rest, pat, self.new_pattern@, n as int);
            assert forall|j: int| 0 <= j implies occurs_at(self.input_rest(), pat, j)
                == occurs_at(rest, pat, j + n) by {
                lemma_occurs_skip(rest, pat, n as int, j);
            }
        }
        n
    }

    /// Steps over the occurrence that starts at the read cursor and turns to
    /// delivering the replacement.
    fn skip_match(&mut self)
        requires
            old(self).inv(),
            old(self).serve_new_ptr is None,
            old(self).next_match_ptr == Some(old(self).read_ptr),
        ensures
            final(self).inv(),
            final(self).can_fail() == old(self).can_fail(),
            final(self).remaining() == old(self).remaining(),
            final(self).input_rest().len() < old(self).input_rest().len(),
            final(self).unmoved(old(self)),
    {
        let ghost before = *self;
        self.serve_new_ptr = Some(0);
        // the ring is two patterns long: half a turn on, whichever way is in range
        if self.read_ptr >= self.old_pattern.len() {
            self.read_ptr -= self.old_pattern.len();
        } else {
            self.read_ptr += self.old_pattern.len();
        }
        self.next_match_ptr = None;
        proof {
            Self::lemma_advance(&before, self, self.half());
        }
    }

    /// Records the first occurrence among the `count` positions from the read
    /// cursor on, once a fill has brought new bytes into the ring.
    fn rescan(&mut self, count: usize)
        requires
            old(self).underlying_reader.inv(),
            old(self).structural(),
            old(self).next_match_ptr is None,
            !(old(self).state is NotInitialized),
            old(self).read_ptr + count <= old(self).cap(),
            old(self).eof_position is Some ==> old(self).underlying_reader.remaining().len() == 0,
            count == if old(self).eof_position is Some {
                if old(self).buffered() >= old(self).half() {
                    old(self).buffered() - old(self).half() + 1
                } else {
                    0
                }
            } else {
                old(self).servable()
            },
            old(self).eof_position is None ==> old(self).servable() + old(self).half()
                <= old(self).buffered(),
        ensures
            final(self).inv(),
            final(self).can_fail() == old(self).can_fail(),
            final(self).input_rest() == old(self).input_rest(),
            final(self).replacement_left() == old(self).replacement_left(),
            final(self).remaining() == old(self).remaining(),
            final(self).serve_new_ptr == old(self).serve_new_ptr,
            final(self).next_match_ptr is Some || final(self).eof_position is Some
                || final(self).servable() > 0 || count == 0,
            final(self).state == old(self).state,
            final(self).read_ptr == old(self).read_ptr,
            final(self).unmoved(old(self)),
    {
        let found = self.find_match(self.read_ptr, count);
        let ghost before = *self;
        self.next_match_ptr = found;
        proof {
            let rest = self.input_rest();
            let pat = self.old_pattern@;
            assert forall|j: int| 0 <= j < count implies occurs_at(rest, pat, j) == (ring_span(
                self.buffer@,
                self.read_ptr + j,
                self.half(),
            ) == pat) by {
                before.lemma_window_occurs(j);
            }
        }
    }

    /// Bytes pulled from upstream into the ring behind the undelivered ones leave
    /// the undelivered input as it was.
    proof fn lemma_fill(before: &Self, after: &Self, n: int)
        requires
            before.structural() || before.state is NotInitialized,
            before.read_ptr < before.cap(),
            0 <= before.buffered(),
            after.buffer@.len() == before.buffer@.len(),
            after.read_ptr == before.read_ptr,
            0 <= n <= before.underlying_reader.remaining().len(),
            after.buffered() == before.buffered() + n,
            after.buffered() <= before.cap(),
            after.underlying_reader.remaining() == before.underlying_reader.remaining().skip(n),
            forall|i: int|
                0 <= i < before.buffered() ==> after.buffer@[ring_index(
                    before.cap(),
                    before.read_ptr as int,
                    i,
                )] == before.buffer@[ring_index(before.cap(), before.read_ptr as int, i)],
            forall|i: int|
                0 <= i < n ==> after.buffer@[ring_index(
                    before.cap(),
                    before.read_ptr as int,
                    before.buffered() + i,
                )] == before.underlying_reader.remaining()[i],
        ensures
            after.input_rest() == before.input_rest(),
    {
    }

    /// The first fill: the whole ring.
    fn initialize(&mut self) -> (res: Result<(), std::io::Error>)
        requires
            old(self).inv(),
            old(self).state is NotInitialized,
        ensures
            final(self).inv(),
            final(self).can_fail() == old(self).can_fail(),
            final(self).serve_new_ptr == old(self).serve_new_ptr,
            final(self).old_pattern == old(self).old_pattern,
            final(self).new_pattern == old(self).new_pattern,
            res is Err ==> {
                &&& old(self).can_fail()
                &&& final(self).held() == old(self).held()
                &&& final(self).cursors_of(old(self))
            },
            res is Ok ==> {
                &&& final(self).state is LastReadIsMiddle
                &&& final(self).read_ptr == old(self).read_ptr
                &&& final(self).remaining() == old(self).remaining()
                &&& final(self).input_rest() == old(self).input_rest()
                &&& (final(self).next_match_ptr is Some || final(self).eof_position is Some
                    || final(self).servable() > 0)
            },
    {
        let ghost before = *self;
        match read_full(self.buffer.as_mut_slice(), self.underlying_reader) {
            Ok(read_len) => {
                let mut count = self.old_pattern.len();
                if read_len < self.buffer.len() {
                    // upstream has run dry already
                    self.eof_position = Some(read_len);
                    count = if read_len >= self.old_pattern.len() {
                        read_len - self.old_pattern.len() + 1
                    } else {
                        0
                    };
                }
                self.state = ReplacingReaderState::LastReadIsMiddle;
                proof {
                    let up = before.underlying_reader.remaining();
                    assert forall|i: int| 0 <= i < read_len implies self.buffer@[i] == up[i] by {
                        assert(self.buffer@.take(read_len as int)[i] == up.take(read_len as int)[i]);
                    }
                    Self::lemma_fill(&before, self, read_len as int);
                }
                self.rescan(count);
                Ok(())
            },
            Err(e) => Err(e),
        }
    }

    /// Fills the lower half while the upper one is being delivered.
    fn fill_lower(&mut self) -> (res: Result<(), std::io::Error>)
        requires
            old(self).inv(),
            old(self).state is LastReadIsMiddle,
            old(self).eof_position is None,
            old(self).next_match_ptr is None,
            old(self).read_ptr >= old(self).half(),
        ensures
            final(self).inv(),
            final(self).can_fail() == old(self).can_fail(),
            final(self).serve_new_ptr == old(self).serve_new_ptr,
            final(self).old_pattern == old(self).old_pattern,
            final(self).new_pattern == old(self).new_pattern,
            res is Err ==> {
                &&& old(self).can_fail()
                &&& final(self).held() == old(self).held()
                &&& final(self).cursors_of(old(self))
            },
            res is Ok ==> {
                &&& final(self).state is LastReadIsStart
                &&& final(self).read_ptr == old(self).read_ptr
                &&& final(self).remaining() == old(self).remaining()
                &&& final(self).input_rest() == old(self).input_rest()
                &&& (final(self).next_match_ptr is Some || final(self).eof_position is Some
                    || final(self).servable() > 0)
            },
    {
        let ghost before = *self;
        let wrap_pos = self.old_pattern.len();
        let (lower, _upper) = self.buffer.as_mut_slice().split_at_mut(wrap_pos);
        match read_full(lower, self.underlying_reader) {
            Ok(size) => {
                let mut count = self.buffer.len() - self.read_ptr;
                if size < wrap_pos {
                    // upstream has run dry: the stream ends in the lower half
                    self.eof_position = Some(size);
                    count = if count + size >= wrap_pos {
                        count + size - wrap_pos + 1
                    } else {
                        0
                    };
                }
                self.state = ReplacingReaderState::LastReadIsStart;
                proof {
                    let up = before.underlying_reader.remaining();
                    assert forall|i: int| 0 <= i < size implies self.buffer@[i] == up[i] by {
                        assert(lower@.take(size as int)[i] == up.take(size as int)[i]);
                    }
                    Self::lemma_fill(&before, self, size as int);
                }
                self.rescan(count);
                Ok(())
            },
            Err(e) => Err(e),
        }
    }

    /// Fills the upper half while the lower one is being delivered.
    fn fill_upper(&mut self) -> (res: Result<(), std::io::Error>)
        requires
            old(self).inv(),
            old(self).state is LastReadIsStart,
            old(self).eof_position is None,
            old(self).next_match_ptr is None,
            old(self).read_ptr < old(self).half(),
        ensures
            final(self).inv(),
            final(self).can_fail() == old(self).can_fail(),
            final(self).serve_new_ptr == old(self).serve_new_ptr,
            final(self).old_pattern == old(self).old_pattern,
            final(self).new_pattern == old(self).new_pattern,
            res is Err ==> {
                &&& old(self).can_fail()
                &&& final(self).held() == old(self).held()
                &&& final(self).cursors_of(old(self))
            },
            res is Ok ==> {
                &&& final(self).state is LastReadIsMiddle
                &&& final(self).read_ptr == old(self).read_ptr
                &&& final(self).remaining() == old(self).remaining()
                &&& final(self).input_rest() == old(self).input_rest()
                &&& (final(self).next_match_ptr is Some || final(self).eof_position is Some
                    || final(self).servable() > 0)
            },
    {
        let ghost before = *self;
        let wrap_pos = self.old_pattern.len();
        let (_lower, upper) = self.buffer.as_mut_slice().split_at_mut(wrap_pos);
        match read_full(upper, self.underlying_reader) {
            Ok(size) => {
                let mut count = wrap_pos - self.read_ptr;
                if size < wrap_pos {
                    // upstream has run dry: the stream ends in the upper half
                    self.eof_position = Some(wrap_pos + size);
                    count = if size >= self.read_ptr {
                        size - self.read_ptr + 1
                    } else {
                        0
                    };
                }
                self.state = ReplacingReaderState::LastReadIsMiddle;
                proof {
                    let up = before.underlying_reader.remaining();
                    assert forall|i: int| 0 <= i < size implies self.buffer@[wrap_pos + i]
                        == up[i] by {
                        assert(upper@.take(size as int)[i] == up.take(size as int)[i]);
                    }
                    Self::lemma_fill(&before, self, size as int);
                }
                self.rescan(count);
                Ok(())
            },
            Err(e) => Err(e),
        }
    }

    /// Delivers what stands between the read cursor and the end of the stream,
    /// up to the ring's end.
    fn drain(&mut self, buf: &mut [u8], eof_position: usize) -> (n: usize)
        requires
            old(self).inv(),
            old(self).serve_new_ptr is None,
            old(self).next_match_ptr is None,
            old(self).eof_position == Some(eof_position),
        ensures
            final(self).inv(),
            final(self).can_fail() == old(self).can_fail(),
            final(buf)@.len() == old(buf)@.len(),
            n <= old(buf)@.len(),
            n <= old(self).remaining().len(),
            n == 0 ==> old(buf)@.len() == 0 || old(self).remaining().len() == 0,
            final(buf)@.take(n as int) == old(self).remaining().take(n as int),
            final(buf)@.skip(n as int) == old(buf)@.skip(n as int),
            final(self).remaining() == old(self).remaining().skip(n as int),
            final(self).unmoved(old(self)),
    {
        let max_read_size = if eof_position < self.read_ptr {
            self.buffer.len() - self.read_ptr
        } else {
            eof_position - self.read_ptr
        };
        self.serve_verbatim(buf, max_read_size)
    }
}

impl<'a, R: ByteSource> ByteSource for ReplacingReader<'a, R> {
    closed spec fn remaining(&self) -> Stream {
        self.replacement_left() + replace_all(self.input_rest(), self.old_pattern@, self.new_pattern@)
    }

    closed spec fn can_fail(&self) -> bool {
        self.underlying_reader.can_fail()
    }

    closed spec fn inv(&self) -> bool {
        &&& self.underlying_reader.inv()
        &&& self.structural()
        &&& self.scanned()
    }

    /// Delivers the next bytes of the rewritten stream to the front of `buf`; what
    /// lies behind them in `buf` stays as it was.
    ///
    /// Once upstream has reported its end it is not pulled again, and no pull
    /// fails. A failure of upstream is handed on; nothing is delivered then and
    /// nothing that the reader holds is lost, so that the stream goes on as it
    /// would have if upstream takes up where the reader thought it was.
    fn read(&mut self, buf: &mut [u8]) -> (res: Result<usize, std::io::Error>)
        ensures
            final(self).search() == old(self).search(),
            final(self).replacement() == old(self).replacement(),
            res matches Ok(n) ==> final(buf)@.skip(n as int) == old(buf)@.skip(n as int),
            res is Err ==> final(buf)@ == old(buf)@,
            res is Err ==> exists|upstream: Stream| #[trigger]
                final(self).would_deliver(upstream) == old(self).remaining(),
            old(self).upstream_dry() ==> {
                &&& res is Ok
                &&& final(self).upstream_dry()
                &&& final(self).source() == old(self).source()
            },
    {
        loop
            invariant
                self.inv(),
                self.can_fail() == old(self).can_fail(),
                self.remaining() == old(self).remaining(),
                self.old_pattern == old(self).old_pattern,
                self.new_pattern == old(self).new_pattern,
                old(self).eof_position is Some ==> self.eof_position is Some
                    && self.underlying_reader == old(self).underlying_reader,
                buf@ == old(buf)@,
            decreases self.input_rest().len(), self.rank(),
        {
            match self.serve_new_ptr {
                Some(new_ptr) => {
                    // a replacement is under way
                    if new_ptr < self.new_pattern.len() {
                        let n = self.serve_replacement(buf, new_ptr);
                        return Ok(n);
                    }
                    self.serve_new_ptr = None;
                },
                None => match self.next_match_ptr {
                    Some(next_match_ptr) => {
                        // an occurrence lies ahead
                        if next_match_ptr > self.read_ptr {
                            let n = self.serve_verbatim(buf, next_match_ptr - self.read_ptr);
                            if self.read_ptr == next_match_ptr {
                                self.skip_match();
                            }
                            return Ok(n);
                        }
                        self.skip_match();
                    },
                    None => match self.state {
                        ReplacingReaderState::NotInitialized => {
                            let ghost upstream = self.underlying_reader.remaining();
                            match self.initialize() {
                                Ok(()) => {},
                                Err(e) => {
                                    assert(self.would_deliver(upstream) == old(self).remaining());
                                    return Err(e);
                                },
                            }
                        },
                        ReplacingReaderState::LastReadIsStart => {
                            if let Some(eof_position) = self.eof_position {
                                let n = self.drain(buf, eof_position);
                                return Ok(n);
                            }
                            if self.read_ptr >= self.old_pattern.len() {
                                // the upper half is still to be delivered
                                let remaining_data_len = self.buffer.len() - self.read_ptr;
                                let n = self.serve_verbatim(buf, remaining_data_len);
                                return Ok(n);
                            }
                            let ghost upstream = self.underlying_reader.remaining();
                            match self.fill_upper() {
                                Ok(()) => {},
                                Err(e) => {
                                    assert(self.would_deliver(upstream) == old(self).remaining());
                                    return Err(e);
                                },
                            }
                        },
                        ReplacingReaderState::LastReadIsMiddle => {
                            if let Some(eof_position) = self.eof_position {
                                let n = self.drain(buf, eof_position);
                                return Ok(n);
                            }
                            if self.read_ptr < self.old_pattern.len() {
                                // the lower half is still to be delivered
                                let remaining_data_len = self.old_pattern.len() - self.read_ptr;
                                let n = self.serve_verbatim(buf, remaining_data_len);
                                return Ok(n);
                            }
                            let ghost upstream = self.underlying_reader.remaining();
                            match self.fill_lower() {
                                Ok(()) => {},
                                Err(e) => {
                                    assert(self.would_deliver(upstream) == old(self).remaining());
                                    return Err(e);
                                },
                            }
                        },
                    },
                },
            }
        }
    }
}

} // verus!
