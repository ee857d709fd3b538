//! Spans of a fixed-size byte ring, read with wraparound.
use vstd::prelude::*;

verus! {

/// The position reached `i` steps after `start` in a ring of `cap` places.
pub open spec fn ring_index(cap: int, start: int, i: int) -> int {
    if start + i >= cap {
        start + i - cap
    } else {
        start + i
    }
}

/// The `count` bytes met from `start` on, going round the ring.
pub open spec fn ring_span(ring: Seq<u8>, start: int, count: int) -> Seq<u8> {
    Seq::new(count as nat, |i: int| ring[ring_index(ring.len() as int, start, i)])
}

/// A piece of a span is the span that starts where the piece does.
pub proof fn lemma_span_piece(ring: Seq<u8>, start: int, count: int, from: int, len: int)
    requires
        0 <= start < ring.len(),
        0 <= from,
        0 <= len,
        from + len <= count <= ring.len(),
    ensures
        ring_span(ring, start, count).subrange(from, from + len) == ring_span(
            ring,
            ring_index(ring.len() as int, start, from),
            len,
        ),
{
}

} // verus!
