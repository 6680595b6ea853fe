//! The receive buffer: bytes that arrived in order and wait for the application, and blocks of
//! bytes that arrived ahead of a gap.
//!
//! Positions are offsets in the peer's stream. The blocks are kept apart from each other: no
//! two overlap or touch, and none touches the in-order data. They are kept in the order in
//! which they last grew, the most recent first, which is the order in which they are
//! advertised as selective acknowledgments.

use vstd::prelude::*;
use crate::bytes_util::{append_part, copy_part, drop_front};
use crate::seq::{MAX_OFFSET, MAX_WINDOW};

verus! {

/// A run of bytes that starts at the stream offset `start`.
#[derive(Debug)]
pub struct Block {
    pub start: u64,
    pub data: Vec<u8>,
}

/// The mathematical content of a [`Block`].
pub struct BlockView {
    pub start: u64,
    pub data: Seq<u8>,
}

impl View for Block {
    type V = BlockView;

    open spec fn view(&self) -> BlockView {
        BlockView { start: self.start, data: self.data@ }
    }
}

impl BlockView {
    /// The offset behind the last byte.
    pub open spec fn end(self) -> int {
        self.start + self.data.len()
    }

    /// The byte at stream offset `off` belongs to this block.
    pub open spec fn covers(self, off: int) -> bool {
        self.start <= off < self.end()
    }

    /// The two blocks overlap, or one starts where the other ends.
    pub open spec fn touches(self, other: BlockView) -> bool {
        self.start <= other.end() && other.start <= self.end()
    }

    /// The block that covers this block and `old`, which it touches. Where both have a byte,
    /// the byte of `old` stays.
    pub open spec fn merged_with(self, old: BlockView) -> BlockView {
        let lo = if old.start < self.start {
            old.start
        } else {
            self.start
        };
        let hi = if old.end() > self.end() {
            old.end()
        } else {
            self.end()
        };
        BlockView {
            start: lo,
            data: Seq::new(
                (hi - lo) as nat,
                |i: int|
                    if old.covers(lo + i) {
                        old.data[lo + i - old.start]
                    } else {
                        self.data[lo + i - self.start]
                    },
            ),
        }
    }

    /// Every byte of the block is the byte that `stream` has at the same place, where the
    /// stream's first byte has the offset `origin`.
    pub open spec fn agrees_with(self, origin: u64, stream: Seq<u8>) -> bool {
        &&& origin <= self.start
        &&& self.end() - origin <= stream.len()
        &&& forall|k: int|
            0 <= k < self.data.len() ==> #[trigger] self.data[k] == stream[self.start - origin + k]
    }
}

/// The views of a sequence of blocks.
pub open spec fn views(blocks: Seq<Block>) -> Seq<BlockView> {
    Seq::new(blocks.len(), |i: int| blocks[i]@)
}

/// Lets `m` take in every block of `blocks` that it touches, one after the other. Gives the
/// grown block and the blocks that stayed out, in their old order.
pub open spec fn absorb(blocks: Seq<BlockView>, m: BlockView) -> (BlockView, Seq<BlockView>)
    decreases blocks.len(),
{
    if blocks.len() == 0 {
        (m, Seq::empty())
    } else {
        let b = blocks[0];
        if m.touches(b) {
            absorb(blocks.drop_first(), m.merged_with(b))
        } else {
            let (grown, rest) = absorb(blocks.drop_first(), m);
            (grown, seq![b] + rest)
        }
    }
}

/// No two of the blocks overlap or touch.
pub open spec fn apart(blocks: Seq<BlockView>) -> bool {
    forall|i: int, j: int|
        0 <= i < j < blocks.len() ==> !(#[trigger] blocks[i]).touches(#[trigger] blocks[j])
}

/// Every block is non-empty and lies strictly behind `nxt` and at or before `limit`.
pub open spec fn within(blocks: Seq<BlockView>, nxt: int, limit: int) -> bool {
    forall|i: int|
        0 <= i < blocks.len() ==> {
            let b = #[trigger] blocks[i];
            b.data.len() > 0 && nxt < b.start && b.end() <= limit
        }
}

/// The mathematical content of a [`RecvBuffer`].
pub struct RecvBufferView {
    /// The offset of the first byte of the stream.
    pub origin: u64,
    /// The offset of the next byte that is expected in order.
    pub nxt: u64,
    /// The bytes that arrived in order and have not been handed to the application.
    pub readable: Seq<u8>,
    /// The blocks that arrived ahead of a gap, the one that grew last first.
    pub blocks: Seq<BlockView>,
    /// The most bytes that `readable` holds.
    pub capacity: usize,
    /// The offset of the peer's FIN, once it is known.
    pub fin: Option<u64>,
    /// Every byte before the FIN has arrived, and `nxt` lies behind the FIN.
    pub fin_reached: bool,
}

impl RecvBufferView {
    /// The window: how many bytes from `nxt` on the buffer takes.
    pub open spec fn window(self) -> int {
        self.capacity - self.readable.len()
    }

    /// The offset at which the buffer stops taking bytes: the end of the window, the FIN, or
    /// the largest offset, whichever comes first.
    pub open spec fn limit(self) -> int {
        let edge = if self.nxt + self.window() < MAX_OFFSET {
            self.nxt + self.window()
        } else {
            MAX_OFFSET as int
        };
        match self.fin {
            Some(f) if f < edge => f as int,
            _ => edge,
        }
    }

    /// The number of stream bytes that have arrived in order.
    pub open spec fn received(self) -> int {
        if self.fin_reached {
            self.nxt - 1 - self.origin
        } else {
            self.nxt - self.origin
        }
    }

    /// The number of stream bytes that have been handed to the application.
    pub open spec fn delivered(self) -> int {
        self.received() - self.readable.len()
    }

    pub open spec fn wf(self) -> bool {
        &&& self.origin <= self.nxt <= MAX_OFFSET + 1
        &&& self.capacity <= MAX_WINDOW
        &&& self.readable.len() <= self.capacity
        &&& self.readable.len() <= self.received()
        &&& within(self.blocks, self.nxt as int, self.limit())
        &&& apart(self.blocks)
        &&& match self.fin {
            Some(f) => if self.fin_reached {
                self.nxt == f + 1 && self.blocks.len() == 0
            } else {
                self.nxt < f
            },
            None => !self.fin_reached,
        }
    }

    /// An empty buffer for a stream whose first byte has the offset `origin`.
    pub open spec fn empty(origin: u64, capacity: usize) -> RecvBufferView {
        RecvBufferView {
            origin,
            nxt: origin,
            readable: Seq::empty(),
            blocks: Seq::empty(),
            capacity,
            fin: None,
            fin_reached: false,
        }
    }

    /// The buffer after a segment with the bytes `bytes` that starts `delta` offsets behind
    /// `nxt` (before it, where `delta` is negative).
    ///
    /// Of the segment only what lies between `nxt` and the limit counts. That part takes in
    /// every block it touches. If it starts at `nxt`, it is appended to the readable bytes
    /// and `nxt` moves behind it, and behind the FIN if the FIN comes next. If not, it
    /// becomes the first block.
    pub open spec fn inserted(self, delta: int, bytes: Seq<u8>) -> RecvBufferView {
        let s = self.nxt + delta;
        let e = s + bytes.len();
        let lo = if s < self.nxt {
            self.nxt as int
        } else {
            s
        };
        let hi = if e > self.limit() {
            self.limit()
        } else {
            e
        };
        if self.fin_reached || lo >= hi {
            self
        } else {
            let part = BlockView { start: lo as u64, data: bytes.subrange(lo - s, hi - s) };
            let (grown, rest) = absorb(self.blocks, part);
            if grown.start == self.nxt {
                let reached = self.fin == Some(grown.end() as u64);
                RecvBufferView {
                    nxt: if reached {
                        (grown.end() + 1) as u64
                    } else {
                        grown.end() as u64
                    },
                    readable: self.readable + grown.data,
                    blocks: rest,
                    fin_reached: reached,
                    ..self
                }
            } else {
                RecvBufferView { blocks: seq![grown] + rest, ..self }
            }
        }
    }

    /// The buffer after the peer's FIN was seen `delta` offsets behind `nxt`.
    ///
    /// The FIN counts if none was known, if it does not lie before `nxt` or behind the limit,
    /// and if no block reaches behind it. If it lies at `nxt`, `nxt` moves behind it at once.
    pub open spec fn with_fin(self, delta: int) -> RecvBufferView {
        let f = self.nxt + delta;
        if self.fin is Some || delta < 0 || f > self.limit() || !within(
            self.blocks,
            self.nxt as int,
            f,
        ) {
            self
        } else if delta == 0 {
            RecvBufferView { fin: Some(f as u64), fin_reached: true, nxt: (f + 1) as u64, ..self }
        } else {
            RecvBufferView { fin: Some(f as u64), ..self }
        }
    }

    /// The buffer after the application has taken the first `n` readable bytes.
    pub open spec fn drained(self, n: int) -> RecvBufferView {
        RecvBufferView { readable: self.readable.skip(n), ..self }
    }

    /// The ranges to advertise as selective acknowledgments: the first four blocks.
    pub open spec fn sack_ranges(self) -> Seq<(u64, u64)> {
        Seq::new(
            if self.blocks.len() < 4 {
                self.blocks.len()
            } else {
                4
            },
            |i: int| (self.blocks[i].start, self.blocks[i].end() as u64),
        )
    }

    /// The peer's FIN has arrived in order and every byte before it has been handed to the
    /// application.
    pub open spec fn fin_delivered(self) -> bool {
        self.fin_reached && self.readable.len() == 0
    }

    /// Everything the buffer holds is what `stream` has at the same place.
    pub open spec fn agrees_with(self, stream: Seq<u8>) -> bool {
        &&& self.received() <= stream.len()
        &&& self.readable == stream.subrange(self.delivered(), self.received())
        &&& forall|i: int|
            0 <= i < self.blocks.len() ==> (#[trigger] self.blocks[i]).agrees_with(
                self.origin,
                stream,
            )
        &&& match self.fin {
            Some(f) => f - self.origin == stream.len(),
            None => true,
        }
    }
}

/// A block that touches neither `m` nor any of `blocks` does not touch what `m` grows into.
pub proof fn lemma_absorb_keeps_apart(blocks: Seq<BlockView>, m: BlockView, c: BlockView)
    requires
        !c.touches(m),
        forall|j: int| 0 <= j < blocks.len() ==> !c.touches(#[trigger] blocks[j]),
    ensures
        !c.touches(absorb(blocks, m).0),
    decreases blocks.len(),
{
    if blocks.len() > 0 {
        let b = blocks[0];
        let tail = blocks.drop_first();
        assert forall|j: int| 0 <= j < tail.len() implies !c.touches(#[trigger] tail[j]) by {
            assert(tail[j] == blocks[j + 1]);
        }
        if m.touches(b) {
            lemma_absorb_keeps_apart(tail, m.merged_with(b), c);
        } else {
            lemma_absorb_keeps_apart(tail, m, c);
        }
    }
}

/// What [`absorb`] keeps: the grown block covers `m` and stays within the bounds that `m`
/// and the blocks keep, it starts at `nxt` only if `m` does, and the blocks that stay out
/// are apart from it and from each other.
pub proof fn lemma_absorb(blocks: Seq<BlockView>, m: BlockView, nxt: int, limit: int)
    requires
        apart(blocks),
        within(blocks, nxt, limit),
        m.data.len() > 0,
        nxt <= m.start,
        m.end() <= limit,
        limit <= u64::MAX,
    ensures
        ({
            let (grown, rest) = absorb(blocks, m);
            &&& grown.start <= m.start
            &&& m.end() <= grown.end() <= limit
            &&& grown.data.len() > 0
            &&& nxt <= grown.start
            &&& (grown.start == nxt <==> m.start == nxt)
            &&& rest.len() <= blocks.len()
            &&& apart(rest)
            &&& within(rest, nxt, limit)
            &&& forall|k: int| 0 <= k < rest.len() ==> !grown.touches(#[trigger] rest[k])
            &&& forall|k: int|
                0 <= k < rest.len() ==> exists|j: int|
                    0 <= j < blocks.len() && blocks[j] == #[trigger] rest[k]
        }),
    decreases blocks.len(),
{
    if blocks.len() > 0 {
        let b = blocks[0];
        let tail = blocks.drop_first();
        assert forall|i: int, j: int| 0 <= i < j < tail.len() implies !(#[trigger] tail[i]).touches(
            #[trigger] tail[j],
        ) by {
            assert(tail[i] == blocks[i + 1]);
            assert(tail[j] == blocks[j + 1]);
        }
        assert forall|i: int| 0 <= i < tail.len() implies {
            let t = #[trigger] tail[i];
            t.data.len() > 0 && nxt < t.start && t.end() <= limit
        } by {
            assert(tail[i] == blocks[i + 1]);
        }
        if m.touches(b) {
            let mm = m.merged_with(b);
            lemma_absorb(tail, mm, nxt, limit);
            let (grown, rest) = absorb(tail, mm);
            assert forall|k: int| 0 <= k < rest.len() implies exists|j: int|
                0 <= j < blocks.len() && blocks[j] == #[trigger] rest[k] by {
                let j0 = choose|j: int| 0 <= j < tail.len() && tail[j] == rest[k];
                assert(blocks[j0 + 1] == rest[k]);
            }
        } else {
            lemma_absorb(tail, m, nxt, limit);
            let (grown, rest0) = absorb(tail, m);
            let rest = seq![b] + rest0;
            assert forall|j: int| 0 <= j < tail.len() implies !b.touches(#[trigger] tail[j]) by {
                assert(tail[j] == blocks[j + 1]);
                assert(!blocks[0].touches(blocks[j + 1]));
            }
            lemma_absorb_keeps_apart(tail, m, b);
            assert forall|k: int| 0 <= k < rest.len() implies exists|j: int|
                0 <= j < blocks.len() && blocks[j] == #[trigger] rest[k] by {
                if k == 0 {
                    assert(blocks[0] == rest[0]);
                } else {
                    assert(rest[k] == rest0[k - 1]);
                    let j0 = choose|j: int| 0 <= j < tail.len() && tail[j] == rest0[k - 1];
                    assert(blocks[j0 + 1] == rest[k]);
                }
            }
            assert forall|i: int, j: int| 0 <= i < j < rest.len() implies !(#[trigger] rest[i]).touches(
                #[trigger] rest[j],
            ) by {
                assert(rest[j] == rest0[j - 1]);
                if i == 0 {
                    let j0 = choose|x: int| 0 <= x < tail.len() && tail[x] == rest0[j - 1];
                    assert(tail[j0] == blocks[j0 + 1]);
                    assert(!blocks[0].touches(blocks[j0 + 1]));
                } else {
                    assert(rest[i] == rest0[i - 1]);
                }
            }
            assert forall|i: int| 0 <= i < rest.len() implies {
                let t = #[trigger] rest[i];
                t.data.len() > 0 && nxt < t.start && t.end() <= limit
            } by {
                if i > 0 {
                    assert(rest[i] == rest0[i - 1]);
                }
            }
            assert forall|k: int| 0 <= k < rest.len() implies !grown.touches(#[trigger] rest[k]) by {
                if k > 0 {
                    assert(rest[k] == rest0[k - 1]);
                }
            }
        }
    }
}

/// If `m` and every block agree with a stream, so do the block that `m` grows into and the
/// blocks that stay out.
pub proof fn lemma_absorb_agrees(
    blocks: Seq<BlockView>,
    m: BlockView,
    origin: u64,
    stream: Seq<u8>,
)
    requires
        m.agrees_with(origin, stream),
        forall|i: int| 0 <= i < blocks.len() ==> (#[trigger] blocks[i]).agrees_with(origin, stream),
    ensures
        absorb(blocks, m).0.agrees_with(origin, stream),
        forall|k: int|
            0 <= k < absorb(blocks, m).1.len() ==> (#[trigger] absorb(blocks, m).1[k]).agrees_with(
                origin,
                stream,
            ),
    decreases blocks.len(),
{
    if blocks.len() > 0 {
        let b = blocks[0];
        let tail = blocks.drop_first();
        assert forall|i: int| 0 <= i < tail.len() implies (#[trigger] tail[i]).agrees_with(
            origin,
            stream,
        ) by {
            assert(tail[i] == blocks[i + 1]);
        }
        if m.touches(b) {
            let mm = m.merged_with(b);
            assert(mm.agrees_with(origin, stream)) by {
                assert forall|k: int| 0 <= k < mm.data.len() implies #[trigger] mm.data[k]
                    == stream[mm.start - origin + k] by {
                    if b.covers(mm.start + k) {
                        assert(b.data[mm.start + k - b.start] == stream[mm.start - origin + k]);
                    } else {
                        assert(m.data[mm.start + k - m.start] == stream[mm.start - origin + k]);
                    }
                }
            }
            lemma_absorb_agrees(tail, mm, origin, stream);
        } else {
            lemma_absorb_agrees(tail, m, origin, stream);
            let (grown, rest0) = absorb(tail, m);
            let rest = seq![b] + rest0;
            assert forall|k: int| 0 <= k < rest.len() implies (#[trigger] rest[k]).agrees_with(
                origin,
                stream,
            ) by {
                if k > 0 {
                    assert(rest[k] == rest0[k - 1]);
                }
            }
        }
    }
}

/// The bytes of a segment that starts `delta` offsets behind `nxt` are what `stream` has at
/// the same place, and the segment does not reach behind the end of `stream`.
pub open spec fn segment_agrees(
    b: RecvBufferView,
    delta: int,
    bytes: Seq<u8>,
    stream: Seq<u8>,
) -> bool {
    let s = b.nxt + delta;
    &&& s + bytes.len() - b.origin <= stream.len()
    &&& forall|k: int|
        0 <= k < bytes.len() && b.origin <= s + k ==> #[trigger] bytes[k] == stream[s + k
            - b.origin]
}

/// A buffer that agrees with a stream still agrees with it after it has taken in a segment
/// that agrees with the same stream: whatever arrives, in whatever order and however often,
/// the buffer holds bytes of the stream at their places.
pub proof fn lemma_insert_agrees(b: RecvBufferView, delta: int, bytes: Seq<u8>, stream: Seq<u8>)
    requires
        b.wf(),
        b.agrees_with(stream),
        segment_agrees(b, delta, bytes, stream),
    ensures
        b.inserted(delta, bytes).agrees_with(stream),
{
    let s = b.nxt + delta;
    let e = s + bytes.len();
    let lo = if s < b.nxt {
        b.nxt as int
    } else {
        s
    };
    let hi = if e > b.limit() {
        b.limit()
    } else {
        e
    };
    if !(b.fin_reached || lo >= hi) {
        let part = BlockView { start: lo as u64, data: bytes.subrange(lo - s, hi - s) };
        assert(part.agrees_with(b.origin, stream)) by {
            assert forall|k: int| 0 <= k < part.data.len() implies #[trigger] part.data[k]
                == stream[part.start - b.origin + k] by {
                assert(part.data[k] == bytes[lo - s + k]);
            }
        }
        lemma_absorb(b.blocks, part, b.nxt as int, b.limit());
        lemma_absorb_agrees(b.blocks, part, b.origin, stream);
        let (grown, rest) = absorb(b.blocks, part);
        let after = b.inserted(delta, bytes);
        if grown.start == b.nxt {
            assert(after.readable =~= stream.subrange(after.delivered(), after.received())) by {
                assert forall|i: int| 0 <= i < after.readable.len() implies after.readable[i]
                    == stream[after.delivered() + i] by {
                    if i < b.readable.len() {
                        assert(b.readable[i] == stream.subrange(b.delivered(), b.received())[i]);
                    } else {
                        assert(after.readable[i] == grown.data[i - b.readable.len()]);
                    }
                }
            }
        } else {
            assert forall|i: int| 0 <= i < after.blocks.len() implies (
            #[trigger] after.blocks[i]).agrees_with(b.origin, stream) by {
                if i > 0 {
                    assert(after.blocks[i] == rest[i - 1]);
                }
            }
        }
    }
}

/// A well-formed buffer is well-formed after it has taken in a segment.
pub proof fn lemma_inserted_wf(b: RecvBufferView, delta: int, bytes: Seq<u8>)
    requires
        b.wf(),
    ensures
        b.inserted(delta, bytes).wf(),
{
    let s = b.nxt + delta;
    let e = s + bytes.len();
    let lo = if s < b.nxt {
        b.nxt as int
    } else {
        s
    };
    let hi = if e > b.limit() {
        b.limit()
    } else {
        e
    };
    if !(b.fin_reached || lo >= hi) {
        let part = BlockView { start: lo as u64, data: bytes.subrange(lo - s, hi - s) };
        lemma_absorb(b.blocks, part, b.nxt as int, b.limit());
        let (grown, rest) = absorb(b.blocks, part);
        let after = b.inserted(delta, bytes);
        if grown.start == b.nxt {
            assert forall|k: int| 0 <= k < after.blocks.len() implies {
                let t = #[trigger] after.blocks[k];
                t.data.len() > 0 && after.nxt < t.start && t.end() <= after.limit()
            } by {
                assert(!grown.touches(rest[k]));
            }
            if after.fin_reached && after.blocks.len() > 0 {
                let t = after.blocks[0];
                assert(t.data.len() > 0 && after.nxt < t.start && t.end() <= after.limit());
            }
        } else {
            let all = seq![grown] + rest;
            assert(after.blocks =~= all);
            assert forall|i: int, j: int| 0 <= i < j < all.len() implies !(#[trigger] all[i]).touches(
                #[trigger] all[j],
            ) by {
                assert(all[j] == rest[j - 1]);
                if i > 0 {
                    assert(all[i] == rest[i - 1]);
                }
            }
            assert forall|k: int| 0 <= k < all.len() implies {
                let t = #[trigger] all[k];
                t.data.len() > 0 && after.nxt < t.start && t.end() <= after.limit()
            } by {
                if k > 0 {
                    assert(all[k] == rest[k - 1]);
                }
            }
        }
    }
}

/// A well-formed buffer is well-formed after the FIN was seen and after the application has
/// taken readable bytes.
pub proof fn lemma_stays_wf(b: RecvBufferView, delta: int, n: int)
    requires
        b.wf(),
    ensures
        b.with_fin(delta).wf(),
        0 <= n <= b.readable.len() ==> b.drained(n).wf(),
{
    let f = b.nxt + delta;
    if !(b.fin is Some || delta < 0 || f > b.limit() || !within(b.blocks, b.nxt as int, f)) {
        if delta == 0 && b.blocks.len() > 0 {
            let t = b.blocks[0];
            assert(t.data.len() > 0 && b.nxt < t.start && t.end() <= f);
        }
    }
}

/// Taking in a segment hands no bytes to the application: what has arrived in order and
/// is not readable any more stays the same.
pub proof fn lemma_inserted_keeps_taken(b: RecvBufferView, delta: int, bytes: Seq<u8>)
    requires
        b.wf(),
    ensures
        b.inserted(delta, bytes).delivered() == b.delivered(),
{
    let s = b.nxt + delta;
    let e = s + bytes.len();
    let lo = if s < b.nxt {
        b.nxt as int
    } else {
        s
    };
    let hi = if e > b.limit() {
        b.limit()
    } else {
        e
    };
    if !(b.fin_reached || lo >= hi) {
        let part = BlockView { start: lo as u64, data: bytes.subrange(lo - s, hi - s) };
        lemma_absorb(b.blocks, part, b.nxt as int, b.limit());
    }
}

/// Seeing the FIN hands no bytes to the application.
pub proof fn lemma_fin_keeps_taken(b: RecvBufferView, delta: int)
    requires
        b.wf(),
    ensures
        b.with_fin(delta).delivered() == b.delivered(),
{
}

/// Taking in a segment moves the next expected offset forward, by no more than the window
/// and the FIN.
pub proof fn lemma_inserted_advances(b: RecvBufferView, delta: int, bytes: Seq<u8>)
    requires
        b.wf(),
    ensures
        b.nxt <= b.inserted(delta, bytes).nxt <= b.nxt + b.window() + 1,
        b.inserted(delta, bytes).origin == b.origin,
{
    let s = b.nxt + delta;
    let e = s + bytes.len();
    let lo = if s < b.nxt {
        b.nxt as int
    } else {
        s
    };
    let hi = if e > b.limit() {
        b.limit()
    } else {
        e
    };
    if !(b.fin_reached || lo >= hi) {
        let part = BlockView { start: lo as u64, data: bytes.subrange(lo - s, hi - s) };
        lemma_absorb(b.blocks, part, b.nxt as int, b.limit());
    }
}

/// A buffer that agrees with a stream still agrees with it after the FIN was seen at the
/// end of the stream.
pub proof fn lemma_fin_agrees(b: RecvBufferView, delta: int, stream: Seq<u8>)
    requires
        b.wf(),
        b.agrees_with(stream),
        b.nxt + delta - b.origin == stream.len(),
    ensures
        b.with_fin(delta).agrees_with(stream),
{
}

/// What the application takes from a buffer that agrees with a stream is the part of the
/// stream that follows what it has taken before. So all that is ever handed out is, in
/// order, a prefix of the stream.
pub proof fn lemma_drain_agrees(b: RecvBufferView, n: int, stream: Seq<u8>)
    requires
        b.wf(),
        b.agrees_with(stream),
        0 <= n <= b.readable.len(),
    ensures
        b.readable.take(n) == stream.subrange(b.delivered(), b.delivered() + n),
        b.drained(n).delivered() == b.delivered() + n,
        b.drained(n).agrees_with(stream),
{
    assert(b.readable.take(n) =~= stream.subrange(b.delivered(), b.delivered() + n));
    assert(b.drained(n).readable =~= stream.subrange(
        b.drained(n).delivered(),
        b.drained(n).received(),
    ));
}

/// A buffer that agrees with a stream agrees with every longer stream that starts with it,
/// as long as the FIN has not marked the end.
pub proof fn lemma_agrees_with_longer(b: RecvBufferView, stream: Seq<u8>, more: Seq<u8>)
    requires
        b.wf(),
        b.agrees_with(stream),
        b.fin is None,
    ensures
        b.agrees_with(stream + more),
{
    let longer = stream + more;
    assert(b.readable =~= longer.subrange(b.delivered(), b.received())) by {
        assert forall|i: int| 0 <= i < b.readable.len() implies b.readable[i] == longer[b.delivered()
            + i] by {
            assert(b.readable[i] == stream.subrange(b.delivered(), b.received())[i]);
        }
    }
    assert forall|i: int| 0 <= i < b.blocks.len() implies (#[trigger] b.blocks[i]).agrees_with(
        b.origin,
        longer,
    ) by {
        let t = b.blocks[i];
        assert(t.agrees_with(b.origin, stream));
        assert forall|k: int| 0 <= k < t.data.len() implies #[trigger] t.data[k] == longer[t.start
            - b.origin + k] by {
            assert(t.data[k] == stream[t.start - b.origin + k]);
        }
    }
}

/// The receive buffer of one connection.
#[derive(Debug)]
pub struct RecvBuffer {
    origin: u64,
    nxt: u64,
    readable: Vec<u8>,
    blocks: Vec<Block>,
    capacity: usize,
    fin: Option<u64>,
    fin_reached: bool,
}

impl View for RecvBuffer {
    type V = RecvBufferView;

    closed spec fn view(&self) -> RecvBufferView {
        RecvBufferView {
            origin: self.origin,
            nxt: self.nxt,
            readable: self.readable@,
            blocks: views(self.blocks@),
            capacity: self.capacity,
            fin: self.fin,
            fin_reached: self.fin_reached,
        }
    }
}

/// Executable form of [`BlockView::touches`].
fn touching(a: &Block, b: &Block) -> (r: bool)
    requires
        a@.end() <= u64::MAX,
        b@.end() <= u64::MAX,
    ensures
        r == a@.touches(b@),
{
    let a_end: u64 = a.start + a.data.len() as u64;
    let b_end: u64 = b.start + b.data.len() as u64;
    a.start <= b_end && b.start <= a_end
}

/// Executable form of [`BlockView::merged_with`].
fn merge(m: Block, b: Block) -> (r: Block)
    requires
        m@.touches(b@),
        m@.end() <= u64::MAX,
        b@.end() <= u64::MAX,
    ensures
        r@ == m@.merged_with(b@),
{
    let m_start: u64 = m.start;
    let b_start: u64 = b.start;
    let m_end: u64 = m.start + m.data.len() as u64;
    let b_end: u64 = b.start + b.data.len() as u64;
    let mut m_data: Vec<u8> = m.data;
    let mut b_data: Vec<u8> = b.data;
    if b_start <= m_start {
        if m_end > b_end {
            let k: usize = (b_end - m_start) as usize;
            append_part(&mut b_data, m_data.as_slice(), k, m_data.len());
        }
        let r = Block { start: b_start, data: b_data };
        assert(r@.data =~= m@.merged_with(b@).data);
        r
    } else {
        let k: usize = (b_start - m_start) as usize;
        let tail: Vec<u8> = m_data.split_off(k);
        let b_len: usize = b_data.len();
        m_data.append(&mut b_data);
        if m_end > b_end {
            append_part(&mut m_data, tail.as_slice(), b_len, tail.len());
        }
        let r = Block { start: m_start, data: m_data };
        assert(r@.data =~= m@.merged_with(b@).data);
        r
    }
}

impl RecvBuffer {
    pub open spec fn wf(&self) -> bool {
        self@.wf()
    }

    /// An empty buffer for a stream whose first byte has the offset `origin`.
    pub fn new(origin: u64, capacity: usize) -> (r: RecvBuffer)
        requires
            origin <= MAX_OFFSET,
            capacity <= MAX_WINDOW,
        ensures
            r@ == RecvBufferView::empty(origin, capacity),
            r.wf(),
    {
        let r = RecvBuffer {
            origin,
            nxt: origin,
            readable: Vec::new(),
            blocks: Vec::new(),
            capacity,
            fin: None,
            fin_reached: false,
        };
        assert(r@.blocks =~= Seq::<BlockView>::empty());
        r
    }

    /// The offset of the next byte that is expected in order.
    pub fn next(&self) -> (n: u64)
        ensures
            n == self@.nxt,
    {
        self.nxt
    }

    /// The window: how many bytes from `next()` on the buffer takes.
    pub fn window(&self) -> (w: usize)
        requires
            self.wf(),
        ensures
            w == self@.window(),
    {
        self.capacity - self.readable.len()
    }

    /// The number of stream bytes that have arrived in order.
    pub fn received(&self) -> (n: u64)
        requires
            self.wf(),
        ensures
            n == self@.received(),
    {
        if self.fin_reached {
            self.nxt - 1 - self.origin
        } else {
            self.nxt - self.origin
        }
    }

    /// The number of bytes that the application can take.
    pub fn readable_len(&self) -> (n: usize)
        ensures
            n == self@.readable.len(),
    {
        self.readable.len()
    }

    /// The peer's FIN has arrived in order.
    pub fn fin_reached(&self) -> (r: bool)
        ensures
            r == self@.fin_reached,
    {
        self.fin_reached
    }

    /// The peer's FIN has arrived in order and every byte before it has been taken.
    pub fn peer_fin_delivered(&self) -> (r: bool)
        ensures
            r == self@.fin_delivered(),
    {
        self.fin_reached && self.readable.len() == 0
    }

    /// Whether blocks wait behind a gap.
    pub fn has_gap(&self) -> (r: bool)
        ensures
            r == (self@.blocks.len() > 0),
    {
        self.blocks.len() > 0
    }

    fn limit(&self) -> (l: u64)
        requires
            self.wf(),
        ensures
            l == self@.limit(),
    {
        let window: u64 = (self.capacity - self.readable.len()) as u64;
        let edge: u64 = if self.nxt + window < MAX_OFFSET {
            self.nxt + window
        } else {
            MAX_OFFSET
        };
        match self.fin {
            Some(f) => if f < edge {
                f
            } else {
                edge
            },
            None => edge,
        }
    }

    /// Takes in a segment with the bytes `bytes` that starts `delta` offsets behind `next()`.
    pub fn insert(&mut self, delta: i64, bytes: &[u8])
        requires
            old(self).wf(),
        ensures
            final(self)@ == old(self)@.inserted(delta as int, bytes@),
            final(self).wf(),
            old(self)@.received() <= final(self)@.received() <= old(self)@.received()
                + old(self)@.window(),
    {
        if self.fin_reached {
            return ;
        }
        let len: usize = bytes.len();
        let skip: usize;
        let lo: u64;
        if delta < 0 {
            let back: u64 = (0 - delta as i128) as u64;
            if back >= len as u64 {
                return ;
            }
            skip = back as usize;
            lo = self.nxt;
        } else {
            skip = 0;
            lo = self.nxt + delta as u64;
        }
        let limit: u64 = self.limit();
        if lo >= limit {
            return ;
        }
        let avail: u64 = limit - lo;
        let rem: usize = len - skip;
        if rem == 0 {
            return ;
        }
        let take: usize = if (rem as u64) < avail {
            rem
        } else {
            avail as usize
        };
        let ghost before = self@;
        let ghost nxt = self.nxt as int;
        let part = Block { start: lo, data: copy_part(bytes, skip, skip + take) };
        let ghost part0 = part@;
        let mut grown: Block = part;
        let mut waiting: Vec<Block> = Vec::new();
        core::mem::swap(&mut self.blocks, &mut waiting);
        let ghost blocks0 = views(waiting@);
        let mut rest: Vec<Block> = Vec::new();
        assert(views(rest@) =~= Seq::<BlockView>::empty());
        assert(blocks0.skip(0) =~= blocks0);
        assert(blocks0 == before.blocks);
        for b in it: waiting
            invariant
                blocks0 == views(it.seq()),
                apart(blocks0),
                within(blocks0, nxt, limit as int),
                limit <= MAX_OFFSET,
                grown@.data.len() > 0,
                nxt <= grown@.start,
                grown@.end() <= limit,
                absorb(blocks0, part0) == ({
                    let (g, r) = absorb(blocks0.skip(it.index() as int), grown@);
                    (g, views(rest@) + r)
                }),
        {
            let ghost i = it.index() as int;
            let ghost tail = blocks0.skip(i);
            let ghost kept = views(rest@);
            assert(b@ == blocks0[i]);
            assert(tail[0] == blocks0[i]);
            assert(tail.drop_first() =~= blocks0.skip(i + 1));
            if touching(&grown, &b) {
                grown = merge(grown, b);
            } else {
                rest.push(b);
                assert(views(rest@) =~= kept.push(b@));
                assert(kept.push(b@) + absorb(blocks0.skip(i + 1), grown@).1 =~= kept + (seq![b@]
                    + absorb(blocks0.skip(i + 1), grown@).1));
            }
        }
        proof {
            assert(blocks0.skip(blocks0.len() as int) =~= Seq::<BlockView>::empty());
            assert(views(rest@) + Seq::<BlockView>::empty() =~= views(rest@));
            lemma_absorb(blocks0, part0, nxt, limit as int);
            assert(absorb(blocks0, part0) == (grown@, views(rest@)));
        }
        if grown.start == self.nxt {
            let n: usize = grown.data.len();
            let mut data: Vec<u8> = grown.data;
            self.readable.append(&mut data);
            self.nxt = self.nxt + n as u64;
            self.blocks = rest;
            match self.fin {
                Some(f) => {
                    if f == self.nxt {
                        self.nxt = f + 1;
                        self.fin_reached = true;
                    }
                },
                None => {},
            }
            proof {
                let after = self@;
                assert forall|k: int| 0 <= k < after.blocks.len() implies {
                    let t = #[trigger] after.blocks[k];
                    t.data.len() > 0 && after.nxt < t.start && t.end() <= after.limit()
                } by {
                    assert(!grown@.touches(views(rest@)[k]));
                }
                if after.fin_reached && after.blocks.len() > 0 {
                    let t = after.blocks[0];
                    assert(t.data.len() > 0 && after.nxt < t.start && t.end() <= after.limit());
                }
            }
        } else {
            rest.insert(0, grown);
            self.blocks = rest;
            proof {
                let after = self@;
                let all = seq![grown@] + absorb(blocks0, part0).1;
                assert(after.blocks =~= all);
                assert forall|i: int, j: int| 0 <= i < j < all.len() implies !(#[trigger] all[i]).touches(
                    #[trigger] all[j],
                ) by {
                    let r = absorb(blocks0, part0).1;
                    assert(all[j] == r[j - 1]);
                    if i > 0 {
                        assert(all[i] == r[i - 1]);
                    }
                }
                assert forall|k: int| 0 <= k < all.len() implies {
                    let t = #[trigger] all[k];
                    t.data.len() > 0 && after.nxt < t.start && t.end() <= after.limit()
                } by {
                    let r = absorb(blocks0, part0).1;
                    if k > 0 {
                        assert(all[k] == r[k - 1]);
                    }
                }
            }
        }
    }

    /// Whether every block ends at or before `f`.
    fn blocks_end_by(&self, f: u64) -> (r: bool)
        requires
            self.wf(),
        ensures
            r == within(self@.blocks, self@.nxt as int, f as int),
    {
        let mut i: usize = 0;
        while i < self.blocks.len()
            invariant
                self.wf(),
                i <= self.blocks.len(),
                within(self@.blocks.take(i as int), self.nxt as int, f as int),
            decreases self.blocks.len() - i,
        {
            let b = &self.blocks[i];
            assert(self@.blocks[i as int] == b@);
            if b.start + b.data.len() as u64 > f {
                return false;
            }
            proof {
                let next = self@.blocks.take(i as int + 1);
                assert forall|k: int| 0 <= k < next.len() implies {
                    let t = #[trigger] next[k];
                    t.data.len() > 0 && self.nxt < t.start && t.end() <= f
                } by {
                    if k < i {
                        assert(next[k] == self@.blocks.take(i as int)[k]);
                    }
                }
            }
            i = i + 1;
        }
        assert(self@.blocks.take(i as int) =~= self@.blocks);
        true
    }

    /// Records the peer's FIN, seen `delta` offsets behind `next()`.
    pub fn peer_fin_at(&mut self, delta: i64)
        requires
            old(self).wf(),
        ensures
            final(self)@ == old(self)@.with_fin(delta as int),
            final(self).wf(),
    {
        if self.fin.is_some() || delta < 0 {
            return ;
        }
        let f: u64 = self.nxt + delta as u64;
        if f > self.limit() {
            return ;
        }
        if !self.blocks_end_by(f) {
            return ;
        }
        self.fin = Some(f);
        if delta == 0 {
            self.nxt = f + 1;
            self.fin_reached = true;
            proof {
                if old(self)@.blocks.len() > 0 {
                    let t = old(self)@.blocks[0];
                    assert(t.data.len() > 0 && f < t.start && t.end() <= f);
                }
            }
        }
    }

    /// Moves up to `max_len` readable bytes to the end of `writer` and gives their number.
    pub fn drain(&mut self, writer: &mut Vec<u8>, max_len: usize) -> (n: usize)
        requires
            old(self).wf(),
        ensures
            n == (if max_len < old(self)@.readable.len() {
                max_len as int
            } else {
                old(self)@.readable.len() as int
            }),
            final(writer)@ == old(writer)@ + old(self)@.readable.take(n as int),
            final(self)@ == old(self)@.drained(n as int),
            final(self).wf(),
    {
        let n: usize = if max_len < self.readable.len() {
            max_len
        } else {
            self.readable.len()
        };
        append_part(writer, self.readable.as_slice(), 0, n);
        drop_front(&mut self.readable, n);
        assert(old(self)@.readable.subrange(0, n as int) =~= old(self)@.readable.take(n as int));
        n
    }

    /// The ranges to advertise as selective acknowledgments: up to four blocks, the one that
    /// grew last first.
    pub fn advertise_sack(&self) -> (r: Vec<(u64, u64)>)
        requires
            self.wf(),
        ensures
            r@ == self@.sack_ranges(),
    {
        let mut r: Vec<(u64, u64)> = Vec::new();
        let mut i: usize = 0;
        while i < self.blocks.len() && i < 4
            invariant
                self.wf(),
                i <= self.blocks.len(),
                i <= 4,
                r@.len() == i,
                forall|k: int|
                    0 <= k < i ==> r@[k] == (self@.blocks[k].start, self@.blocks[k].end() as u64),
            decreases self.blocks.len() - i,
        {
            let b = &self.blocks[i];
            assert(self@.blocks[i as int] == b@);
            r.push((b.start, b.start + b.data.len() as u64));
            i = i + 1;
        }
        assert(r@ =~= self@.sack_ranges());
        r
    }
}

} // verus!
